//! The value tree, and its mathematical model.

use vstd::prelude::*;

verus! {

/// A value of the tree as the parser builds it, before or after resolution.
#[derive(Debug)]
pub enum Value {
    Null,
    Bool(bool),
    Int(i64),
    /// An integer literal beyond the range of `i64`, kept as its text.
    BigInt(String),
    /// A floating-point literal, kept as its text.
    Float(String),
    Str(String),
    Arr(Vec<Value>),
    Obj(Vec<(String, Value)>),
    /// A pending `${path}` (or `${?path}` when `optional`) that stands as a whole value.
    Subst { path: Vec<String>, optional: bool },
    /// A pending concatenation of several units.
    Concat(Vec<CSeg>),
}

/// One unit of a concatenation.
#[derive(Debug)]
pub enum CSeg {
    /// An object, an array or a quoted string (not yet resolved).
    Val(Value),
    /// Raw unquoted text, possibly whitespace only.
    Text(String),
    Sub { path: Vec<String>, optional: bool },
}

/// The model of a [`Value`].
#[verifier::ext_equal]
pub enum SVal {
    Null,
    Bool(bool),
    Int(int),
    BigInt(Seq<char>),
    Float(Seq<char>),
    Str(Seq<char>),
    Arr(Seq<SVal>),
    Obj(Seq<(Seq<char>, SVal)>),
    Subst(Seq<Seq<char>>, bool),
    Concat(Seq<SSeg>),
}

/// The model of a [`CSeg`].
#[verifier::ext_equal]
pub enum SSeg {
    Val(SVal),
    Text(Seq<char>),
    Sub(Seq<Seq<char>>, bool),
}

pub open spec fn strings_view(v: Vec<String>) -> Seq<Seq<char>> {
    Seq::new(v.len() as nat, |i: int| v@[i]@)
}

pub open spec fn vals_view(items: Vec<Value>) -> Seq<SVal>
    decreases items,
{
    Seq::new(
        items.len() as nat,
        |i: int|
            if 0 <= i < items.len() {
                items@[i].view()
            } else {
                SVal::Null
            },
    )
}

pub open spec fn members_view(m: Vec<(String, Value)>) -> Seq<(Seq<char>, SVal)>
    decreases m,
{
    Seq::new(
        m.len() as nat,
        |i: int|
            if 0 <= i < m.len() {
                (m@[i].0@, m@[i].1.view())
            } else {
                (Seq::empty(), SVal::Null)
            },
    )
}

pub open spec fn segs_view(segs: Vec<CSeg>) -> Seq<SSeg>
    decreases segs,
{
    Seq::new(
        segs.len() as nat,
        |i: int|
            if 0 <= i < segs.len() {
                segs@[i].view()
            } else {
                SSeg::Text(Seq::empty())
            },
    )
}

impl View for Value {
    type V = SVal;

    open spec fn view(&self) -> SVal
        decreases self,
    {
        match self {
            Value::Null => SVal::Null,
            Value::Bool(b) => SVal::Bool(*b),
            Value::Int(i) => SVal::Int(*i as int),
            Value::BigInt(s) => SVal::BigInt(s@),
            Value::Float(s) => SVal::Float(s@),
            Value::Str(s) => SVal::Str(s@),
            Value::Arr(items) => SVal::Arr(vals_view(*items)),
            Value::Obj(m) => SVal::Obj(members_view(*m)),
            Value::Subst { path, optional } => SVal::Subst(strings_view(*path), *optional),
            Value::Concat(segs) => SVal::Concat(segs_view(*segs)),
        }
    }
}

impl View for CSeg {
    type V = SSeg;

    open spec fn view(&self) -> SSeg
        decreases self,
    {
        match self {
            CSeg::Val(v) => SSeg::Val(v.view()),
            CSeg::Text(t) => SSeg::Text(t@),
            CSeg::Sub { path, optional } => SSeg::Sub(strings_view(*path), *optional),
        }
    }
}

/// Index of the first member at or after `i` whose key is `k`.
pub open spec fn find_key_from(m: Seq<(Seq<char>, SVal)>, k: Seq<char>, i: int) -> Option<int>
    decreases m.len() - i,
{
    if 0 <= i < m.len() {
        if m[i].0 == k {
            Some(i)
        } else {
            find_key_from(m, k, i + 1)
        }
    } else {
        None
    }
}

/// Index of the first member whose key is `k`.
pub open spec fn find_key(m: Seq<(Seq<char>, SVal)>, k: Seq<char>) -> Option<int> {
    find_key_from(m, k, 0)
}

/// The value that the first member with key `k` holds.
pub open spec fn lookup(m: Seq<(Seq<char>, SVal)>, k: Seq<char>) -> Option<SVal> {
    match find_key(m, k) {
        Some(i) => Some(m[i].1),
        None => None,
    }
}

/// The node reached from `v` by following the keys of `path`, each through the first member
/// with that key.
pub open spec fn get_path(v: SVal, path: Seq<Seq<char>>) -> Option<SVal>
    decreases path.len(),
{
    if path.len() == 0 {
        Some(v)
    } else {
        match v {
            SVal::Obj(m) => match lookup(m, path[0]) {
                Some(child) => get_path(child, path.drop_first()),
                None => None,
            },
            _ => None,
        }
    }
}

/// A fully resolved value: no pending substitution or concatenation anywhere inside.
pub open spec fn concrete(v: SVal) -> bool
    decreases v,
{
    match v {
        SVal::Subst(..) | SVal::Concat(..) => false,
        SVal::Arr(items) => all_concrete(items),
        SVal::Obj(m) => all_concrete_members(m),
        _ => true,
    }
}

pub open spec fn all_concrete(s: Seq<SVal>) -> bool
    decreases s,
{
    s.len() == 0 || (concrete(s[0]) && all_concrete(s.drop_first()))
}

pub open spec fn all_concrete_members(m: Seq<(Seq<char>, SVal)>) -> bool
    decreases m,
{
    m.len() == 0 || (concrete(m[0].1) && all_concrete_members(m.drop_first()))
}

pub proof fn lemma_all_concrete(s: Seq<SVal>)
    ensures
        all_concrete(s) == forall|i: int| 0 <= i < s.len() ==> concrete(#[trigger] s[i]),
    decreases s.len(),
{
    if s.len() > 0 {
        lemma_all_concrete(s.drop_first());
        if forall|i: int| 0 <= i < s.len() ==> concrete(#[trigger] s[i]) {
            assert forall|i: int| 0 <= i < s.drop_first().len() implies concrete(
                #[trigger] s.drop_first()[i],
            ) by {
                assert(s.drop_first()[i] == s[i + 1]);
            }
        }
        if all_concrete(s) {
            assert forall|i: int| 0 <= i < s.len() implies concrete(#[trigger] s[i]) by {
                if i > 0 {
                    assert(s[i] == s.drop_first()[i - 1]);
                }
            }
        }
    }
}

pub proof fn lemma_all_concrete_members(m: Seq<(Seq<char>, SVal)>)
    ensures
        all_concrete_members(m) == forall|i: int| 0 <= i < m.len() ==> concrete(#[trigger] m[i].1),
    decreases m.len(),
{
    if m.len() > 0 {
        lemma_all_concrete_members(m.drop_first());
        if forall|i: int| 0 <= i < m.len() ==> concrete(#[trigger] m[i].1) {
            assert forall|i: int| 0 <= i < m.drop_first().len() implies concrete(
                #[trigger] m.drop_first()[i].1,
            ) by {
                assert(m.drop_first()[i] == m[i + 1]);
            }
        }
        if all_concrete_members(m) {
            assert forall|i: int| 0 <= i < m.len() implies concrete(#[trigger] m[i].1) by {
                if i > 0 {
                    assert(m[i] == m.drop_first()[i - 1]);
                }
            }
        }
    }
}

pub proof fn lemma_find_key_from(m: Seq<(Seq<char>, SVal)>, k: Seq<char>, i: int)
    requires
        0 <= i <= m.len(),
    ensures
        find_key_from(m, k, i) matches Some(j) ==> i <= j < m.len() && m[j].0 == k && forall|
            l: int,
        | i <= l < j ==> m[l].0 != k,
        find_key_from(m, k, i) is None ==> forall|l: int| i <= l < m.len() ==> m[l].0 != k,
    decreases m.len() - i,
{
    if i < m.len() {
        lemma_find_key_from(m, k, i + 1);
    }
}

pub proof fn lemma_find_key(m: Seq<(Seq<char>, SVal)>, k: Seq<char>)
    ensures
        find_key(m, k) matches Some(j) ==> 0 <= j < m.len() && m[j].0 == k && forall|l: int|
            0 <= l < j ==> m[l].0 != k,
        find_key(m, k) is None ==> forall|l: int| 0 <= l < m.len() ==> m[l].0 != k,
{
    lemma_find_key_from(m, k, 0);
}

/// Index of the first member whose key is `key`.
pub fn position_of(m: &Vec<(String, Value)>, key: &String) -> (r: Option<usize>)
    ensures
        r matches Some(i) ==> find_key(members_view(*m), key@) == Some(i as int) && i < m.len(),
        r is None ==> find_key(members_view(*m), key@) is None,
{
    proof {
        lemma_find_key(members_view(*m), key@);
    }
    let ghost mv = members_view(*m);
    let mut i: usize = 0;
    while i < m.len()
        invariant
            i <= m.len(),
            mv == members_view(*m),
            mv.len() == m.len(),
            find_key_from(mv, key@, i as int) == find_key(mv, key@),
        decreases m.len() - i,
    {
        assert(mv[i as int].0 == m@[i as int].0@);
        if m[i].0 == *key {
            return Some(i);
        }
        i += 1;
    }
    None
}

pub fn clone_strings(v: &Vec<String>) -> (r: Vec<String>)
    ensures
        strings_view(r) == strings_view(*v),
{
    let mut r: Vec<String> = Vec::new();
    let mut i: usize = 0;
    while i < v.len()
        invariant
            i <= v.len(),
            r.len() == i,
            forall|j: int| 0 <= j < i ==> #[trigger] r@[j]@ == v@[j]@,
        decreases v.len() - i,
    {
        r.push(v[i].clone());
        i += 1;
    }
    assert(strings_view(r) =~= strings_view(*v));
    r
}

/// A deep copy.
pub fn clone_value(v: &Value) -> (r: Value)
    ensures
        r@ == v@,
    decreases v,
{
    match v {
        Value::Null => Value::Null,
        Value::Bool(b) => Value::Bool(*b),
        Value::Int(i) => Value::Int(*i),
        Value::BigInt(s) => Value::BigInt(s.clone()),
        Value::Float(s) => Value::Float(s.clone()),
        Value::Str(s) => Value::Str(s.clone()),
        Value::Arr(items) => Value::Arr(clone_vals(items)),
        Value::Obj(m) => Value::Obj(clone_members(m)),
        Value::Subst { path, optional } => Value::Subst {
            path: clone_strings(path),
            optional: *optional,
        },
        Value::Concat(segs) => Value::Concat(clone_segs(segs)),
    }
}

pub fn clone_vals(items: &Vec<Value>) -> (r: Vec<Value>)
    ensures
        vals_view(r) == vals_view(*items),
    decreases items,
{
    broadcast use vstd::std_specs::vec::axiom_vec_index_decreases;

    let mut r: Vec<Value> = Vec::new();
    let mut i: usize = 0;
    while i < items.len()
        invariant
            i <= items.len(),
            r.len() == i,
            forall|j: int| 0 <= j < i ==> #[trigger] r@[j]@ == items@[j]@,
        decreases items.len() - i,
    {
        r.push(clone_value(&items[i]));
        i += 1;
    }
    assert forall|j: int| 0 <= j < r.len() implies #[trigger] vals_view(r)[j] == vals_view(*items)[j] by {
        assert(r@[j]@ == items@[j]@);
    }
    assert(vals_view(r) =~= vals_view(*items));
    r
}

pub fn clone_members(m: &Vec<(String, Value)>) -> (r: Vec<(String, Value)>)
    ensures
        members_view(r) == members_view(*m),
    decreases m,
{
    broadcast use vstd::std_specs::vec::axiom_vec_index_decreases;

    let mut r: Vec<(String, Value)> = Vec::new();
    let mut i: usize = 0;
    while i < m.len()
        invariant
            i <= m.len(),
            r.len() == i,
            forall|j: int| 0 <= j < i ==> #[trigger] r@[j].0@ == m@[j].0@ && r@[j].1@ == m@[j].1@,
        decreases m.len() - i,
    {
        assert(decreases_to!(m => m@[i as int].1));
        r.push((m[i].0.clone(), clone_value(&m[i].1)));
        i += 1;
    }
    assert(members_view(r) =~= members_view(*m));
    r
}

pub fn clone_seg(seg: &CSeg) -> (r: CSeg)
    ensures
        r@ == seg@,
    decreases seg,
{
    match seg {
        CSeg::Val(v) => CSeg::Val(clone_value(v)),
        CSeg::Text(t) => CSeg::Text(t.clone()),
        CSeg::Sub { path, optional } => CSeg::Sub { path: clone_strings(path), optional: *optional },
    }
}

pub fn clone_segs(segs: &Vec<CSeg>) -> (r: Vec<CSeg>)
    ensures
        segs_view(r) == segs_view(*segs),
    decreases segs,
{
    broadcast use vstd::std_specs::vec::axiom_vec_index_decreases;

    let mut r: Vec<CSeg> = Vec::new();
    let mut i: usize = 0;
    while i < segs.len()
        invariant
            i <= segs.len(),
            r.len() == i,
            forall|j: int| 0 <= j < i ==> #[trigger] r@[j]@ == segs@[j]@,
        decreases segs.len() - i,
    {
        r.push(clone_seg(&segs[i]));
        i += 1;
    }
    assert forall|j: int| 0 <= j < r.len() implies #[trigger] segs_view(r)[j] == segs_view(*segs)[j] by {
        assert(r@[j]@ == segs@[j]@);
    }
    assert(segs_view(r) =~= segs_view(*segs));
    r
}

} // verus!
