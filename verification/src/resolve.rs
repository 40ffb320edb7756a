//! Resolution: substitutions replaced by what they designate (in the document, else in the
//! environment), concatenations turned into merged objects, joined arrays or strings.

use vstd::prelude::*;
use vstd::string::StringExecFns;
use crate::inclusion::opt_view;
use crate::merge::{get_path_exec, merge_all_spec, merge_into, merge_spec, merge_fuel, merged, subst_self_spec};
use crate::parser::merge_each;
use crate::text::{chars_of_string, is_blank_text, string_of, trim, trimmed};
use crate::value::{
    all_concrete, all_concrete_members, clone_strings, clone_value, concrete, find_key,
    get_path, lemma_all_concrete, lemma_all_concrete_members, lemma_find_key, lookup, members_view, segs_view, strings_view, vals_view, CSeg,
    SSeg, SVal, Value,
};

verus! {

/// The failures of resolution, each with its message (the caller hands every one of them to
/// pyhocon, which resolves the document or reports the error itself).
pub enum RErr {
    /// A substitution that cannot be resolved: undefined, or circular.
    Subst(Seq<char>),
    /// An object or an array inside a string concatenation.
    WrongType(Seq<char>),
    /// A rendering that is not guaranteed to match pyhocon's (an extreme float in a string
    /// concatenation).
    Fallback(Seq<char>),
}

/// The message of a failed substitution: `what ${key}`.
pub open spec fn subst_message(what: Seq<char>, key: Seq<char>) -> Seq<char> {
    what + seq![' ', '$', '{'] + key + seq!['}']
}

/// A failure of resolution, with a message for people.
#[derive(Debug)]
pub enum ResolveError {
    Subst(String),
    WrongType(String),
    Fallback(String),
}

impl View for ResolveError {
    type V = RErr;

    open spec fn view(&self) -> RErr {
        match self {
            ResolveError::Subst(m) => RErr::Subst(m@),
            ResolveError::WrongType(m) => RErr::WrongType(m@),
            ResolveError::Fallback(m) => RErr::Fallback(m@),
        }
    }
}

/// Environment variables: name and value.
pub type SEnv = Seq<(Seq<char>, Seq<char>)>;

/// How float literals render inside a string concatenation: the literal's text, and its
/// rendering, or `None` where no rendering is guaranteed.
pub type SFloats = Seq<(Seq<char>, Option<Seq<char>>)>;

/// `path.join(".")`.
pub open spec fn join(p: Seq<Seq<char>>) -> Seq<char>
    decreases p.len(),
{
    if p.len() == 0 {
        Seq::empty()
    } else if p.len() == 1 {
        p[0]
    } else {
        join(p.drop_last()) + seq!['.'] + p.last()
    }
}

/// The size of a value, in nodes.
pub open spec fn sz(v: SVal) -> nat
    decreases v,
{
    match v {
        SVal::Arr(items) => 1 + sz_vals(items),
        SVal::Obj(m) => 1 + sz_members(m),
        SVal::Concat(segs) => 1 + sz_segs(segs),
        _ => 1,
    }
}

pub open spec fn sz_vals(s: Seq<SVal>) -> nat
    decreases s,
{
    if s.len() == 0 {
        0
    } else {
        sz_vals(s.drop_last()) + sz(s.last())
    }
}

pub open spec fn sz_members(m: Seq<(Seq<char>, SVal)>) -> nat
    decreases m,
{
    if m.len() == 0 {
        0
    } else {
        sz_members(m.drop_last()) + sz(m.last().1)
    }
}

pub open spec fn sz_seg(s: SSeg) -> nat
    decreases s,
{
    match s {
        SSeg::Val(v) => sz(v),
        _ => 1,
    }
}

pub open spec fn sz_segs(s: Seq<SSeg>) -> nat
    decreases s,
{
    if s.len() == 0 {
        0
    } else {
        sz_segs(s.drop_last()) + sz_seg(s.last())
    }
}

pub proof fn lemma_sz_pos(v: SVal)
    ensures
        sz(v) >= 1,
{
}

pub proof fn lemma_sz_seg_pos(s: SSeg)
    ensures
        sz_seg(s) >= 1,
{
    if let SSeg::Val(v) = s {
        lemma_sz_pos(v);
    }
}

/// The paths that lead from `v` to one of its nodes (the empty path included).
pub open spec fn paths(v: SVal) -> Set<Seq<Seq<char>>>
    decreases v,
{
    match v {
        SVal::Obj(m) => member_paths(m).insert(Seq::empty()),
        _ => Set::empty().insert(Seq::empty()),
    }
}

pub open spec fn member_paths(m: Seq<(Seq<char>, SVal)>) -> Set<Seq<Seq<char>>>
    decreases m,
{
    if m.len() == 0 {
        Set::empty()
    } else {
        let k = m.last().0;
        member_paths(m.drop_last()).union(
            paths(m.last().1).map(|p: Seq<Seq<char>>| seq![k] + p),
        )
    }
}

pub proof fn lemma_paths_finite(v: SVal)
    ensures
        paths(v).finite(),
    decreases v,
{
    if let SVal::Obj(m) = v {
        lemma_member_paths_finite(m);
    }
}

pub proof fn lemma_member_paths_finite(m: Seq<(Seq<char>, SVal)>)
    ensures
        member_paths(m).finite(),
    decreases m,
{
    if m.len() > 0 {
        lemma_member_paths_finite(m.drop_last());
        let k = m.last().0;
        lemma_paths_finite(m.last().1);
        paths(m.last().1).lemma_map_finite(|p: Seq<Seq<char>>| seq![k] + p);
    }
}

proof fn lemma_member_paths_contains(m: Seq<(Seq<char>, SVal)>, i: int, p: Seq<Seq<char>>)
    requires
        0 <= i < m.len(),
        paths(m[i].1).contains(p),
    ensures
        member_paths(m).contains(seq![m[i].0] + p),
    decreases m.len(),
{
    let k = m.last().0;
    let f = |q: Seq<Seq<char>>| seq![k] + q;
    if i == m.len() - 1 {
        assert(paths(m.last().1).map(f).contains(f(p)));
    } else {
        lemma_member_paths_contains(m.drop_last(), i, p);
        assert(m.drop_last()[i] == m[i]);
    }
}

/// Every node that a path reaches is among the value's paths.
pub proof fn lemma_get_path_in_paths(v: SVal, p: Seq<Seq<char>>)
    ensures
        get_path(v, p) is Some ==> paths(v).contains(p),
    decreases p.len(),
{
    if p.len() == 0 {
        assert(p =~= Seq::<Seq<char>>::empty());
        match v {
            SVal::Obj(m) => {
                assert(paths(v) == member_paths(m).insert(Seq::empty()));
            },
            _ => {},
        }
    } else if let SVal::Obj(m) = v {
        if let Some(child) = lookup(m, p[0]) {
            lemma_find_key(m, p[0]);
            let i = find_key(m, p[0])->0;
            assert(child == m[i].1);
            lemma_get_path_in_paths(child, p.drop_first());
            if get_path(v, p) is Some {
                assert(get_path(child, p.drop_first()) is Some);
                lemma_member_paths_contains(m, i, p.drop_first());
                assert(seq![m[i].0] + p.drop_first() =~= p);
                assert(member_paths(m).contains(p));
                assert(paths(v) == member_paths(m).insert(Seq::empty()));
            }
        }
    }
}

/// The keys (joined paths) of `root` that are not on the stack of substitutions being
/// resolved.
pub open spec fn budget(root: SVal, stack: Seq<Seq<char>>) -> nat {
    paths(root).map(|p: Seq<Seq<char>>| join(p)).filter(|k: Seq<char>| !stack.contains(k)).len()
}

pub proof fn lemma_budget_push(root: SVal, stack: Seq<Seq<char>>, p: Seq<Seq<char>>)
    requires
        get_path(root, p) is Some,
        !stack.contains(join(p)),
    ensures
        budget(root, stack.push(join(p))) < budget(root, stack),
{
    let f = |q: Seq<Seq<char>>| join(q);
    let key = join(p);
    lemma_get_path_in_paths(root, p);
    lemma_paths_finite(root);
    paths(root).lemma_map_finite(f);
    let ks = paths(root).map(f);
    assert(ks.contains(f(p)));
    let a = ks.filter(|k: Seq<char>| !stack.contains(k));
    let b = ks.filter(|k: Seq<char>| !stack.push(key).contains(k));
    assert forall|k: Seq<char>| b.contains(k) <==> #[trigger] a.remove(key).contains(k) by {
        if stack.push(key).contains(k) {
            let j = choose|j: int| 0 <= j < stack.push(key).len() && stack.push(key)[j] == k;
            if j < stack.len() {
                assert(stack[j] == k);
            }
        }
        if stack.contains(k) {
            let j = choose|j: int| 0 <= j < stack.len() && stack[j] == k;
            assert(stack.push(key)[j] == k);
        }
        if k == key {
            assert(stack.push(key)[stack.len() as int] == key);
        }
    }
    assert(b =~= a.remove(key));
    assert(a.contains(key));
    vstd::set_lib::lemma_set_subset_finite(ks, a);
}

/// The value of the first environment variable named `key`.
pub open spec fn env_lookup(env: SEnv, key: Seq<char>) -> Option<Seq<char>>
    decreases env.len(),
{
    if env.len() == 0 {
        None
    } else if env[0].0 == key {
        Some(env[0].1)
    } else {
        env_lookup(env.drop_first(), key)
    }
}

/// The rendering that the table gives the float literal `t` (`None`: no entry, or no
/// guaranteed rendering).
pub open spec fn float_lookup(fl: SFloats, t: Seq<char>) -> Option<Seq<char>>
    decreases fl.len(),
{
    if fl.len() == 0 {
        None
    } else if fl[0].0 == t {
        fl[0].1
    } else {
        float_lookup(fl.drop_first(), t)
    }
}

/// The decimal digit for `d < 10`.
pub open spec fn digit_char(d: nat) -> char {
    if d == 0 {
        '0'
    } else if d == 1 {
        '1'
    } else if d == 2 {
        '2'
    } else if d == 3 {
        '3'
    } else if d == 4 {
        '4'
    } else if d == 5 {
        '5'
    } else if d == 6 {
        '6'
    } else if d == 7 {
        '7'
    } else if d == 8 {
        '8'
    } else {
        '9'
    }
}

/// The digits of a natural number.
pub open spec fn nat_text(n: nat) -> Seq<char>
    decreases n,
{
    if n < 10 {
        seq![digit_char(n)]
    } else {
        nat_text(n / 10).push(digit_char(n % 10))
    }
}

/// `i64::to_string`.
pub open spec fn int_text(i: int) -> Seq<char> {
    if i < 0 {
        seq!['-'] + nat_text((-i) as nat)
    } else {
        nat_text(i as nat)
    }
}

/// How a resolved scalar reads inside a string concatenation.
pub open spec fn render_spec(v: SVal, fl: SFloats) -> Result<Seq<char>, RErr> {
    match v {
        SVal::Null => Ok(Seq::empty()),
        SVal::Bool(b) => Ok(if b {
            seq!['T', 'r', 'u', 'e']
        } else {
            seq!['F', 'a', 'l', 's', 'e']
        }),
        SVal::Int(i) => Ok(int_text(i)),
        SVal::BigInt(s) => Ok(s),
        SVal::Float(t) => match float_lookup(fl, t) {
            Some(r) => Ok(r),
            None => Err(RErr::Fallback("float outside the iso-renderable range in string concatenation"@)),
        },
        SVal::Str(s) => Ok(s),
        SVal::Obj(_) | SVal::Arr(_) => Err(RErr::WrongType("object/array not allowed in a string concatenation"@)),
        _ => Err(RErr::WrongType("unresolved"@)),
    }
}

/// A unit of a concatenation once resolved: raw text, or a value (`None`: an optional
/// substitution that resolved to nothing).
pub enum SUnit {
    Text(Seq<char>),
    Val(Option<SVal>),
}

/// The resolution of a node: `None` when it resolves to nothing (an absent optional
/// substitution, alone or in a concatenation of such).
pub open spec fn resolve_spec(node: SVal, root: SVal, stack: Seq<Seq<char>>, env: SEnv, fl: SFloats) -> Result<Option<SVal>, RErr>
    decreases budget(root, stack), sz(node), 2int,
{
    match node {
        SVal::Arr(items) => match resolve_items_spec(items, root, stack, env, fl) {
            Ok(out) => Ok(Some(SVal::Arr(out))),
            Err(e) => Err(e),
        },
        SVal::Obj(m) => match resolve_members_spec(m, root, stack, env, fl) {
            Ok(out) => Ok(Some(SVal::Obj(out))),
            Err(e) => Err(e),
        },
        SVal::Subst(path, optional) => resolve_subst_spec(path, optional, root, stack, env, fl),
        SVal::Concat(segs) => match resolve_units_spec(segs, root, stack, env, fl) {
            Ok(units) => combine_spec(units, fl),
            Err(e) => Err(e),
        },
        _ => Ok(Some(node)),
    }
}

/// The items of an array, resolved in order; items that resolve to nothing are dropped.
pub open spec fn resolve_items_spec(items: Seq<SVal>, root: SVal, stack: Seq<Seq<char>>, env: SEnv, fl: SFloats) -> Result<Seq<SVal>, RErr>
    decreases budget(root, stack), sz_vals(items), 3int,
{
    if items.len() == 0 {
        Ok(Seq::empty())
    } else {
        proof {
            lemma_sz_pos(items.last());
        }
        match resolve_items_spec(items.drop_last(), root, stack, env, fl) {
            Err(e) => Err(e),
            Ok(out) => match resolve_spec(items.last(), root, stack, env, fl) {
                Err(e) => Err(e),
                Ok(Some(v)) => Ok(out.push(v)),
                Ok(None) => Ok(out),
            },
        }
    }
}

/// The members of an object, resolved in order; a member that resolves to nothing is dropped,
/// and so is one whose whole value is a substitution that resolves to null.
pub open spec fn resolve_members_spec(m: Seq<(Seq<char>, SVal)>, root: SVal, stack: Seq<Seq<char>>, env: SEnv, fl: SFloats) -> Result<Seq<(Seq<char>, SVal)>, RErr>
    decreases budget(root, stack), sz_members(m), 3int,
{
    if m.len() == 0 {
        Ok(Seq::empty())
    } else {
        proof {
            lemma_sz_pos(m.last().1);
        }
        match resolve_members_spec(m.drop_last(), root, stack, env, fl) {
            Err(e) => Err(e),
            Ok(out) => {
                let (k, v) = m.last();
                match resolve_spec(v, root, stack, env, fl) {
                    Err(e) => Err(e),
                    Ok(Some(rv)) => if rv is Null && v is Subst {
                        Ok(out)
                    } else {
                        Ok(out.push((k, rv)))
                    },
                    Ok(None) => Ok(out),
                }
            },
        }
    }
}

/// `${path}`: the node it designates in the document (resolved in turn), else the
/// environment variable of that name; otherwise nothing if optional, an error if not. A
/// substitution met again while being resolved is circular.
pub open spec fn resolve_subst_spec(path: Seq<Seq<char>>, optional: bool, root: SVal, stack: Seq<Seq<char>>, env: SEnv, fl: SFloats) -> Result<Option<SVal>, RErr>
    decreases budget(root, stack), 0nat, 0int,
{
    let key = join(path);
    if stack.contains(key) {
        Err(RErr::Subst(subst_message("circular substitution"@, key)))
    } else {
        match get_path(root, path) {
            Some(raw) => {
                proof {
                    lemma_budget_push(root, stack, path);
                }
                resolve_spec(raw, root, stack.push(key), env, fl)
            },
            None => match env_lookup(env, key) {
                Some(v) => Ok(Some(SVal::Str(v))),
                None => if optional {
                    Ok(None)
                } else {
                    Err(RErr::Subst(subst_message("Cannot resolve variable"@, key)))
                },
            },
        }
    }
}

/// The units of a concatenation, resolved in order.
pub open spec fn resolve_units_spec(segs: Seq<SSeg>, root: SVal, stack: Seq<Seq<char>>, env: SEnv, fl: SFloats) -> Result<Seq<SUnit>, RErr>
    decreases budget(root, stack), sz_segs(segs), 3int,
{
    if segs.len() == 0 {
        Ok(Seq::empty())
    } else {
        proof {
            lemma_sz_seg_pos(segs.last());
        }
        match resolve_units_spec(segs.drop_last(), root, stack, env, fl) {
            Err(e) => Err(e),
            Ok(out) => match segs.last() {
                SSeg::Text(t) => Ok(out.push(SUnit::Text(t))),
                SSeg::Val(v) => match {
                    proof {
                        assert(sz_seg(segs.last()) == sz(v));
                    }
                    resolve_spec(v, root, stack, env, fl)
                } {
                    Ok(r) => Ok(out.push(SUnit::Val(r))),
                    Err(e) => Err(e),
                },
                SSeg::Sub(path, optional) => {
                    proof {
                        assert(sz_seg(segs.last()) == 1);
                    }
                    match resolve_subst_spec(path, optional, root, stack, env, fl) {
                        Ok(r) => Ok(out.push(SUnit::Val(r))),
                        Err(e) => Err(e),
                    }
                },
            },
        }
    }
}

/// Text that is not blank.
pub open spec fn meaningful_text(u: SUnit) -> bool {
    u matches SUnit::Text(t) && trim(t).len() > 0
}

/// The values present among the units, in order.
pub open spec fn present(units: Seq<SUnit>) -> Seq<SVal>
    decreases units.len(),
{
    if units.len() == 0 {
        Seq::empty()
    } else {
        let rest = present(units.drop_last());
        match units.last() {
            SUnit::Val(Some(v)) => rest.push(v),
            _ => rest,
        }
    }
}

/// The members of all the objects of the list, in order.
pub open spec fn all_members(vs: Seq<SVal>) -> Seq<(Seq<char>, SVal)>
    decreases vs.len(),
{
    if vs.len() == 0 {
        Seq::empty()
    } else {
        all_members(vs.drop_last()) + match vs.last() {
            SVal::Obj(m) => m,
            _ => Seq::empty(),
        }
    }
}

/// The items of all the arrays of the list, in order.
pub open spec fn all_items(vs: Seq<SVal>) -> Seq<SVal>
    decreases vs.len(),
{
    if vs.len() == 0 {
        Seq::empty()
    } else {
        all_items(vs.drop_last()) + match vs.last() {
            SVal::Arr(a) => a,
            _ => Seq::empty(),
        }
    }
}

/// The text of a string concatenation: units in order, texts as written, values rendered.
pub open spec fn render_units(units: Seq<SUnit>, fl: SFloats) -> Result<Seq<char>, RErr>
    decreases units.len(),
{
    if units.len() == 0 {
        Ok(Seq::empty())
    } else {
        match render_units(units.drop_last(), fl) {
            Err(e) => Err(e),
            Ok(s) => match units.last() {
                SUnit::Text(t) => Ok(s + t),
                SUnit::Val(Some(v)) => match render_spec(v, fl) {
                    Ok(r) => Ok(s + r),
                    Err(e) => Err(e),
                },
                SUnit::Val(None) => Ok(s),
            },
        }
    }
}

/// What the resolved units of a concatenation make: with no meaningful text, objects merge
/// deeply and arrays join; nothing present (and no text) is nothing; otherwise the units make a
/// trimmed string.
pub open spec fn combine_spec(units: Seq<SUnit>, fl: SFloats) -> Result<Option<SVal>, RErr> {
    let has_text = exists|k: int| 0 <= k < units.len() && meaningful_text(#[trigger] units[k]);
    let pv = present(units);
    if !has_text && pv.len() > 0 && (forall|k: int| 0 <= k < pv.len() ==> #[trigger] pv[k] is Obj) {
        Ok(Some(SVal::Obj(merge_each(Seq::empty(), all_members(pv)))))
    } else if !has_text && pv.len() > 0 && (forall|k: int| 0 <= k < pv.len() ==> #[trigger] pv[k] is Arr) {
        Ok(Some(SVal::Arr(all_items(pv))))
    } else if pv.len() == 0 && !has_text {
        Ok(None)
    } else {
        match render_units(units, fl) {
            Ok(s) => Ok(Some(SVal::Str(trim(s)))),
            Err(e) => Err(e),
        }
    }
}

// ---------- executable resolution ----------

pub open spec fn env_view(env: Vec<(String, String)>) -> SEnv {
    Seq::new(env.len() as nat, |i: int| (env@[i].0@, env@[i].1@))
}

pub open spec fn floats_view(fl: Vec<(String, Option<String>)>) -> SFloats {
    Seq::new(fl.len() as nat, |i: int| (fl@[i].0@, opt_view(fl@[i].1)))
}

pub open spec fn opt_value_view(o: Option<Value>) -> Option<SVal> {
    match o {
        Some(v) => Some(v@),
        None => None,
    }
}

/// `r` is what `s` describes.
pub open spec fn res_resolved(r: Result<Option<Value>, ResolveError>, s: Result<Option<SVal>, RErr>) -> bool {
    match r {
        Ok(o) => s == Ok::<Option<SVal>, RErr>(opt_value_view(o)),
        Err(e) => s == Err::<Option<SVal>, RErr>(e@),
    }
}

/// A resolved unit of a concatenation.
pub enum Unit {
    Text(String),
    Val(Option<Value>),
}

impl View for Unit {
    type V = SUnit;

    open spec fn view(&self) -> SUnit {
        match self {
            Unit::Text(t) => SUnit::Text(t@),
            Unit::Val(o) => SUnit::Val(opt_value_view(*o)),
        }
    }
}

pub open spec fn units_view(u: Vec<Unit>) -> Seq<SUnit> {
    Seq::new(u.len() as nat, |i: int| u@[i]@)
}

pub proof fn lemma_sz_vals_elem(s: Seq<SVal>, k: int)
    requires
        0 <= k < s.len(),
    ensures
        sz(s[k]) <= sz_vals(s),
    decreases s.len(),
{
    if k < s.len() - 1 {
        lemma_sz_vals_elem(s.drop_last(), k);
    }
}

pub proof fn lemma_sz_members_elem(m: Seq<(Seq<char>, SVal)>, k: int)
    requires
        0 <= k < m.len(),
    ensures
        sz(m[k].1) <= sz_members(m),
    decreases m.len(),
{
    if k < m.len() - 1 {
        lemma_sz_members_elem(m.drop_last(), k);
    }
}

pub proof fn lemma_sz_segs_elem(s: Seq<SSeg>, k: int)
    requires
        0 <= k < s.len(),
    ensures
        sz_seg(s[k]) <= sz_segs(s),
    decreases s.len(),
{
    if k < s.len() - 1 {
        lemma_sz_segs_elem(s.drop_last(), k);
    }
}

/// `path.join(".")`.
pub fn join_path(path: &Vec<String>) -> (r: String)
    ensures
        r@ == join(strings_view(*path)),
{
    let ghost pv = strings_view(*path);
    let mut r = String::new();
    let mut k: usize = 0;
    while k < path.len()
        invariant
            k <= path.len(),
            pv == strings_view(*path),
            r@ == join(pv.take(k as int)),
        decreases path.len() - k,
    {
        let ghost before = r@;
        assert(pv.take(k + 1).drop_last() =~= pv.take(k as int));
        assert(pv.take(k + 1).last() == path@[k as int]@);
        if k > 0 {
            r.push('.');
        }
        let pc = chars_of_string(&path[k]);
        let mut l: usize = 0;
        let ghost mid = r@;
        while l < pc.len()
            invariant
                l <= pc.len(),
                r@ == mid + pc@.take(l as int),
            decreases pc.len() - l,
        {
            r.push(pc[l]);
            l += 1;
            assert(pc@.take(l as int) =~= pc@.take(l - 1).push(pc@[l - 1]));
        }
        assert(pc@.take(pc.len() as int) =~= pc@);
        if k == 0 {
            assert(pv.take(1) =~= seq![pv[0]]);
            assert(r@ =~= join(pv.take(1)));
        } else {
            assert(r@ =~= before + seq!['.'] + pv[k as int]);
        }
        k += 1;
    }
    assert(pv.take(path.len() as int) =~= pv);
    r
}

fn stack_contains(stack: &Vec<String>, key: &String) -> (b: bool)
    ensures
        b == strings_view(*stack).contains(key@),
{
    let ghost sv = strings_view(*stack);
    let mut k: usize = 0;
    while k < stack.len()
        invariant
            k <= stack.len(),
            sv == strings_view(*stack),
            forall|j: int| 0 <= j < k ==> sv[j] != key@,
        decreases stack.len() - k,
    {
        if stack[k] == *key {
            assert(sv[k as int] == key@);
            return true;
        }
        k += 1;
    }
    false
}

fn env_get(env: &Vec<(String, String)>, key: &String) -> (r: Option<String>)
    ensures
        opt_view(r) == env_lookup(env_view(*env), key@),
{
    let ghost ev = env_view(*env);
    assert(ev.skip(0) =~= ev);
    let mut k: usize = 0;
    while k < env.len()
        invariant
            k <= env.len(),
            ev == env_view(*env),
            env_lookup(ev, key@) == env_lookup(ev.skip(k as int), key@),
        decreases env.len() - k,
    {
        assert(ev.skip(k as int).drop_first() =~= ev.skip(k + 1));
        assert(ev.skip(k as int)[0] == (env@[k as int].0@, env@[k as int].1@));
        if env[k].0 == *key {
            return Some(env[k].1.clone());
        }
        k += 1;
    }
    None
}

fn float_get(fl: &Vec<(String, Option<String>)>, t: &String) -> (r: Option<String>)
    ensures
        opt_view(r) == float_lookup(floats_view(*fl), t@),
{
    let ghost fv = floats_view(*fl);
    assert(fv.skip(0) =~= fv);
    let mut k: usize = 0;
    while k < fl.len()
        invariant
            k <= fl.len(),
            fv == floats_view(*fl),
            float_lookup(fv, t@) == float_lookup(fv.skip(k as int), t@),
        decreases fl.len() - k,
    {
        assert(fv.skip(k as int).drop_first() =~= fv.skip(k + 1));
        assert(fv.skip(k as int)[0] == (fl@[k as int].0@, opt_view(fl@[k as int].1)));
        if fl[k].0 == *t {
            return match &fl[k].1 {
                Some(r) => Some(r.clone()),
                None => None,
            };
        }
        k += 1;
    }
    None
}

fn digit_of(d: u64) -> (c: char)
    requires
        d < 10,
    ensures
        c == digit_char(d as nat),
{
    if d == 0 {
        '0'
    } else if d == 1 {
        '1'
    } else if d == 2 {
        '2'
    } else if d == 3 {
        '3'
    } else if d == 4 {
        '4'
    } else if d == 5 {
        '5'
    } else if d == 6 {
        '6'
    } else if d == 7 {
        '7'
    } else if d == 8 {
        '8'
    } else {
        '9'
    }
}

fn digits(n: u64) -> (r: Vec<char>)
    ensures
        r@ == nat_text(n as nat),
    decreases n,
{
    if n < 10 {
        vec![digit_of(n)]
    } else {
        let mut r = digits(n / 10);
        r.push(digit_of(n % 10));
        r
    }
}

/// `i64::to_string`.
pub fn int_to_string(i: i64) -> (r: String)
    ensures
        r@ == int_text(i as int),
{
    if i < 0 {
        let m: u64 = (0i128 - (i as i128)) as u64;
        let d = digits(m);
        let mut r = String::new();
        r.push('-');
        let mut k: usize = 0;
        while k < d.len()
            invariant
                k <= d.len(),
                r@ == seq!['-'] + d@.take(k as int),
            decreases d.len() - k,
        {
            r.push(d[k]);
            k += 1;
            assert(d@.take(k as int) =~= d@.take(k - 1).push(d@[k - 1]));
        }
        assert(d@.take(d.len() as int) =~= d@);
        r
    } else {
        let d = digits(i as u64);
        string_of(&d)
    }
}

// ---------- resolution yields fully resolved values ----------

pub proof fn lemma_merge_concrete(m: Seq<(Seq<char>, SVal)>, key: Seq<char>, value: SVal, fuel: nat)
    requires
        all_concrete_members(m),
        concrete(value),
    ensures
        all_concrete_members(merge_spec(m, key, value, fuel)),
    decreases fuel, 0nat,
{
    lemma_all_concrete_members(m);
    lemma_find_key(m, key);
    let r = merge_spec(m, key, value, fuel);
    assert(subst_self_spec(value, key, SVal::Null) == value);
    match find_key(m, key) {
        None => {
            assert(r == m.push((key, value)));
            lemma_all_concrete_members(r);
            assert forall|i: int| 0 <= i < r.len() implies concrete(#[trigger] r[i].1) by {
                if i < m.len() {
                    assert(r[i] == m[i]);
                }
            }
        },
        Some(idx) => {
            let prior = m[idx].1;
            assert(subst_self_spec(value, key, prior) == value);
            let nv: SVal = match prior {
                SVal::Obj(ex) => match value {
                    SVal::Obj(inc) => if fuel > 0 {
                        assert(concrete(prior));
                        lemma_all_concrete_members(ex);
                        lemma_merge_all_concrete(ex, inc, (fuel - 1) as nat);
                        SVal::Obj(merge_all_spec(ex, inc, (fuel - 1) as nat))
                    } else {
                        value
                    },
                    _ => value,
                },
                _ => value,
            };
            assert(concrete(nv));
            assert(r == m.update(idx, (m[idx].0, nv)));
            lemma_all_concrete_members(r);
            assert forall|i: int| 0 <= i < r.len() implies concrete(#[trigger] r[i].1) by {
                if i != idx {
                    assert(r[i] == m[i]);
                }
            }
        },
    }
}

pub proof fn lemma_merge_all_concrete(ex: Seq<(Seq<char>, SVal)>, inc: Seq<(Seq<char>, SVal)>, fuel: nat)
    requires
        all_concrete_members(ex),
        all_concrete_members(inc),
    ensures
        all_concrete_members(merge_all_spec(ex, inc, fuel)),
    decreases fuel, inc.len(),
{
    if inc.len() > 0 {
        lemma_all_concrete_members(inc);
        let pre = inc.drop_last();
        lemma_all_concrete_members(pre);
        assert forall|i: int| 0 <= i < pre.len() implies concrete(#[trigger] pre[i].1) by {
            assert(pre[i] == inc[i]);
        }
        lemma_merge_all_concrete(ex, pre, fuel);
        assert(concrete(inc[inc.len() - 1].1));
        lemma_merge_concrete(merge_all_spec(ex, pre, fuel), inc.last().0, inc.last().1, fuel);
    }
}

pub proof fn lemma_merge_each_concrete(m: Seq<(Seq<char>, SVal)>, inc: Seq<(Seq<char>, SVal)>)
    requires
        all_concrete_members(m),
        all_concrete_members(inc),
    ensures
        all_concrete_members(merge_each(m, inc)),
    decreases inc.len(),
{
    if inc.len() > 0 {
        lemma_all_concrete_members(inc);
        let pre = inc.drop_last();
        lemma_all_concrete_members(pre);
        assert forall|i: int| 0 <= i < pre.len() implies concrete(#[trigger] pre[i].1) by {
            assert(pre[i] == inc[i]);
        }
        lemma_merge_each_concrete(m, pre);
        assert(concrete(inc[inc.len() - 1].1));
        let prev = merge_each(m, pre);
        lemma_merge_concrete(prev, inc.last().0, inc.last().1, merge_fuel(prev, inc.last().1));
    }
}

proof fn lemma_all_members_concrete(vs: Seq<SVal>)
    requires
        forall|k: int| 0 <= k < vs.len() ==> concrete(#[trigger] vs[k]),
    ensures
        all_concrete_members(all_members(vs)),
    decreases vs.len(),
{
    if vs.len() > 0 {
        let pre = vs.drop_last();
        assert forall|k: int| 0 <= k < pre.len() implies concrete(#[trigger] pre[k]) by {
            assert(pre[k] == vs[k]);
        }
        lemma_all_members_concrete(pre);
        let a = all_members(pre);
        let b: Seq<(Seq<char>, SVal)> = match vs.last() {
            SVal::Obj(m) => m,
            _ => Seq::empty(),
        };
        assert(concrete(vs[vs.len() - 1]));
        lemma_all_concrete_members(a);
        lemma_all_concrete_members(b);
        let r = a + b;
        assert(all_members(vs) == r);
        lemma_all_concrete_members(r);
        assert forall|i: int| 0 <= i < r.len() implies concrete(#[trigger] r[i].1) by {
            if i < a.len() {
                assert(r[i] == a[i]);
            } else {
                assert(r[i] == b[i - a.len()]);
            }
        }
    }
}

proof fn lemma_all_items_concrete(vs: Seq<SVal>)
    requires
        forall|k: int| 0 <= k < vs.len() ==> concrete(#[trigger] vs[k]),
    ensures
        all_concrete(all_items(vs)),
    decreases vs.len(),
{
    if vs.len() > 0 {
        let pre = vs.drop_last();
        assert forall|k: int| 0 <= k < pre.len() implies concrete(#[trigger] pre[k]) by {
            assert(pre[k] == vs[k]);
        }
        lemma_all_items_concrete(pre);
        let a = all_items(pre);
        let b: Seq<SVal> = match vs.last() {
            SVal::Arr(x) => x,
            _ => Seq::empty(),
        };
        assert(concrete(vs[vs.len() - 1]));
        lemma_all_concrete(a);
        lemma_all_concrete(b);
        let r = a + b;
        assert(all_items(vs) == r);
        lemma_all_concrete(r);
        assert forall|i: int| 0 <= i < r.len() implies concrete(#[trigger] r[i]) by {
            if i < a.len() {
                assert(r[i] == a[i]);
            } else {
                assert(r[i] == b[i - a.len()]);
            }
        }
    }
}

/// The values present among units whose values are all resolved.
proof fn lemma_present_concrete(units: Seq<SUnit>)
    requires
        forall|k: int| 0 <= k < units.len() ==> (#[trigger] units[k] matches SUnit::Val(Some(v)) ==> concrete(v)),
    ensures
        forall|k: int| 0 <= k < present(units).len() ==> concrete(#[trigger] present(units)[k]),
    decreases units.len(),
{
    if units.len() > 0 {
        let pre = units.drop_last();
        assert forall|k: int| 0 <= k < pre.len() implies (#[trigger] pre[k] matches SUnit::Val(Some(v)) ==> concrete(v)) by {
            assert(pre[k] == units[k]);
        }
        lemma_present_concrete(pre);
        let rest = present(pre);
        assert(units[units.len() - 1] == units.last());
        let pv = present(units);
        assert forall|k: int| 0 <= k < pv.len() implies concrete(#[trigger] pv[k]) by {
            if k < rest.len() {
                assert(pv[k] == rest[k]);
            }
        }
    }
}

pub proof fn lemma_combine_concrete(units: Seq<SUnit>, fl: SFloats)
    requires
        forall|k: int| 0 <= k < units.len() ==> (#[trigger] units[k] matches SUnit::Val(Some(v)) ==> concrete(v)),
    ensures
        combine_spec(units, fl) matches Ok(Some(v)) ==> concrete(v),
{
    lemma_present_concrete(units);
    let pv = present(units);
    lemma_all_members_concrete(pv);
    lemma_all_items_concrete(pv);
    lemma_all_concrete_members(Seq::<(Seq<char>, SVal)>::empty());
    lemma_merge_each_concrete(Seq::empty(), all_members(pv));
}

/// Resolution yields fully resolved values: no substitution or concatenation remains.
pub proof fn lemma_resolve_concrete(node: SVal, root: SVal, stack: Seq<Seq<char>>, env: SEnv, fl: SFloats)
    ensures
        resolve_spec(node, root, stack, env, fl) matches Ok(Some(v)) ==> concrete(v),
    decreases budget(root, stack), sz(node), 2int,
{
    match node {
        SVal::Arr(items) => {
            lemma_resolve_items_concrete(items, root, stack, env, fl);
        },
        SVal::Obj(m) => {
            lemma_resolve_members_concrete(m, root, stack, env, fl);
        },
        SVal::Subst(path, optional) => {
            lemma_resolve_subst_concrete(path, optional, root, stack, env, fl);
        },
        SVal::Concat(segs) => {
            lemma_resolve_units_concrete(segs, root, stack, env, fl);
            if let Ok(units) = resolve_units_spec(segs, root, stack, env, fl) {
                lemma_combine_concrete(units, fl);
            }
        },
        _ => {},
    }
}

pub proof fn lemma_resolve_items_concrete(items: Seq<SVal>, root: SVal, stack: Seq<Seq<char>>, env: SEnv, fl: SFloats)
    ensures
        resolve_items_spec(items, root, stack, env, fl) matches Ok(out) ==> all_concrete(out),
    decreases budget(root, stack), sz_vals(items), 3int,
{
    if items.len() > 0 {
        lemma_sz_pos(items.last());
        lemma_resolve_items_concrete(items.drop_last(), root, stack, env, fl);
        lemma_resolve_concrete(items.last(), root, stack, env, fl);
        if let Ok(out) = resolve_items_spec(items.drop_last(), root, stack, env, fl) {
            lemma_all_concrete(out);
            if let Ok(Some(v)) = resolve_spec(items.last(), root, stack, env, fl) {
                let r = out.push(v);
                lemma_all_concrete(r);
                assert forall|i: int| 0 <= i < r.len() implies concrete(#[trigger] r[i]) by {
                    if i < out.len() {
                        assert(r[i] == out[i]);
                    }
                }
            }
        }
    }
}

pub proof fn lemma_resolve_members_concrete(m: Seq<(Seq<char>, SVal)>, root: SVal, stack: Seq<Seq<char>>, env: SEnv, fl: SFloats)
    ensures
        resolve_members_spec(m, root, stack, env, fl) matches Ok(out) ==> all_concrete_members(out),
    decreases budget(root, stack), sz_members(m), 3int,
{
    if m.len() > 0 {
        lemma_sz_pos(m.last().1);
        lemma_resolve_members_concrete(m.drop_last(), root, stack, env, fl);
        lemma_resolve_concrete(m.last().1, root, stack, env, fl);
        if let Ok(out) = resolve_members_spec(m.drop_last(), root, stack, env, fl) {
            lemma_all_concrete_members(out);
            if let Ok(Some(rv)) = resolve_spec(m.last().1, root, stack, env, fl) {
                let r = out.push((m.last().0, rv));
                lemma_all_concrete_members(r);
                assert forall|i: int| 0 <= i < r.len() implies concrete(#[trigger] r[i].1) by {
                    if i < out.len() {
                        assert(r[i] == out[i]);
                    }
                }
            }
        }
    }
}

pub proof fn lemma_resolve_subst_concrete(path: Seq<Seq<char>>, optional: bool, root: SVal, stack: Seq<Seq<char>>, env: SEnv, fl: SFloats)
    ensures
        resolve_subst_spec(path, optional, root, stack, env, fl) matches Ok(Some(v)) ==> concrete(v),
    decreases budget(root, stack), 0nat, 0int,
{
    let key = join(path);
    if !stack.contains(key) {
        if let Some(raw) = get_path(root, path) {
            lemma_budget_push(root, stack, path);
            lemma_resolve_concrete(raw, root, stack.push(key), env, fl);
        }
    }
}

pub proof fn lemma_resolve_units_concrete(segs: Seq<SSeg>, root: SVal, stack: Seq<Seq<char>>, env: SEnv, fl: SFloats)
    ensures
        resolve_units_spec(segs, root, stack, env, fl) matches Ok(units) ==> forall|k: int| 0 <= k < units.len() ==> (#[trigger] units[k] matches SUnit::Val(Some(v)) ==> concrete(v)),
    decreases budget(root, stack), sz_segs(segs), 3int,
{
    if segs.len() > 0 {
        lemma_sz_seg_pos(segs.last());
        let pre = segs.drop_last();
        lemma_resolve_units_concrete(pre, root, stack, env, fl);
        match segs.last() {
            SSeg::Val(v) => {
                assert(sz_seg(segs.last()) == sz(v));
                lemma_resolve_concrete(v, root, stack, env, fl);
            },
            SSeg::Sub(path, optional) => {
                lemma_resolve_subst_concrete(path, optional, root, stack, env, fl);
            },
            _ => {},
        }
        if let Ok(units) = resolve_units_spec(segs, root, stack, env, fl) {
            let out = resolve_units_spec(pre, root, stack, env, fl)->Ok_0;
            assert forall|k: int| 0 <= k < units.len() implies (#[trigger] units[k] matches SUnit::Val(Some(v)) ==> concrete(v)) by {
                if k < out.len() {
                    assert(units[k] == out[k]);
                }
            }
        }
    }
}

// ---------- errors met in a prefix end the whole ----------

proof fn lemma_items_err_prefix(items: Seq<SVal>, k: int, root: SVal, stack: Seq<Seq<char>>, env: SEnv, fl: SFloats)
    requires
        0 <= k <= items.len(),
        resolve_items_spec(items.take(k), root, stack, env, fl) is Err,
    ensures
        resolve_items_spec(items, root, stack, env, fl) == resolve_items_spec(items.take(k), root, stack, env, fl),
    decreases items.len() - k,
{
    if k == items.len() {
        assert(items.take(k) =~= items);
    } else {
        assert(items.drop_last().take(k) =~= items.take(k));
        lemma_items_err_prefix(items.drop_last(), k, root, stack, env, fl);
    }
}

proof fn lemma_members_err_prefix(m: Seq<(Seq<char>, SVal)>, k: int, root: SVal, stack: Seq<Seq<char>>, env: SEnv, fl: SFloats)
    requires
        0 <= k <= m.len(),
        resolve_members_spec(m.take(k), root, stack, env, fl) is Err,
    ensures
        resolve_members_spec(m, root, stack, env, fl) == resolve_members_spec(m.take(k), root, stack, env, fl),
    decreases m.len() - k,
{
    if k == m.len() {
        assert(m.take(k) =~= m);
    } else {
        assert(m.drop_last().take(k) =~= m.take(k));
        lemma_members_err_prefix(m.drop_last(), k, root, stack, env, fl);
    }
}

proof fn lemma_units_err_prefix(segs: Seq<SSeg>, k: int, root: SVal, stack: Seq<Seq<char>>, env: SEnv, fl: SFloats)
    requires
        0 <= k <= segs.len(),
        resolve_units_spec(segs.take(k), root, stack, env, fl) is Err,
    ensures
        resolve_units_spec(segs, root, stack, env, fl) == resolve_units_spec(segs.take(k), root, stack, env, fl),
    decreases segs.len() - k,
{
    if k == segs.len() {
        assert(segs.take(k) =~= segs);
    } else {
        assert(segs.drop_last().take(k) =~= segs.take(k));
        lemma_units_err_prefix(segs.drop_last(), k, root, stack, env, fl);
    }
}

proof fn lemma_render_err_prefix(units: Seq<SUnit>, k: int, fl: SFloats)
    requires
        0 <= k <= units.len(),
        render_units(units.take(k), fl) is Err,
    ensures
        render_units(units, fl) == render_units(units.take(k), fl),
    decreases units.len() - k,
{
    if k == units.len() {
        assert(units.take(k) =~= units);
    } else {
        assert(units.drop_last().take(k) =~= units.take(k));
        lemma_render_err_prefix(units.drop_last(), k, fl);
    }
}

// ---------- executable resolution (continued) ----------

/// How a resolved scalar reads inside a string concatenation.
fn render_scalar(v: &Value, fl: &Vec<(String, Option<String>)>) -> (r: Result<String, ResolveError>)
    requires
        concrete(v@),
    ensures
        r matches Ok(s) ==> render_spec(v@, floats_view(*fl)) == Ok::<Seq<char>, RErr>(s@),
        r matches Err(e) ==> render_spec(v@, floats_view(*fl)) == Err::<Seq<char>, RErr>(e@),
{
    match v {
        Value::Null => Ok(String::new()),
        Value::Bool(b) => {
            if *b {
                let t = vec!['T', 'r', 'u', 'e'];
                Ok(string_of(&t))
            } else {
                let f = vec!['F', 'a', 'l', 's', 'e'];
                Ok(string_of(&f))
            }
        },
        Value::Int(i) => Ok(int_to_string(*i)),
        Value::BigInt(s) => Ok(s.clone()),
        Value::Float(t) => match float_get(fl, t) {
            Some(r) => Ok(r),
            None => Err(
                ResolveError::Fallback(
                    crate::lexer::msg(
                        "float outside the iso-renderable range in string concatenation",
                    ),
                ),
            ),
        },
        Value::Str(s) => Ok(s.clone()),
        Value::Obj(_) | Value::Arr(_) => Err(
            ResolveError::WrongType(
                crate::lexer::msg("object/array not allowed in a string concatenation"),
            ),
        ),
        Value::Subst { .. } | Value::Concat(_) => {
            proof {
                assert(false);
            }
            Err(ResolveError::WrongType(crate::lexer::msg("unresolved")))
        },
    }
}

pub open spec fn units_concrete(u: Seq<SUnit>) -> bool {
    forall|k: int| 0 <= k < u.len() ==> (#[trigger] u[k] matches SUnit::Val(Some(v)) ==> concrete(v))
}

proof fn lemma_present_step(uv: Seq<SUnit>, i: int)
    requires
        0 <= i < uv.len(),
    ensures
        present(uv.take(i + 1)) == match uv[i] {
            SUnit::Val(Some(v)) => present(uv.take(i)).push(v),
            _ => present(uv.take(i)),
        },
{
    assert(uv.take(i + 1).drop_last() =~= uv.take(i));
    assert(uv.take(i + 1).last() == uv[i]);
}

/// What the resolved units of a concatenation make (see [`combine_spec`]).
#[verifier::rlimit(50)]
fn combine(units: &Vec<Unit>, fl: &Vec<(String, Option<String>)>) -> (r: Result<Option<Value>, ResolveError>)
    requires
        units_concrete(units_view(*units)),
    ensures
        res_resolved(r, combine_spec(units_view(*units), floats_view(*fl))),
{
    let ghost uv = units_view(*units);
    let ghost fv = floats_view(*fl);
    let n = units.len();
    // meaningful text and the present values
    let mut has_text = false;
    let mut n_present: usize = 0;
    let mut all_obj = true;
    let mut all_arr = true;
    let mut i: usize = 0;
    while i < n
        invariant
            n == units.len() == uv.len(),
            uv == units_view(*units),
            i <= n,
            has_text == exists|k: int| 0 <= k < i && meaningful_text(#[trigger] uv[k]),
            n_present == present(uv.take(i as int)).len(),
            n_present <= i,
            all_obj == forall|k: int| 0 <= k < n_present ==> #[trigger] present(uv.take(i as int))[k] is Obj,
            all_arr == forall|k: int| 0 <= k < n_present ==> #[trigger] present(uv.take(i as int))[k] is Arr,
        decreases n - i,
    {
        proof {
            lemma_present_step(uv, i as int);
        }
        let ghost before = present(uv.take(i as int));
        assert(uv[i as int] == units@[i as int]@);
        match &units[i] {
            Unit::Text(t) => {
                let tc = chars_of_string(t);
                if !is_blank_text(&tc) {
                    assert(meaningful_text(uv[i as int]));
                    has_text = true;
                }
            },
            Unit::Val(Some(v)) => {
                let ghost after = before.push(v@);
                assert(after == present(uv.take(i + 1)));
                let is_obj = match v {
                    Value::Obj(_) => true,
                    _ => false,
                };
                let is_arr = match v {
                    Value::Arr(_) => true,
                    _ => false,
                };
                proof {
                    assert(after[before.len() as int] == v@);
                    assert(forall|k: int| 0 <= k < before.len() ==> #[trigger] after[k] == before[k]);
                    if all_obj && is_obj {
                        assert forall|k: int| 0 <= k < after.len() implies #[trigger] after[k] is Obj by {
                            if k < before.len() {
                                assert(after[k] == before[k]);
                            }
                        }
                    }
                    if !is_obj {
                        assert(!(after[before.len() as int] is Obj));
                    }
                    if !all_obj {
                        let k = choose|k: int| 0 <= k < before.len() && !(#[trigger] before[k] is Obj);
                        assert(after[k] == before[k]);
                    }
                    if all_arr && is_arr {
                        assert forall|k: int| 0 <= k < after.len() implies #[trigger] after[k] is Arr by {
                            if k < before.len() {
                                assert(after[k] == before[k]);
                            }
                        }
                    }
                    if !is_arr {
                        assert(!(after[before.len() as int] is Arr));
                    }
                    if !all_arr {
                        let k = choose|k: int| 0 <= k < before.len() && !(#[trigger] before[k] is Arr);
                        assert(after[k] == before[k]);
                    }
                }
                all_obj = all_obj && is_obj;
                all_arr = all_arr && is_arr;
                n_present += 1;
            },
            Unit::Val(None) => {},
        }
        i += 1;
    }
    assert(uv.take(n as int) =~= uv);
    let ghost pv = present(uv);
    if !has_text && n_present > 0 && all_obj {
        let mut acc: Vec<(String, Value)> = Vec::new();
        assert(members_view(acc) =~= Seq::<(Seq<char>, SVal)>::empty());
        let mut i: usize = 0;
        while i < n
            invariant
                n == units.len() == uv.len(),
                uv == units_view(*units),
                i <= n,
                pv == present(uv),
                forall|k: int| 0 <= k < pv.len() ==> #[trigger] pv[k] is Obj,
                members_view(acc) == merge_each(Seq::empty(), all_members(present(uv.take(i as int)))),
            decreases n - i,
        {
            proof {
                lemma_present_step(uv, i as int);
            }
            let ghost before = present(uv.take(i as int));
            assert(uv[i as int] == units@[i as int]@);
            match &units[i] {
                Unit::Val(Some(Value::Obj(m))) => {
                    let ghost a = all_members(before);
                    let ghost mv = members_view(*m);
                    assert(before.push(SVal::Obj(mv)).drop_last() =~= before);
                    assert(all_members(before.push(SVal::Obj(mv))) == a + mv);
                    let mut q: usize = 0;
                    assert(a + mv.take(0) =~= a);
                    while q < m.len()
                        invariant
                            q <= m.len(),
                            mv == members_view(*m),
                            members_view(acc) == merge_each(Seq::empty(), a + mv.take(q as int)),
                        decreases m.len() - q,
                    {
                        assert((a + mv.take(q + 1)).drop_last() =~= a + mv.take(q as int));
                        assert((a + mv.take(q + 1)).last() == (m@[q as int].0@, m@[q as int].1@));
                        merge_into(&mut acc, m[q].0.clone(), clone_value(&m[q].1));
                        q += 1;
                    }
                    assert(a + mv.take(m.len() as int) =~= a + mv);
                },
                Unit::Val(Some(_)) => {
                    proof {
                        let k = before.len() as int;
                        assert(present(uv.take(i + 1))[k] == present(uv.take(i + 1)).last());
                        lemma_present_prefix(uv, i + 1);
                        assert(pv[k] == present(uv.take(i + 1))[k]);
                        assert(false);
                    }
                },
                _ => {},
            }
            i += 1;
        }
        assert(uv.take(n as int) =~= uv);
        return Ok(Some(Value::Obj(acc)));
    }
    if !has_text && n_present > 0 && all_arr {
        let mut out: Vec<Value> = Vec::new();
        assert(vals_view(out) =~= Seq::<SVal>::empty());
        let mut i: usize = 0;
        while i < n
            invariant
                n == units.len() == uv.len(),
                uv == units_view(*units),
                i <= n,
                pv == present(uv),
                forall|k: int| 0 <= k < pv.len() ==> #[trigger] pv[k] is Arr,
                vals_view(out) == all_items(present(uv.take(i as int))),
            decreases n - i,
        {
            proof {
                lemma_present_step(uv, i as int);
            }
            let ghost before = present(uv.take(i as int));
            assert(uv[i as int] == units@[i as int]@);
            match &units[i] {
                Unit::Val(Some(Value::Arr(a))) => {
                    let ghost av = vals_view(*a);
                    assert(before.push(SVal::Arr(av)).drop_last() =~= before);
                    let ghost b = all_items(before);
                    assert(all_items(before.push(SVal::Arr(av))) == b + av);
                    let mut q: usize = 0;
                    assert(b + av.take(0) =~= b);
                    while q < a.len()
                        invariant
                            q <= a.len(),
                            av == vals_view(*a),
                            vals_view(out) == b + av.take(q as int),
                        decreases a.len() - q,
                    {
                        let ghost o = vals_view(out);
                        out.push(clone_value(&a[q]));
                        assert(vals_view(out) =~= o.push(a@[q as int]@));
                        assert(b + av.take(q + 1) =~= (b + av.take(q as int)).push(av[q as int]));
                        q += 1;
                    }
                    assert(av.take(a.len() as int) =~= av);
                },
                Unit::Val(Some(_)) => {
                    proof {
                        let k = before.len() as int;
                        lemma_present_prefix(uv, i + 1);
                        assert(pv[k] == present(uv.take(i + 1))[k]);
                        assert(false);
                    }
                },
                _ => {},
            }
            i += 1;
        }
        assert(uv.take(n as int) =~= uv);
        return Ok(Some(Value::Arr(out)));
    }
    if n_present == 0 && !has_text {
        return Ok(None);
    }
    // a string concatenation
    let mut out = String::new();
    let mut i: usize = 0;
    assert(uv.take(0) =~= Seq::<SUnit>::empty());
    while i < n
        invariant
            n == units.len() == uv.len(),
            uv == units_view(*units),
            fv == floats_view(*fl),
            units_concrete(uv),
            i <= n,
            render_units(uv.take(i as int), fv) == Ok::<Seq<char>, RErr>(out@),
            combine_spec(uv, fv) == match render_units(uv, fv) {
                Ok(s) => Ok::<Option<SVal>, RErr>(Some(SVal::Str(trim(s)))),
                Err(e) => Err(e),
            },
        decreases n - i,
    {
        assert(uv.take(i + 1).drop_last() =~= uv.take(i as int));
        assert(uv.take(i + 1).last() == uv[i as int]);
        assert(uv[i as int] == units@[i as int]@);
        match &units[i] {
            Unit::Text(t) => {
                let tc = chars_of_string(t);
                let ghost o = out@;
                let mut l: usize = 0;
                while l < tc.len()
                    invariant
                        l <= tc.len(),
                        out@ == o + tc@.take(l as int),
                    decreases tc.len() - l,
                {
                    out.push(tc[l]);
                    l += 1;
                    assert(tc@.take(l as int) =~= tc@.take(l - 1).push(tc@[l - 1]));
                }
                assert(tc@.take(tc.len() as int) =~= tc@);
            },
            Unit::Val(Some(v)) => {
                match render_scalar(v, fl) {
                    Ok(r) => {
                        let rc = chars_of_string(&r);
                        let ghost o = out@;
                        let mut l: usize = 0;
                        while l < rc.len()
                            invariant
                                l <= rc.len(),
                                out@ == o + rc@.take(l as int),
                            decreases rc.len() - l,
                        {
                            out.push(rc[l]);
                            l += 1;
                            assert(rc@.take(l as int) =~= rc@.take(l - 1).push(rc@[l - 1]));
                        }
                        assert(rc@.take(rc.len() as int) =~= rc@);
                    },
                    Err(e) => {
                        proof {
                            lemma_render_err_prefix(uv, i + 1, fv);
                        }
                        return Err(e);
                    },
                }
            },
            Unit::Val(None) => {},
        }
        i += 1;
    }
    assert(uv.take(n as int) =~= uv);
    let oc = chars_of_string(&out);
    let t = trimmed(&oc);
    Ok(Some(Value::Str(string_of(&t))))
}

proof fn lemma_present_prefix(uv: Seq<SUnit>, i: int)
    requires
        0 <= i <= uv.len(),
    ensures
        present(uv.take(i)).len() <= present(uv).len(),
        forall|k: int| 0 <= k < present(uv.take(i)).len() ==> #[trigger] present(uv)[k] == present(uv.take(i))[k],
    decreases uv.len() - i,
{
    if i == uv.len() {
        assert(uv.take(i) =~= uv);
    } else {
        assert(uv.drop_last().take(i) =~= uv.take(i));
        lemma_present_prefix(uv.drop_last(), i);
        let p = present(uv.drop_last());
        let q = present(uv);
        assert forall|k: int| 0 <= k < p.len() implies #[trigger] q[k] == p[k] by {}
    }
}

/// Resolves `node` of the document `root`, `stack` holding the substitutions being resolved.
fn resolve_at(
    node: &Value,
    root: &Value,
    stack: &Vec<String>,
    env: &Vec<(String, String)>,
    fl: &Vec<(String, Option<String>)>,
) -> (r: Result<Option<Value>, ResolveError>)
    ensures
        res_resolved(r, resolve_spec(node@, root@, strings_view(*stack), env_view(*env), floats_view(*fl))),
        r matches Ok(Some(v)) ==> concrete(v@),
    decreases budget(root@, strings_view(*stack)), sz(node@), 2int,
{
    let ghost sv = strings_view(*stack);
    let ghost ev = env_view(*env);
    let ghost fv = floats_view(*fl);
    proof {
        lemma_resolve_concrete(node@, root@, sv, ev, fv);
    }
    match node {
        Value::Arr(items) => {
            let ghost iv = vals_view(*items);
            let mut out: Vec<Value> = Vec::new();
            let mut k: usize = 0;
            assert(iv.take(0) =~= Seq::<SVal>::empty());
            assert(vals_view(out) =~= Seq::<SVal>::empty());
            while k < items.len()
                invariant
                    k <= items.len(),
                    iv == vals_view(*items),
                    node@ == SVal::Arr(iv),
                    sv == strings_view(*stack),
                    ev == env_view(*env),
                    fv == floats_view(*fl),
                    resolve_items_spec(iv.take(k as int), root@, sv, ev, fv) == Ok::<Seq<SVal>, RErr>(vals_view(out)),
                decreases items.len() - k,
            {
                assert(iv.take(k + 1).drop_last() =~= iv.take(k as int));
                assert(iv.take(k + 1).last() == items@[k as int]@);
                proof {
                    lemma_sz_vals_elem(iv, k as int);
                    lemma_sz_pos(iv[k as int]);
                }
                match resolve_at(&items[k], root, stack, env, fl) {
                    Ok(Some(v)) => {
                        let ghost o = vals_view(out);
                        out.push(v);
                        assert(vals_view(out) =~= o.push(v@));
                    },
                    Ok(None) => {},
                    Err(e) => {
                        proof {
                            lemma_items_err_prefix(iv, k + 1, root@, sv, ev, fv);
                        }
                        return Err(e);
                    },
                }
                k += 1;
            }
            assert(iv.take(items.len() as int) =~= iv);
            Ok(Some(Value::Arr(out)))
        },
        Value::Obj(m) => {
            let ghost mv = members_view(*m);
            let mut out: Vec<(String, Value)> = Vec::new();
            let mut k: usize = 0;
            assert(mv.take(0) =~= Seq::<(Seq<char>, SVal)>::empty());
            assert(members_view(out) =~= Seq::<(Seq<char>, SVal)>::empty());
            while k < m.len()
                invariant
                    k <= m.len(),
                    mv == members_view(*m),
                    node@ == SVal::Obj(mv),
                    sv == strings_view(*stack),
                    ev == env_view(*env),
                    fv == floats_view(*fl),
                    resolve_members_spec(mv.take(k as int), root@, sv, ev, fv) == Ok::<Seq<(Seq<char>, SVal)>, RErr>(members_view(out)),
                decreases m.len() - k,
            {
                assert(mv.take(k + 1).drop_last() =~= mv.take(k as int));
                assert(mv.take(k + 1).last() == (m@[k as int].0@, m@[k as int].1@));
                proof {
                    lemma_sz_members_elem(mv, k as int);
                    lemma_sz_pos(mv[k as int].1);
                }
                match resolve_at(&m[k].1, root, stack, env, fl) {
                    Ok(Some(rv)) => {
                        let drop = match (&rv, &m[k].1) {
                            (Value::Null, Value::Subst { .. }) => true,
                            _ => false,
                        };
                        if !drop {
                            let ghost o = members_view(out);
                            out.push((m[k].0.clone(), rv));
                            assert(members_view(out) =~= o.push((m@[k as int].0@, rv@)));
                        }
                    },
                    Ok(None) => {},
                    Err(e) => {
                        proof {
                            lemma_members_err_prefix(mv, k + 1, root@, sv, ev, fv);
                        }
                        return Err(e);
                    },
                }
                k += 1;
            }
            assert(mv.take(m.len() as int) =~= mv);
            Ok(Some(Value::Obj(out)))
        },
        Value::Subst { path, optional } => resolve_subst_at(path, *optional, root, stack, env, fl),
        Value::Concat(segs) => {
            let ghost gv = segs_view(*segs);
            let mut units: Vec<Unit> = Vec::new();
            let mut k: usize = 0;
            assert(gv.take(0) =~= Seq::<SSeg>::empty());
            assert(units_view(units) =~= Seq::<SUnit>::empty());
            while k < segs.len()
                invariant
                    k <= segs.len(),
                    gv == segs_view(*segs),
                    node@ == SVal::Concat(gv),
                    sv == strings_view(*stack),
                    ev == env_view(*env),
                    fv == floats_view(*fl),
                    resolve_units_spec(gv.take(k as int), root@, sv, ev, fv) == Ok::<Seq<SUnit>, RErr>(units_view(units)),
                    units_concrete(units_view(units)),
                decreases segs.len() - k,
            {
                assert(gv.take(k + 1).drop_last() =~= gv.take(k as int));
                assert(gv.take(k + 1).last() == segs@[k as int]@);
                proof {
                    lemma_sz_segs_elem(gv, k as int);
                    lemma_sz_seg_pos(gv[k as int]);
                }
                let ghost o = units_view(units);
                let u = match &segs[k] {
                    CSeg::Text(t) => Unit::Text(t.clone()),
                    CSeg::Val(v) => {
                        assert(sz_seg(gv[k as int]) == sz(v@));
                        match resolve_at(v, root, stack, env, fl) {
                            Ok(r) => Unit::Val(r),
                            Err(e) => {
                                proof {
                                    lemma_units_err_prefix(gv, k + 1, root@, sv, ev, fv);
                                }
                                return Err(e);
                            },
                        }
                    },
                    CSeg::Sub { path, optional } => {
                        match resolve_subst_at(path, *optional, root, stack, env, fl) {
                            Ok(r) => Unit::Val(r),
                            Err(e) => {
                                proof {
                                    lemma_units_err_prefix(gv, k + 1, root@, sv, ev, fv);
                                }
                                return Err(e);
                            },
                        }
                    },
                };
                units.push(u);
                assert(units_view(units) =~= o.push(u@));
                assert forall|j: int| 0 <= j < units_view(units).len() implies (#[trigger] units_view(units)[j] matches SUnit::Val(Some(w)) ==> concrete(w)) by {
                    if j < o.len() {
                        assert(units_view(units)[j] == o[j]);
                    }
                }
                k += 1;
            }
            assert(gv.take(segs.len() as int) =~= gv);
            combine(&units, fl)
        },
        _ => Ok(Some(clone_value(node))),
    }
}

/// Resolves `${path}` (or `${?path}` when `optional`).
fn resolve_subst_at(
    path: &Vec<String>,
    optional: bool,
    root: &Value,
    stack: &Vec<String>,
    env: &Vec<(String, String)>,
    fl: &Vec<(String, Option<String>)>,
) -> (r: Result<Option<Value>, ResolveError>)
    ensures
        res_resolved(r, resolve_subst_spec(strings_view(*path), optional, root@, strings_view(*stack), env_view(*env), floats_view(*fl))),
        r matches Ok(Some(v)) ==> concrete(v@),
    decreases budget(root@, strings_view(*stack)), 0nat, 0int,
{
    proof {
        lemma_resolve_subst_concrete(strings_view(*path), optional, root@, strings_view(*stack), env_view(*env), floats_view(*fl));
    }
    let key = join_path(path);
    if stack_contains(stack, &key) {
        return Err(ResolveError::Subst(describe_subst("circular substitution", &key)));
    }
    assert(strings_view(*path).skip(0) =~= strings_view(*path));
    match get_path_exec(root, path, 0) {
        Some(raw) => {
            let mut st2 = clone_strings(stack);
            let ghost before = strings_view(st2);
            st2.push(key);
            assert(strings_view(st2) =~= before.push(key@));
            proof {
                lemma_budget_push(root@, strings_view(*stack), strings_view(*path));
            }
            resolve_at(raw, root, &st2, env, fl)
        },
        None => {
            match env_get(env, &key) {
                Some(v) => Ok(Some(Value::Str(v))),
                None => {
                    if optional {
                        Ok(None)
                    } else {
                        Err(ResolveError::Subst(describe_subst("Cannot resolve variable", &key)))
                    }
                },
            }
        },
    }
}

/// Resolves `node` of the document `root`: substitutions are looked up in `root`, then among
/// the environment variables `env`; `floats` gives the rendering of float literals inside
/// string concatenations. `stack` holds the substitutions being resolved, and is as it was
/// when this returns.
pub fn resolve_node(
    node: &Value,
    root: &Value,
    stack: &mut Vec<String>,
    env: &Vec<(String, String)>,
    floats: &Vec<(String, Option<String>)>,
) -> (r: Result<Option<Value>, ResolveError>)
    ensures
        strings_view(*final(stack)) == strings_view(*old(stack)),
        res_resolved(r, resolve_spec(node@, root@, strings_view(*old(stack)), env_view(*env), floats_view(*floats))),
        r matches Ok(Some(v)) ==> concrete(v@),
{
    resolve_at(node, root, stack, env, floats)
}

/// A resolution error message: `what ${key}`.
fn describe_subst(what: &str, key: &String) -> (r: String)
    ensures
        r@ == subst_message(what@, key@),
{
    let mut r = what.to_owned();
    r.push(' ');
    r.push('$');
    r.push('{');
    r.append(key.as_str());
    r.push('}');
    r
}

} // verus!
