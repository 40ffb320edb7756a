//! Dotted keys, self-references and the deep merge that assigns a key inside an object.

use vstd::prelude::*;
use crate::text::string_of_range;
use crate::value::{
    clone_value, concrete, lemma_all_concrete, lemma_all_concrete_members, find_key, get_path, lemma_find_key, lookup, members_view,
    position_of, segs_view, strings_view, vals_view, CSeg, SSeg, SVal, Value,
};

verus! {

// ---------- dotted keys ----------

/// Index of the first `.` at or after `i` (or the length).
pub open spec fn dot_from(k: Seq<char>, i: int) -> int
    decreases k.len() - i,
{
    if 0 <= i < k.len() && k[i] != '.' {
        dot_from(k, i + 1)
    } else {
        i
    }
}

/// `a.b.c = v` assigns `{b: {c: v}}` to `a`: the first segment and what it receives.
pub open spec fn split_head_spec(key: Seq<char>, value: SVal) -> (Seq<char>, SVal)
    decreases key.len(),
{
    let p = dot_from(key, 0);
    if 0 <= p < key.len() {
        let (k2, v2) = split_head_spec(key.skip(p + 1), value);
        (key.take(p), SVal::Obj(seq![(k2, v2)]))
    } else {
        (key, value)
    }
}

proof fn lemma_dot_from(k: Seq<char>, i: int)
    requires
        0 <= i <= k.len(),
    ensures
        i <= dot_from(k, i) <= k.len(),
        dot_from(k, i) < k.len() ==> k[dot_from(k, i)] == '.',
    decreases k.len() - i,
{
    if i < k.len() && k[i] != '.' {
        lemma_dot_from(k, i + 1);
    }
}

proof fn lemma_dot_from_shift(k: Seq<char>, s: int, i: int)
    requires
        0 <= s <= i <= k.len(),
    ensures
        dot_from(k.skip(s), i - s) == dot_from(k, i) - s,
    decreases k.len() - i,
{
    if i < k.len() && k[i] != '.' {
        lemma_dot_from_shift(k, s, i + 1);
    }
}

fn split_head_from(key: &Vec<char>, lo: usize, value: Value) -> (r: (String, Value))
    requires
        lo <= key.len(),
    ensures
        (r.0@, r.1@) == split_head_spec(key@.skip(lo as int), value@),
    decreases key.len() - lo,
{
    let mut p = lo;
    while p < key.len() && key[p] != '.'
        invariant
            lo <= p <= key.len(),
            dot_from(key@, p as int) == dot_from(key@, lo as int),
        decreases key.len() - p,
    {
        p += 1;
    }
    proof {
        lemma_dot_from_shift(key@, lo as int, lo as int);
        assert(dot_from(key@, p as int) == p);
    }
    let ghost k = key@.skip(lo as int);
    if p < key.len() {
        let (k2, v2) = split_head_from(key, p + 1, value);
        assert(k.skip(p - lo + 1) =~= key@.skip(p + 1));
        let head = string_of_range(key, lo, p);
        assert(k.take(p - lo) =~= key@.subrange(lo as int, p as int));
        let mut m: Vec<(String, Value)> = Vec::new();
        m.push((k2, v2));
        let r = (head, Value::Obj(m));
        assert(members_view(m) =~= seq![(k2@, v2@)]);
        r
    } else {
        let s = string_of_range(key, lo, key.len());
        assert(k =~= key@.subrange(lo as int, key@.len() as int));
        (s, value)
    }
}

/// Splits a dotted key at its first `.`: `(a, {b: {c: v}})` for `a.b.c`.
pub fn split_head(key: &Vec<char>, value: Value) -> (r: (String, Value))
    ensures
        (r.0@, r.1@) == split_head_spec(key@, value@),
{
    assert(key@.skip(0) =~= key@);
    split_head_from(key, 0, value)
}

// ---------- self-references ----------

/// `${key.rest}` inside the value that overrides `key` reads the previous value: the node that
/// `rest` reaches in it, when that node is fully resolved.
pub open spec fn navigate_spec(prior: SVal, rest: Seq<Seq<char>>) -> Option<SVal> {
    match get_path(prior, rest) {
        Some(v) => if concrete(v) {
            Some(v)
        } else {
            None
        },
        None => None,
    }
}

pub open spec fn self_target(path: Seq<Seq<char>>, key: Seq<char>, prior: SVal) -> Option<SVal> {
    if path.len() > 0 && path[0] == key {
        navigate_spec(prior, path.drop_first())
    } else {
        None
    }
}

pub open spec fn subst_seg_spec(seg: SSeg, key: Seq<char>, prior: SVal) -> SSeg {
    match seg {
        SSeg::Sub(path, opt) => match self_target(path, key, prior) {
            Some(v) => SSeg::Val(v),
            None => seg,
        },
        _ => seg,
    }
}

/// The value that overrides `key`, with its immediate self-references replaced by the previous
/// value `prior` (as a whole value, or as a unit of a concatenation).
pub open spec fn subst_self_spec(value: SVal, key: Seq<char>, prior: SVal) -> SVal {
    match value {
        SVal::Subst(path, opt) => match self_target(path, key, prior) {
            Some(v) => v,
            None => value,
        },
        SVal::Concat(segs) => SVal::Concat(
            Seq::new(segs.len(), |i: int| subst_seg_spec(segs[i], key, prior)),
        ),
        _ => value,
    }
}

/// Whether a value is fully resolved.
#[verifier::loop_isolation(false)]
pub fn is_concrete(v: &Value) -> (b: bool)
    ensures
        b == concrete(v@),
    decreases v,
{
    broadcast use vstd::std_specs::vec::axiom_vec_index_decreases;

    match v {
        Value::Subst { .. } | Value::Concat(_) => false,
        Value::Arr(items) => {
            let ghost iv = vals_view(*items);
            proof {
                lemma_all_concrete(iv);
            }
            let mut i: usize = 0;
            while i < items.len()
                invariant
                    i <= items.len(),
                    iv == vals_view(*items),
                    forall|j: int| 0 <= j < i ==> concrete(#[trigger] iv[j]),
                decreases items.len() - i,
            {
                if !is_concrete(&items[i]) {
                    assert(!concrete(iv[i as int]));
                    assert(v@ == SVal::Arr(iv));
                    assert(0 <= i < iv.len());
                    assert(!concrete(v@));
                    return false;
                }
                i += 1;
            }
            true
        },
        Value::Obj(m) => {
            let ghost mv = members_view(*m);
            proof {
                lemma_all_concrete_members(mv);
            }
            let mut i: usize = 0;
            while i < m.len()
                invariant
                    i <= m.len(),
                    mv == members_view(*m),
                    forall|j: int| 0 <= j < i ==> concrete(#[trigger] mv[j].1),
                decreases m.len() - i,
            {
                assert(decreases_to!(m => m@[i as int].1));
                if !is_concrete(&m[i].1) {
                    assert(!concrete(mv[i as int].1));
                    assert(v@ == SVal::Obj(mv));
                    assert(0 <= i < mv.len());
                    assert(!concrete(v@));
                    return false;
                }
                i += 1;
            }
            true
        },
        _ => true,
    }
}

/// The node that `path[from..]` reaches in `root`, each step through the first member with the
/// key.
pub fn get_path_exec<'a>(root: &'a Value, path: &Vec<String>, from: usize) -> (r: Option<&'a Value>)
    requires
        from <= path.len(),
    ensures
        r matches Some(v) ==> get_path(root@, strings_view(*path).skip(from as int)) == Some(v@),
        r is None ==> get_path(root@, strings_view(*path).skip(from as int)) is None,
{
    let ghost pv = strings_view(*path);
    let mut cur: &Value = root;
    let mut k = from;
    while k < path.len()
        invariant
            from <= k <= path.len(),
            pv == strings_view(*path),
            get_path(root@, pv.skip(from as int)) == get_path(cur@, pv.skip(k as int)),
        decreases path.len() - k,
    {
        assert(pv.skip(k as int).drop_first() =~= pv.skip(k + 1));
        assert(pv.skip(k as int)[0] == path@[k as int]@);
        match cur {
            Value::Obj(m) => {
                match position_of(m, &path[k]) {
                    Some(idx) => {
                        cur = &m[idx].1;
                    },
                    None => {
                        return None;
                    },
                }
            },
            _ => {
                return None;
            },
        }
        k += 1;
    }
    assert(pv.skip(k as int).len() == 0);
    Some(cur)
}

/// A copy of the fully resolved node that `rest[from..]` reaches in the previous value.
pub fn navigate_prior(prior: &Value, rest: &Vec<String>, from: usize) -> (r: Option<Value>)
    requires
        from <= rest.len(),
    ensures
        r matches Some(v) ==> navigate_spec(prior@, strings_view(*rest).skip(from as int)) == Some(
            v@,
        ),
        r is None ==> navigate_spec(prior@, strings_view(*rest).skip(from as int)) is None,
{
    match get_path_exec(prior, rest, from) {
        Some(cur) => {
            if is_concrete(cur) {
                Some(clone_value(cur))
            } else {
                None
            }
        },
        None => None,
    }
}

fn self_target_exec(path: &Vec<String>, key: &String, prior: &Value) -> (r: Option<Value>)
    ensures
        r matches Some(v) ==> self_target(strings_view(*path), key@, prior@) == Some(v@),
        r is None ==> self_target(strings_view(*path), key@, prior@) is None,
{
    if path.len() > 0 && path[0] == *key {
        assert(strings_view(*path).drop_first() =~= strings_view(*path).skip(1));
        navigate_prior(prior, path, 1)
    } else {
        None
    }
}

/// Replaces the immediate self-references of the value that overrides `key` by the previous
/// value `prior`.
pub fn substitute_self_ref(value: Value, key: &String, prior: &Value) -> (r: Value)
    ensures
        r@ == subst_self_spec(value@, key@, prior@),
{
    match value {
        Value::Subst { path, optional } => {
            match self_target_exec(&path, key, prior) {
                Some(v) => v,
                None => Value::Subst { path, optional },
            }
        },
        Value::Concat(segs) => {
            let ghost sv = segs_view(segs);
            let mut out: Vec<CSeg> = Vec::new();
            let mut i: usize = 0;
            while i < segs.len()
                invariant
                    i <= segs.len(),
                    sv == segs_view(segs),
                    out.len() == i,
                    forall|j: int|
                        0 <= j < i ==> #[trigger] out@[j]@ == subst_seg_spec(sv[j], key@, prior@),
                decreases segs.len() - i,
            {
                let next = match &segs[i] {
                    CSeg::Sub { path, optional } => {
                        match self_target_exec(path, key, prior) {
                            Some(v) => CSeg::Val(v),
                            None => CSeg::Sub { path: crate::value::clone_strings(path), optional: *optional },
                        }
                    },
                    CSeg::Val(v) => CSeg::Val(clone_value(v)),
                    CSeg::Text(t) => CSeg::Text(t.clone()),
                };
                out.push(next);
                i += 1;
            }
            let r = Value::Concat(out);
            assert forall|j: int| 0 <= j < out.len() implies #[trigger] segs_view(out)[j] == Seq::new(
                sv.len(),
                |i: int| subst_seg_spec(sv[i], key@, prior@),
            )[j] by {
                assert(out@[j]@ == subst_seg_spec(sv[j], key@, prior@));
            }
            assert(segs_view(out) =~= Seq::new(sv.len(), |i: int| subst_seg_spec(sv[i], key@, prior@)));
            r
        },
        other => other,
    }
}

// ---------- deep merge ----------

/// How deeply objects nest in a value (scalars, arrays and pending nodes count 0).
pub open spec fn oheight(v: SVal) -> nat
    decreases v,
{
    match v {
        SVal::Obj(m) => 1 + mheight(m),
        _ => 0,
    }
}

/// The greatest `oheight` of the members' values.
pub open spec fn mheight(m: Seq<(Seq<char>, SVal)>) -> nat
    decreases m,
{
    if m.len() == 0 {
        0
    } else {
        let a = oheight(m[0].1);
        let b = mheight(m.drop_first());
        if a >= b {
            a
        } else {
            b
        }
    }
}

/// Assigning `value` to `key` among the members `m`, as HOCON does: a new key is appended; over
/// an existing key, self-references to it are replaced by the previous value, an object merges
/// deeply into a previous object, and anything else replaces the previous value in place.
/// `fuel` bounds the depth of the deep merge ([`merged`] gives it enough).
pub open spec fn merge_spec(
    m: Seq<(Seq<char>, SVal)>,
    key: Seq<char>,
    value: SVal,
    fuel: nat,
) -> Seq<(Seq<char>, SVal)>
    decreases fuel, 0nat,
{
    match find_key(m, key) {
        None => m.push((key, value)),
        Some(idx) => {
            let v2 = subst_self_spec(value, key, m[idx].1);
            match m[idx].1 {
                SVal::Obj(ex) => match v2 {
                    SVal::Obj(inc) => if fuel > 0 {
                        m.update(idx, (m[idx].0, SVal::Obj(merge_all_spec(ex, inc, (fuel - 1) as nat))))
                    } else {
                        m.update(idx, (m[idx].0, v2))
                    },
                    _ => m.update(idx, (m[idx].0, v2)),
                },
                _ => m.update(idx, (m[idx].0, v2)),
            }
        },
    }
}

/// Assigns each member of `inc`, in order, into `ex`.
pub open spec fn merge_all_spec(
    ex: Seq<(Seq<char>, SVal)>,
    inc: Seq<(Seq<char>, SVal)>,
    fuel: nat,
) -> Seq<(Seq<char>, SVal)>
    decreases fuel, inc.len(),
{
    if inc.len() == 0 {
        ex
    } else {
        merge_spec(
            merge_all_spec(ex, inc.drop_last(), fuel),
            inc.last().0,
            inc.last().1,
            fuel,
        )
    }
}

/// Enough fuel for any merge of `value` into `m`.
pub open spec fn merge_fuel(m: Seq<(Seq<char>, SVal)>, value: SVal) -> nat {
    mheight(m) + oheight(value) + 1
}

/// The members after `key = value` is assigned among `m`.
pub open spec fn merged(m: Seq<(Seq<char>, SVal)>, key: Seq<char>, value: SVal) -> Seq<(Seq<char>, SVal)> {
    merge_spec(m, key, value, merge_fuel(m, value))
}

pub proof fn lemma_mheight(m: Seq<(Seq<char>, SVal)>, b: nat)
    ensures
        forall|i: int| 0 <= i < m.len() ==> oheight(#[trigger] m[i].1) <= mheight(m),
        (forall|i: int| 0 <= i < m.len() ==> oheight(#[trigger] m[i].1) <= b) ==> mheight(m) <= b,
    decreases m.len(),
{
    if m.len() > 0 {
        lemma_mheight(m.drop_first(), b);
        assert forall|i: int| 0 <= i < m.len() implies oheight(#[trigger] m[i].1) <= mheight(m) by {
            if i > 0 {
                assert(m[i] == m.drop_first()[i - 1]);
            }
        }
        if forall|i: int| 0 <= i < m.len() ==> oheight(#[trigger] m[i].1) <= b {
            assert forall|i: int| 0 <= i < m.drop_first().len() implies oheight(
                #[trigger] m.drop_first()[i].1,
            ) <= b by {
                assert(m.drop_first()[i] == m[i + 1]);
            }
        }
    }
}

pub proof fn lemma_get_path_height(v: SVal, p: Seq<Seq<char>>)
    ensures
        get_path(v, p) matches Some(w) ==> oheight(w) <= oheight(v),
    decreases p.len(),
{
    if p.len() > 0 {
        if let SVal::Obj(m) = v {
            if let Some(child) = lookup(m, p[0]) {
                lemma_find_key(m, p[0]);
                lemma_mheight(m, 0);
                lemma_get_path_height(child, p.drop_first());
            }
        }
    }
}

pub proof fn lemma_subst_self_height(value: SVal, key: Seq<char>, prior: SVal)
    ensures
        oheight(subst_self_spec(value, key, prior)) <= oheight(value) || oheight(subst_self_spec(value, key, prior)) <= oheight(prior),
{
    if let SVal::Subst(path, opt) = value {
        if path.len() > 0 && path[0] == key {
            lemma_get_path_height(prior, path.drop_first());
        }
    }
}

pub proof fn lemma_mheight_update(m: Seq<(Seq<char>, SVal)>, idx: int, e: (Seq<char>, SVal), b: nat)
    requires
        0 <= idx < m.len(),
        mheight(m) <= b,
        oheight(e.1) <= b,
    ensures
        mheight(m.update(idx, e)) <= b,
        mheight(m.push(e)) <= b,
{
    lemma_mheight(m, b);
    let u = m.update(idx, e);
    lemma_mheight(u, b);
    let p = m.push(e);
    lemma_mheight(p, b);
}

proof fn lemma_mheight_push(m: Seq<(Seq<char>, SVal)>, e: (Seq<char>, SVal), b: nat)
    requires
        mheight(m) <= b,
        oheight(e.1) <= b,
    ensures
        mheight(m.push(e)) <= b,
{
    lemma_mheight(m, b);
    lemma_mheight(m.push(e), b);
}

fn merge_into_fuel(
    members: &mut Vec<(String, Value)>,
    key: String,
    value: Value,
    Ghost(fuel): Ghost<nat>,
)
    requires
        mheight(members_view(*old(members))) < fuel,
        oheight(value@) < fuel,
    ensures
        members_view(*final(members)) == merge_spec(
            members_view(*old(members)),
            key@,
            value@,
            fuel,
        ),
        mheight(members_view(*final(members))) < fuel,
    decreases fuel,
{
    let ghost m0 = members_view(*members);
    match position_of(members, &key) {
        None => {
            members.push((key, value));
            assert(members_view(*members) =~= m0.push((key@, value@)));
            proof {
                lemma_mheight_push(m0, (key@, value@), (fuel - 1) as nat);
            }
        },
        Some(idx) => {
            let v2 = substitute_self_ref(value, &key, &members[idx].1);
            proof {
                lemma_subst_self_height(value@, key@, m0[idx as int].1);
                lemma_mheight(m0, (fuel - 1) as nat);
            }
            let (k0, old_v) = members.remove(idx);
            let ghost m1 = members_view(*members);
            assert(m1 =~= m0.remove(idx as int));
            assert(k0@ == m0[idx as int].0);
            assert(old_v@ == m0[idx as int].1);
            let new_v = match old_v {
                Value::Obj(mut ex) => {
                    match v2 {
                        Value::Obj(inc) => {
                            let ghost ex0 = members_view(ex);
                            let ghost incv = members_view(inc);
                            proof {
                                lemma_mheight(incv, (fuel - 2) as nat);
                            }
                            let mut i: usize = 0;
                            while i < inc.len()
                                invariant
                                    fuel >= 2,
                                    i <= inc.len(),
                                    incv == members_view(inc),
                                    mheight(incv) < fuel - 1,
                                    members_view(ex) == merge_all_spec(
                                        ex0,
                                        incv.take(i as int),
                                        (fuel - 1) as nat,
                                    ),
                                    mheight(members_view(ex)) < fuel - 1,
                                decreases inc.len() - i,
                            {
                                assert(incv.take(i + 1).drop_last() =~= incv.take(i as int));
                                assert(incv.take(i + 1).last() == incv[i as int]);
                                proof {
                                    lemma_mheight(incv, (fuel - 2) as nat);
                                    assert(incv[i as int].1 == inc@[i as int].1@);
                                    assert(oheight(incv[i as int].1) <= mheight(incv));
                                }
                                merge_into_fuel(
                                    &mut ex,
                                    inc[i].0.clone(),
                                    clone_value(&inc[i].1),
                                    Ghost((fuel - 1) as nat),
                                );
                                i += 1;
                            }
                            assert(incv.take(inc.len() as int) =~= incv);
                            Value::Obj(ex)
                        },
                        other => other,
                    }
                },
                _ => v2,
            };
            let ghost nv = new_v@;
            members.insert(idx, (k0, new_v));
            assert(members_view(*members) =~= m0.update(idx as int, (m0[idx as int].0, nv)));
            proof {
                lemma_mheight_update(m0, idx as int, (m0[idx as int].0, nv), (fuel - 1) as nat);
            }
        },
    }
}

/// Assigns `key = value` among the members of an object (see [`merge_spec`]).
pub fn merge_into(members: &mut Vec<(String, Value)>, key: String, value: Value)
    ensures
        members_view(*final(members)) == merged(members_view(*old(members)), key@, value@),
{
    merge_into_fuel(
        members,
        key,
        value,
        Ghost(merge_fuel(members_view(*members), value@)),
    );
}

} // verus!
