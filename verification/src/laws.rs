//! Properties of the library as a whole, proved over the models that the functions' contracts
//! use.

use vstd::prelude::*;
use crate::merge::{
    dot_from, merge_all_spec, merge_fuel, merge_spec, merged, split_head_spec, subst_self_spec,
};
use crate::braced::{lemma_root_wrap, wrap};
use crate::document::{document_ctx, document_spec, resolved_spec};
use crate::inclusion::{find_entry_from, include_spec_spec, IncludeKind, SEntry};
use crate::lexer::{at, skip_separators_from, SErr};
use crate::parser::{inclusion_spec, raw_end_from, root_spec, PCtx};
use crate::tables::{lemma_root_more, supplies_more};
use crate::keyed::{lemma_resolve_well_keyed, lemma_root_well_keyed, well_keyed};
use crate::parser::merge_each;
use crate::lexer::quoted_from;
use crate::scalar::{classify_spec, is_float_literal, is_int_token, lemma_hocon_float_pattern};
use crate::resolve::{
    float_lookup, render_spec,
    all_items, all_members, env_lookup, join, lemma_sz_pos, meaningful_text, present,
    render_units, resolve_items_spec, resolve_members_spec, resolve_spec, resolve_subst_spec,
    resolve_units_spec, subst_message, sz, sz_members, sz_vals, RErr, SEnv, SFloats, SUnit,
};
use crate::text::{is_blank, lemma_trim_empty_iff_blank, trim};
use crate::value::{
    all_concrete, all_concrete_members, concrete, find_key, get_path, lemma_all_concrete,
    lemma_all_concrete_members, lemma_find_key, lookup, SSeg, SVal,
};

verus! {

/// The members hold each key at most once.
pub open spec fn unique_keys(m: Seq<(Seq<char>, SVal)>) -> bool {
    forall|i: int, j: int| 0 <= i < j < m.len() ==> #[trigger] m[i].0 != #[trigger] m[j].0
}

/// Some member has the key `k`.
pub open spec fn has_key(m: Seq<(Seq<char>, SVal)>, k: Seq<char>) -> bool {
    find_key(m, k) is Some
}

pub proof fn lemma_has_key(m: Seq<(Seq<char>, SVal)>, k: Seq<char>)
    ensures
        has_key(m, k) == exists|i: int| 0 <= i < m.len() && #[trigger] m[i].0 == k,
{
    lemma_find_key(m, k);
    if exists|i: int| 0 <= i < m.len() && #[trigger] m[i].0 == k {
        let i = choose|i: int| 0 <= i < m.len() && #[trigger] m[i].0 == k;
        if find_key(m, k) is None {
            assert(m[i].0 != k);
        }
    }
}

/// Assigning a key that the members lack appends it, with the value as given.
pub proof fn law_merge_new_key(m: Seq<(Seq<char>, SVal)>, k: Seq<char>, v: SVal)
    requires
        !has_key(m, k),
    ensures
        merged(m, k, v) == m.push((k, v)),
        lookup(merged(m, k, v), k) == Some(v),
{
    let r = m.push((k, v));
    lemma_find_key(m, k);
    lemma_find_key(r, k);
    assert(r[m.len() as int].0 == k);
    if let Some(j) = find_key(r, k) {
        if j < m.len() {
            assert(r[j] == m[j]);
        }
    }
}

/// Assigning a key that the members hold replaces its value in place (its self-references
/// read the previous value), unless both the previous and the new value are objects.
pub proof fn law_merge_override(m: Seq<(Seq<char>, SVal)>, k: Seq<char>, v: SVal)
    requires
        has_key(m, k),
        !(lookup(m, k)->0 is Obj && subst_self_spec(v, k, lookup(m, k)->0) is Obj),
    ensures
        lookup(merged(m, k, v), k) == Some(subst_self_spec(v, k, lookup(m, k)->0)),
        merged(m, k, v).len() == m.len(),
{
    lemma_find_key(m, k);
    let i = find_key(m, k)->0;
    let v2 = subst_self_spec(v, k, m[i].1);
    let r = merged(m, k, v);
    assert(r == m.update(i, (m[i].0, v2)));
    lemma_find_key(r, k);
    assert(r[i].0 == k);
    if let Some(j) = find_key(r, k) {
        if j < i {
            assert(r[j] == m[j]);
        }
        if j > i {
            assert(r[i].0 == k);
        }
        assert(j == i);
    }
}

pub proof fn lemma_merge_spec_shape(m: Seq<(Seq<char>, SVal)>, k: Seq<char>, v: SVal, fuel: nat)
    ensures
        !has_key(m, k) ==> merge_spec(m, k, v, fuel) == m.push((k, v)),
        has_key(m, k) ==> merge_spec(m, k, v, fuel).len() == m.len() && (forall|j: int|
            0 <= j < m.len() && j != find_key(m, k)->0 ==> #[trigger] merge_spec(m, k, v, fuel)[j] == m[j])
            && merge_spec(m, k, v, fuel)[find_key(m, k)->0].0 == m[find_key(m, k)->0].0,
{
    lemma_find_key(m, k);
}

/// Members other than the one assigned are untouched.
pub proof fn law_merge_other_keys(m: Seq<(Seq<char>, SVal)>, k: Seq<char>, v: SVal, k2: Seq<char>)
    requires
        k2 != k,
    ensures
        lookup(merged(m, k, v), k2) == lookup(m, k2),
{
    let r = merged(m, k, v);
    lemma_merge_spec_shape(m, k, v, merge_fuel(m, v));
    lemma_find_key(m, k);
    lemma_find_key(m, k2);
    lemma_find_key(r, k2);
    if has_key(m, k) {
        let i = find_key(m, k)->0;
        assert(r[i].0 == k);
        match (find_key(m, k2), find_key(r, k2)) {
            (Some(a), Some(b)) => {
                if a < b {
                    assert(r[a] == m[a]);
                }
                if b < a {
                    assert(r[b] == m[b]);
                }
            },
            (Some(a), None) => {
                assert(r[a] == m[a]);
            },
            (None, Some(b)) => {
                assert(r[b] == m[b]);
            },
            _ => {},
        }
    } else {
        match (find_key(m, k2), find_key(r, k2)) {
            (Some(a), Some(b)) => {
                assert(r[a] == m[a]);
                if b < a {
                    assert(r[b] == m[b]);
                }
            },
            (Some(a), None) => {
                assert(r[a] == m[a]);
            },
            (None, Some(b)) => {
                if b < m.len() {
                    assert(r[b] == m[b]);
                }
            },
            _ => {},
        }
    }
}

pub proof fn lemma_merge_spec_keys(m: Seq<(Seq<char>, SVal)>, k: Seq<char>, v: SVal, fuel: nat, k2: Seq<char>)
    ensures
        has_key(merge_spec(m, k, v, fuel), k2) == (has_key(m, k2) || k2 == k),
        unique_keys(m) ==> unique_keys(merge_spec(m, k, v, fuel)),
{
    let r = merge_spec(m, k, v, fuel);
    lemma_merge_spec_shape(m, k, v, fuel);
    lemma_has_key(m, k2);
    lemma_has_key(r, k2);
    lemma_has_key(m, k);
    lemma_find_key(m, k);
    if has_key(m, k) {
        let i = find_key(m, k)->0;
        if has_key(m, k2) {
            let a = choose|a: int| 0 <= a < m.len() && #[trigger] m[a].0 == k2;
            if a != i {
                assert(r[a] == m[a]);
            }
        }
        if has_key(r, k2) {
            let b = choose|b: int| 0 <= b < r.len() && #[trigger] r[b].0 == k2;
            if b != i {
                assert(r[b] == m[b]);
            }
        }
        if k2 == k {
            assert(r[i].0 == k);
        }
        if unique_keys(m) {
            assert forall|x: int, y: int| 0 <= x < y < r.len() implies #[trigger] r[x].0 != #[trigger] r[y].0 by {
                let rx = if x == i { m[i] } else { m[x] };
                let ry = if y == i { m[i] } else { m[y] };
                if x != i {
                    assert(r[x] == m[x]);
                }
                if y != i {
                    assert(r[y] == m[y]);
                }
                assert(m[x].0 != m[y].0);
            }
        }
    } else {
        if has_key(m, k2) {
            let a = choose|a: int| 0 <= a < m.len() && #[trigger] m[a].0 == k2;
            assert(r[a] == m[a]);
        }
        if has_key(r, k2) {
            let b = choose|b: int| 0 <= b < r.len() && #[trigger] r[b].0 == k2;
            if b < m.len() {
                assert(r[b] == m[b]);
            }
        }
        if k2 == k {
            assert(r[m.len() as int].0 == k);
        }
        if unique_keys(m) {
            assert forall|x: int, y: int| 0 <= x < y < r.len() implies #[trigger] r[x].0 != #[trigger] r[y].0 by {
                assert(r[x] == m[x]);
                if y < m.len() {
                    assert(r[y] == m[y]);
                } else {
                    assert(m[x].0 != k);
                }
            }
        }
    }
}

/// After `k = v` is assigned, the members hold exactly the keys they held and `k`; a list of
/// members without duplicate keys keeps none.
pub proof fn law_merge_keys(m: Seq<(Seq<char>, SVal)>, k: Seq<char>, v: SVal, k2: Seq<char>)
    ensures
        has_key(merged(m, k, v), k2) == (has_key(m, k2) || k2 == k),
        unique_keys(m) ==> unique_keys(merged(m, k, v)),
{
    lemma_merge_spec_keys(m, k, v, merge_fuel(m, v), k2);
}

pub proof fn lemma_merge_all_keys(ex: Seq<(Seq<char>, SVal)>, inc: Seq<(Seq<char>, SVal)>, fuel: nat, k2: Seq<char>)
    ensures
        has_key(merge_all_spec(ex, inc, fuel), k2) == (has_key(ex, k2) || has_key(inc, k2)),
    decreases inc.len(),
{
    if inc.len() == 0 {
        lemma_has_key(inc, k2);
    } else {
        let pre = inc.drop_last();
        lemma_merge_all_keys(ex, pre, fuel, k2);
        lemma_merge_spec_keys(merge_all_spec(ex, pre, fuel), inc.last().0, inc.last().1, fuel, k2);
        lemma_has_key(inc, k2);
        lemma_has_key(pre, k2);
        if has_key(inc, k2) {
            let a = choose|a: int| 0 <= a < inc.len() && #[trigger] inc[a].0 == k2;
            if a < pre.len() {
                assert(pre[a] == inc[a]);
            }
        }
        if has_key(pre, k2) {
            let a = choose|a: int| 0 <= a < pre.len() && #[trigger] pre[a].0 == k2;
            assert(pre[a] == inc[a]);
        }
    }
}

/// Assigning an object over an object merges them: the result holds the keys of both.
pub proof fn law_merge_deep(m: Seq<(Seq<char>, SVal)>, k: Seq<char>, v: SVal, k2: Seq<char>)
    requires
        lookup(m, k) matches Some(SVal::Obj(_)),
        subst_self_spec(v, k, lookup(m, k)->0) is Obj,
    ensures
        lookup(merged(m, k, v), k) matches Some(SVal::Obj(r)) && has_key(r, k2) == (
        has_key(lookup(m, k)->0->Obj_0, k2) || has_key(subst_self_spec(v, k, lookup(m, k)->0)->Obj_0, k2)),
{
    lemma_find_key(m, k);
    let i = find_key(m, k)->0;
    let ex = m[i].1->Obj_0;
    let inc = subst_self_spec(v, k, m[i].1)->Obj_0;
    let fuel = merge_fuel(m, v);
    assert(fuel > 0);
    let r = merged(m, k, v);
    let nm = merge_all_spec(ex, inc, (fuel - 1) as nat);
    assert(r == m.update(i, (m[i].0, SVal::Obj(nm))));
    lemma_merge_all_keys(ex, inc, (fuel - 1) as nat, k2);
    lemma_find_key(r, k);
    assert(r[i].0 == k);
    assert(find_key(r, k) == Some(i)) by {
        if let Some(j) = find_key(r, k) {
            if j < i {
                assert(r[j] == m[j]);
            }
        }
    }
    assert(lookup(r, k) == Some(SVal::Obj(nm)));
}

// ---------- dotted keys ----------

/// `a.rest = v`, `a` holding no dot, assigns to `a` the object that `rest = v` makes.
pub proof fn law_dotted_key(a: Seq<char>, rest: Seq<char>, v: SVal)
    requires
        forall|i: int| 0 <= i < a.len() ==> #[trigger] a[i] != '.',
    ensures
        split_head_spec(a + seq!['.'] + rest, v) == (a, SVal::Obj(seq![split_head_spec(rest, v)])),
{
    let key = a + seq!['.'] + rest;
    assert forall|i: int| 0 <= i <= a.len() implies dot_from(key, i) == a.len() by {
        lemma_dot_scan(key, a, i);
    }
    assert(key.take(a.len() as int) =~= a);
    assert(key.skip(a.len() as int + 1) =~= rest);
}

proof fn lemma_dot_scan(key: Seq<char>, a: Seq<char>, i: int)
    requires
        0 <= i <= a.len() < key.len(),
        key[a.len() as int] == '.',
        forall|j: int| 0 <= j < a.len() ==> #[trigger] key[j] == a[j],
        forall|j: int| 0 <= j < a.len() ==> #[trigger] a[j] != '.',
    ensures
        dot_from(key, i) == a.len(),
    decreases a.len() - i,
{
    if i < a.len() {
        assert(key[i] == a[i]);
        lemma_dot_scan(key, a, i + 1);
    }
}

// ---------- resolution ----------

/// Resolving a fully resolved value gives it back unchanged.
pub proof fn law_resolve_resolved(v: SVal, root: SVal, stack: Seq<Seq<char>>, env: SEnv, fl: SFloats)
    requires
        concrete(v),
    ensures
        resolve_spec(v, root, stack, env, fl) == Ok::<Option<SVal>, RErr>(Some(v)),
    decreases sz(v), 1int,
{
    match v {
        SVal::Arr(items) => {
            lemma_resolve_items_resolved(items, root, stack, env, fl);
        },
        SVal::Obj(m) => {
            lemma_resolve_members_resolved(m, root, stack, env, fl);
        },
        _ => {},
    }
}

proof fn lemma_resolve_items_resolved(items: Seq<SVal>, root: SVal, stack: Seq<Seq<char>>, env: SEnv, fl: SFloats)
    requires
        all_concrete(items),
    ensures
        resolve_items_spec(items, root, stack, env, fl) == Ok::<Seq<SVal>, RErr>(items),
    decreases sz_vals(items), 2int,
{
    if items.len() > 0 {
        lemma_sz_pos(items.last());
        lemma_all_concrete(items);
        let pre = items.drop_last();
        lemma_all_concrete(pre);
        assert forall|i: int| 0 <= i < pre.len() implies concrete(#[trigger] pre[i]) by {
            assert(pre[i] == items[i]);
        }
        lemma_resolve_items_resolved(pre, root, stack, env, fl);
        assert(concrete(items[items.len() - 1]));
        law_resolve_resolved(items.last(), root, stack, env, fl);
        assert(pre.push(items.last()) =~= items);
    } else {
        assert(items =~= Seq::<SVal>::empty());
    }
}

proof fn lemma_resolve_members_resolved(m: Seq<(Seq<char>, SVal)>, root: SVal, stack: Seq<Seq<char>>, env: SEnv, fl: SFloats)
    requires
        all_concrete_members(m),
    ensures
        resolve_members_spec(m, root, stack, env, fl) == Ok::<Seq<(Seq<char>, SVal)>, RErr>(m),
    decreases sz_members(m), 2int,
{
    if m.len() > 0 {
        lemma_sz_pos(m.last().1);
        lemma_all_concrete_members(m);
        let pre = m.drop_last();
        lemma_all_concrete_members(pre);
        assert forall|i: int| 0 <= i < pre.len() implies concrete(#[trigger] pre[i].1) by {
            assert(pre[i] == m[i]);
        }
        lemma_resolve_members_resolved(pre, root, stack, env, fl);
        assert(concrete(m[m.len() - 1].1));
        law_resolve_resolved(m.last().1, root, stack, env, fl);
        assert(pre.push(m.last()) =~= m);
    } else {
        assert(m =~= Seq::<(Seq<char>, SVal)>::empty());
    }
}

/// `${path}` that designates a node of the document resolves as that node does (with the
/// substitution on the stack); a node that is already resolved comes back as it is, its type
/// preserved.
pub proof fn law_subst_designates(path: Seq<Seq<char>>, optional: bool, root: SVal, stack: Seq<Seq<char>>, env: SEnv, fl: SFloats)
    requires
        get_path(root, path) is Some,
        !stack.contains(join(path)),
    ensures
        resolve_subst_spec(path, optional, root, stack, env, fl) == resolve_spec(get_path(root, path)->0, root, stack.push(join(path)), env, fl),
        concrete(get_path(root, path)->0) ==> resolve_subst_spec(path, optional, root, stack, env, fl) == Ok::<Option<SVal>, RErr>(Some(get_path(root, path)->0)),
{
    if concrete(get_path(root, path)->0) {
        law_resolve_resolved(get_path(root, path)->0, root, stack.push(join(path)), env, fl);
    }
}

/// `${path}` that designates nothing in the document reads the environment variable of that
/// name; without one, an optional substitution resolves to nothing and another fails.
pub proof fn law_subst_environment(path: Seq<Seq<char>>, optional: bool, root: SVal, stack: Seq<Seq<char>>, env: SEnv, fl: SFloats)
    requires
        get_path(root, path) is None,
        !stack.contains(join(path)),
    ensures
        env_lookup(env, join(path)) matches Some(s) ==> resolve_subst_spec(path, optional, root, stack, env, fl) == Ok::<Option<SVal>, RErr>(Some(SVal::Str(s))),
        env_lookup(env, join(path)) is None && optional ==> resolve_subst_spec(path, optional, root, stack, env, fl) == Ok::<Option<SVal>, RErr>(None),
        env_lookup(env, join(path)) is None && !optional ==> resolve_subst_spec(path, optional, root, stack, env, fl) == Err::<Option<SVal>, RErr>(
            RErr::Subst(subst_message("Cannot resolve variable"@, join(path))),
        ),
{
}

/// A substitution met again while it is being resolved is circular, and fails.
pub proof fn law_subst_circular(path: Seq<Seq<char>>, optional: bool, root: SVal, stack: Seq<Seq<char>>, env: SEnv, fl: SFloats)
    requires
        stack.contains(join(path)),
    ensures
        resolve_subst_spec(path, optional, root, stack, env, fl) == Err::<Option<SVal>, RErr>(
            RErr::Subst(subst_message("circular substitution"@, join(path))),
        ),
{
}

// ---------- concatenation ----------

/// The values written in a concatenation, in order.
pub open spec fn seg_values(segs: Seq<SSeg>) -> Seq<SVal>
    decreases segs.len(),
{
    if segs.len() == 0 {
        Seq::empty()
    } else {
        let rest = seg_values(segs.drop_last());
        match segs.last() {
            SSeg::Val(v) => rest.push(v),
            _ => rest,
        }
    }
}

/// The text a concatenation of strings and raw text spells, its pieces in order.
pub open spec fn seg_text(segs: Seq<SSeg>) -> Seq<char>
    decreases segs.len(),
{
    if segs.len() == 0 {
        Seq::empty()
    } else {
        seg_text(segs.drop_last()) + match segs.last() {
            SSeg::Val(SVal::Str(s)) => s,
            SSeg::Text(t) => t,
            _ => Seq::empty(),
        }
    }
}

/// Every unit of the concatenation is a fully resolved value or raw text.
pub open spec fn literal_units(segs: Seq<SSeg>) -> bool {
    forall|i: int| 0 <= i < segs.len() ==> match #[trigger] segs[i] {
        SSeg::Val(v) => concrete(v),
        SSeg::Text(t) => true,
        SSeg::Sub(..) => false,
    }
}

/// Every text unit of the concatenation is blank.
pub open spec fn blank_texts(segs: Seq<SSeg>) -> bool {
    forall|i: int| 0 <= i < segs.len() ==> (#[trigger] segs[i] matches SSeg::Text(t) ==> is_blank(t))
}

/// Some unit is text that is not blank.
pub open spec fn some_text(segs: Seq<SSeg>) -> bool {
    exists|i: int| 0 <= i < segs.len() && (#[trigger] segs[i] matches SSeg::Text(t) && !is_blank(t))
}

/// The resolved units of a concatenation of literal units: the same units, in order.
proof fn lemma_literal_units(segs: Seq<SSeg>, root: SVal, stack: Seq<Seq<char>>, env: SEnv, fl: SFloats)
    requires
        literal_units(segs),
    ensures
        resolve_units_spec(segs, root, stack, env, fl) matches Ok(units) && present(units) == seg_values(
            segs,
        ) && units.len() == segs.len() && (forall|i: int| 0 <= i < segs.len() ==> match #[trigger] segs[i] {
            SSeg::Text(t) => units[i] == SUnit::Text(t),
            SSeg::Val(v) => units[i] == SUnit::Val(Some(v)),
            SSeg::Sub(..) => false,
        }),
    decreases segs.len(),
{
    if segs.len() > 0 {
        let pre = segs.drop_last();
        assert forall|i: int| 0 <= i < pre.len() implies match #[trigger] pre[i] {
            SSeg::Val(v) => concrete(v),
            SSeg::Text(t) => true,
            SSeg::Sub(..) => false,
        } by {
            assert(pre[i] == segs[i]);
        }
        lemma_literal_units(pre, root, stack, env, fl);
        let out = resolve_units_spec(pre, root, stack, env, fl)->Ok_0;
        let last = segs[segs.len() - 1];
        assert(segs.last() == last);
        match last {
            SSeg::Val(v) => {
                law_resolve_resolved(v, root, stack, env, fl);
            },
            _ => {},
        }
        let units = resolve_units_spec(segs, root, stack, env, fl)->Ok_0;
        assert(units.drop_last() =~= out);
        assert forall|i: int| 0 <= i < segs.len() implies match #[trigger] segs[i] {
            SSeg::Text(t) => units[i] == SUnit::Text(t),
            SSeg::Val(v) => units[i] == SUnit::Val(Some(v)),
            SSeg::Sub(..) => false,
        } by {
            if i < pre.len() {
                assert(pre[i] == segs[i]);
                assert(units[i] == out[i]);
            }
        }
    }
}

proof fn lemma_no_meaningful_text(segs: Seq<SSeg>, units: Seq<SUnit>)
    requires
        units.len() == segs.len(),
        forall|i: int| 0 <= i < segs.len() ==> match #[trigger] segs[i] {
            SSeg::Text(t) => units[i] == SUnit::Text(t),
            SSeg::Val(v) => units[i] == SUnit::Val(Some(v)),
            SSeg::Sub(..) => false,
        },
    ensures
        (exists|k: int| 0 <= k < units.len() && meaningful_text(#[trigger] units[k])) == some_text(segs),
{
    if exists|k: int| 0 <= k < units.len() && meaningful_text(#[trigger] units[k]) {
        let k = choose|k: int| 0 <= k < units.len() && meaningful_text(#[trigger] units[k]);
        match segs[k] {
            SSeg::Text(t) => {
                lemma_trim_empty_iff_blank(t);
                assert(segs[k] matches SSeg::Text(t) && !is_blank(t));
            },
            _ => {},
        }
    }
    if some_text(segs) {
        let k = choose|k: int| 0 <= k < segs.len() && (#[trigger] segs[k] matches SSeg::Text(t) && !is_blank(t));
        match segs[k] {
            SSeg::Text(t) => {
                lemma_trim_empty_iff_blank(t);
                assert(meaningful_text(units[k]));
            },
            _ => {},
        }
    }
}

/// A concatenation of fully resolved arrays, with only blank text between them, resolves to one
/// array: their items, joined in order.
pub proof fn law_concat_arrays(segs: Seq<SSeg>, root: SVal, stack: Seq<Seq<char>>, env: SEnv, fl: SFloats)
    requires
        literal_units(segs),
        blank_texts(segs),
        seg_values(segs).len() > 0,
        forall|k: int| 0 <= k < seg_values(segs).len() ==> #[trigger] seg_values(segs)[k] is Arr,
    ensures
        resolve_spec(SVal::Concat(segs), root, stack, env, fl) == Ok::<Option<SVal>, RErr>(
            Some(SVal::Arr(all_items(seg_values(segs)))),
        ),
{
    lemma_literal_units(segs, root, stack, env, fl);
    let units = resolve_units_spec(segs, root, stack, env, fl)->Ok_0;
    lemma_no_meaningful_text(segs, units);
    let pv = present(units);
    assert(pv[0] is Arr);
    assert(!(forall|k: int| 0 <= k < pv.len() ==> #[trigger] pv[k] is Obj));
}

/// A concatenation of fully resolved objects, with only blank text between them, resolves to
/// their deep merge, each object's members assigned in order over those before it; the result
/// holds the keys of all of them.
pub proof fn law_concat_objects(segs: Seq<SSeg>, root: SVal, stack: Seq<Seq<char>>, env: SEnv, fl: SFloats, k2: Seq<char>)
    requires
        literal_units(segs),
        blank_texts(segs),
        seg_values(segs).len() > 0,
        forall|k: int| 0 <= k < seg_values(segs).len() ==> #[trigger] seg_values(segs)[k] is Obj,
    ensures
        resolve_spec(SVal::Concat(segs), root, stack, env, fl) == Ok::<Option<SVal>, RErr>(
            Some(SVal::Obj(merge_each(Seq::empty(), all_members(seg_values(segs))))),
        ),
        has_key(merge_each(Seq::empty(), all_members(seg_values(segs))), k2) == has_key(
            all_members(seg_values(segs)),
            k2,
        ),
{
    lemma_literal_units(segs, root, stack, env, fl);
    let units = resolve_units_spec(segs, root, stack, env, fl)->Ok_0;
    lemma_no_meaningful_text(segs, units);
    lemma_merge_each_keys(Seq::empty(), all_members(seg_values(segs)), k2);
    lemma_has_key(Seq::<(Seq<char>, SVal)>::empty(), k2);
}

pub proof fn lemma_merge_each_keys(m: Seq<(Seq<char>, SVal)>, inc: Seq<(Seq<char>, SVal)>, k2: Seq<char>)
    ensures
        has_key(merge_each(m, inc), k2) == (has_key(m, k2) || has_key(inc, k2)),
        unique_keys(m) ==> unique_keys(merge_each(m, inc)),
    decreases inc.len(),
{
    if inc.len() > 0 {
        let pre = inc.drop_last();
        let prev = merge_each(m, pre);
        lemma_merge_each_keys(m, pre, k2);
        law_merge_keys(prev, inc.last().0, inc.last().1, k2);
        lemma_has_key(inc, k2);
        lemma_has_key(pre, k2);
        if has_key(inc, k2) {
            let a = choose|a: int| 0 <= a < inc.len() && #[trigger] inc[a].0 == k2;
            if a < pre.len() {
                assert(pre[a] == inc[a]);
            }
        }
        if has_key(pre, k2) {
            let a = choose|a: int| 0 <= a < pre.len() && #[trigger] pre[a].0 == k2;
            assert(pre[a] == inc[a]);
        }
    } else {
        lemma_has_key(inc, k2);
    }
}

proof fn lemma_render_strings(segs: Seq<SSeg>, units: Seq<SUnit>, fl: SFloats)
    requires
        units.len() == segs.len(),
        forall|i: int| 0 <= i < segs.len() ==> match #[trigger] segs[i] {
            SSeg::Text(t) => units[i] == SUnit::Text(t),
            SSeg::Val(v) => units[i] == SUnit::Val(Some(v)) && v is Str,
            SSeg::Sub(..) => false,
        },
    ensures
        render_units(units, fl) == Ok::<Seq<char>, RErr>(seg_text(segs)),
    decreases segs.len(),
{
    if segs.len() > 0 {
        let pre = segs.drop_last();
        let upre = units.drop_last();
        assert forall|i: int| 0 <= i < pre.len() implies match #[trigger] pre[i] {
            SSeg::Text(t) => upre[i] == SUnit::Text(t),
            SSeg::Val(v) => upre[i] == SUnit::Val(Some(v)) && v is Str,
            SSeg::Sub(..) => false,
        } by {
            assert(pre[i] == segs[i]);
            assert(upre[i] == units[i]);
        }
        lemma_render_strings(pre, upre, fl);
        assert(segs.last() == segs[segs.len() - 1]);
        assert(units.last() == units[units.len() - 1]);
    }
}

/// A concatenation of quoted strings and raw text, not all of it blank, makes one string: the
/// pieces in order, with the surrounding whitespace trimmed.
pub proof fn law_concat_strings(segs: Seq<SSeg>, root: SVal, stack: Seq<Seq<char>>, env: SEnv, fl: SFloats)
    requires
        forall|i: int| 0 <= i < segs.len() ==> (#[trigger] segs[i] is Text || segs[i] matches SSeg::Val(SVal::Str(_))),
        seg_values(segs).len() > 0 || some_text(segs),
    ensures
        resolve_spec(SVal::Concat(segs), root, stack, env, fl) == Ok::<Option<SVal>, RErr>(
            Some(SVal::Str(trim(seg_text(segs)))),
        ),
{
    assert forall|i: int| 0 <= i < segs.len() implies match #[trigger] segs[i] {
        SSeg::Val(v) => concrete(v),
        SSeg::Text(t) => true,
        SSeg::Sub(..) => false,
    } by {}
    lemma_literal_units(segs, root, stack, env, fl);
    let units = resolve_units_spec(segs, root, stack, env, fl)->Ok_0;
    lemma_no_meaningful_text(segs, units);
    lemma_render_strings(segs, units, fl);
    let pv = present(units);
    lemma_seg_values_strings(segs);
    if pv.len() > 0 {
        assert(pv[0] is Str);
    }
}

proof fn lemma_seg_values_strings(segs: Seq<SSeg>)
    requires
        forall|i: int| 0 <= i < segs.len() ==> (#[trigger] segs[i] is Text || segs[i] matches SSeg::Val(SVal::Str(_))),
    ensures
        forall|k: int| 0 <= k < seg_values(segs).len() ==> #[trigger] seg_values(segs)[k] is Str,
    decreases segs.len(),
{
    if segs.len() > 0 {
        let pre = segs.drop_last();
        assert forall|i: int| 0 <= i < pre.len() implies (#[trigger] pre[i] is Text || pre[i] matches SSeg::Val(SVal::Str(_))) by {
            assert(pre[i] == segs[i]);
        }
        lemma_seg_values_strings(pre);
        assert(segs.last() == segs[segs.len() - 1]);
    }
}

// ---------- self-reference ----------

/// In the value that overrides `key`, `${key}` stands for the previous value of `key` when that
/// value is fully resolved: as the whole value, and as a unit of a concatenation.
pub proof fn law_self_reference(key: Seq<char>, optional: bool, prior: SVal, segs: Seq<SSeg>, i: int)
    requires
        concrete(prior),
        0 <= i < segs.len(),
        segs[i] == SSeg::Sub(seq![key], optional),
    ensures
        subst_self_spec(SVal::Subst(seq![key], optional), key, prior) == prior,
        subst_self_spec(SVal::Concat(segs), key, prior) matches SVal::Concat(out) && out.len()
            == segs.len() && out[i] == SSeg::Val(prior),
{
    assert(seq![key].drop_first() =~= Seq::<Seq<char>>::empty());
}

/// `key = ${key} "suffix"` over a previous string value appends to it: the new value resolves
/// to the previous string followed by the suffix (trimmed).
pub proof fn law_self_append(
    m: Seq<(Seq<char>, SVal)>,
    key: Seq<char>,
    optional: bool,
    prior: Seq<char>,
    suffix: Seq<char>,
    root: SVal,
    stack: Seq<Seq<char>>,
    env: SEnv,
    fl: SFloats,
)
    requires
        lookup(m, key) == Some(SVal::Str(prior)),
    ensures
        lookup(merged(m, key, SVal::Concat(seq![SSeg::Sub(seq![key], optional), SSeg::Val(SVal::Str(suffix))])), key)
            matches Some(v) && resolve_spec(v, root, stack, env, fl) == Ok::<Option<SVal>, RErr>(
            Some(SVal::Str(trim(prior + suffix))),
        ),
{
    let segs = seq![SSeg::Sub(seq![key], optional), SSeg::Val(SVal::Str(suffix))];
    let v = SVal::Concat(segs);
    let p = SVal::Str(prior);
    law_self_reference(key, optional, p, segs, 0);
    law_merge_override(m, key, v);
    let out = seq![SSeg::Val(p), SSeg::Val(SVal::Str(suffix))];
    assert(subst_self_spec(v, key, p) == SVal::Concat(out)) by {
        assert(subst_self_spec(v, key, p)->Concat_0 =~= out);
    }
    let one = seq![SSeg::Val(p)];
    assert(out.drop_last() =~= one);
    assert(one.drop_last() =~= Seq::<SSeg>::empty());
    assert(seg_text(Seq::<SSeg>::empty()) =~= Seq::<char>::empty());
    assert(seg_values(Seq::<SSeg>::empty()).len() == 0);
    assert(one.last() == SSeg::Val(p));
    assert(out.last() == SSeg::Val(SVal::Str(suffix)));
    assert(seg_text(one) =~= prior);
    assert(seg_text(out) =~= prior + suffix);
    assert(seg_values(one).len() == 1);
    assert(seg_values(out).len() == 2);
    law_concat_strings(out, root, stack, env, fl);
}

// ---------- keys ----------

/// A document that reads holds no object with a repeated key, at any depth: every assignment,
/// dotted, merged or included, goes through the deep merge, which keeps each key once.
pub proof fn law_document_well_keyed(text: Seq<char>, base: Seq<char>, table: Seq<SEntry>)
    ensures
        document_spec(text, base, table) matches Ok(v) ==> well_keyed(v),
{
    lemma_root_well_keyed(document_ctx(table, base), text, 0);
}

/// Resolving a document without repeated keys gives a value without repeated keys.
pub proof fn law_resolution_well_keyed(tree: SVal, env: SEnv, fl: SFloats)
    requires
        well_keyed(tree),
    ensures
        resolved_spec(tree, env, fl) matches Ok(v) ==> well_keyed(v),
{
    lemma_resolve_well_keyed(tree, tree, Seq::empty(), env, fl);
    assert(unique_keys(Seq::<(Seq<char>, SVal)>::empty()));
}

// ---------- included files ----------

/// Supplying more included files changes no reading that did not ask for a file; and a
/// reading asks only for a file that the table lacks, so each request the caller answers adds
/// a new entry.
pub proof fn law_more_files(text: Seq<char>, base: Seq<char>, table: Seq<SEntry>, more: Seq<SEntry>)
    ensures
        !(document_spec(text, base, table) matches Err(SErr::NeedFile(_, _))) ==> document_spec(
            text,
            base,
            table + more,
        ) == document_spec(text, base, table),
        document_spec(text, base, table) matches Err(SErr::NeedFile(b, p)) ==> find_entry_from(
            table,
            b,
            p,
            0,
        ) is None,
{
    let x = document_ctx(table, base);
    let y = document_ctx(table + more, base);
    assert forall|k: int| 0 <= k < x.table.len() implies #[trigger] y.table[k] == x.table[k] && y.avail[k] == x.avail[k] by {}
    assert(supplies_more(x, y));
    lemma_root_more(x, y, text, 0);
}

// ---------- braced root ----------

/// A document that reads, and does not itself start with a braced object, reads as the same
/// object when it is put between braces (`{` and a newline before it, a newline and `}` after
/// it).
pub proof fn law_braced_root(x: PCtx, s: Seq<char>)
    requires
        root_spec(x, s, 0) is Ok,
        !at(s, skip_separators_from(s, 0), '{'),
    ensures
        root_spec(x, wrap(s), 0) is Ok,
        root_spec(x, wrap(s), 0)->Ok_0.0 == root_spec(x, s, 0)->Ok_0.0,
{
    lemma_root_wrap(x, s);
}

// ---------- what resolution drops ----------

/// An array item that resolves to nothing (an optional substitution with no target) is dropped:
/// the items resolve as if it were not there; an item that resolves to a value comes after the
/// values of the items before it.
pub proof fn law_array_item_dropped(items: Seq<SVal>, x: SVal, root: SVal, stack: Seq<Seq<char>>, env: SEnv, fl: SFloats)
    ensures
        resolve_spec(x, root, stack, env, fl) == Ok::<Option<SVal>, RErr>(None) ==> resolve_items_spec(
            items.push(x),
            root,
            stack,
            env,
            fl,
        ) == resolve_items_spec(items, root, stack, env, fl),
        resolve_spec(x, root, stack, env, fl) matches Ok(Some(v)) ==> (resolve_items_spec(items, root, stack, env, fl) matches Ok(out) ==> resolve_items_spec(
            items.push(x),
            root,
            stack,
            env,
            fl,
        ) == Ok::<Seq<SVal>, RErr>(out.push(v))),
{
    assert(items.push(x).drop_last() =~= items);
}

/// `${?path}` with no target in the document and no environment variable of that name leaves
/// no trace: as an array item it is dropped, as a member's value the member is dropped.
pub proof fn law_absent_optional_omitted(
    items: Seq<SVal>,
    m: Seq<(Seq<char>, SVal)>,
    k: Seq<char>,
    path: Seq<Seq<char>>,
    root: SVal,
    stack: Seq<Seq<char>>,
    env: SEnv,
    fl: SFloats,
)
    requires
        get_path(root, path) is None,
        env_lookup(env, join(path)) is None,
        !stack.contains(join(path)),
    ensures
        resolve_spec(SVal::Arr(items.push(SVal::Subst(path, true))), root, stack, env, fl) == resolve_spec(
            SVal::Arr(items),
            root,
            stack,
            env,
            fl,
        ),
        resolve_spec(SVal::Obj(m.push((k, SVal::Subst(path, true)))), root, stack, env, fl) == resolve_spec(
            SVal::Obj(m),
            root,
            stack,
            env,
            fl,
        ),
{
    law_array_item_dropped(items, SVal::Subst(path, true), root, stack, env, fl);
    assert(m.push((k, SVal::Subst(path, true))).drop_last() =~= m);
}

// ---------- floats in strings ----------

proof fn lemma_float_lookup_at(fl: SFloats, t: Seq<char>, i: int)
    requires
        0 <= i < fl.len(),
        fl[i].0 == t,
        forall|j: int| 0 <= j < i ==> (#[trigger] fl[j]).0 != t,
    ensures
        float_lookup(fl, t) == fl[i].1,
    decreases i,
{
    if i > 0 {
        assert forall|j: int| 0 <= j < i - 1 implies (#[trigger] fl.drop_first()[j]).0 != t by {
            assert(fl.drop_first()[j] == fl[j + 1]);
        }
        assert(fl[0].0 != t);
        lemma_float_lookup_at(fl.drop_first(), t, i - 1);
    }
}

/// In a string concatenation a float literal reads as the caller's table renders it (the first
/// entry for that literal), not as it was written.
pub proof fn law_float_rendering(
    t: Seq<char>,
    r: Seq<char>,
    text: Seq<char>,
    i: int,
    fl: SFloats,
    root: SVal,
    stack: Seq<Seq<char>>,
    env: SEnv,
)
    requires
        0 <= i < fl.len(),
        fl[i] == (t, Some(r)),
        forall|j: int| 0 <= j < i ==> (#[trigger] fl[j]).0 != t,
    ensures
        render_spec(SVal::Float(t), fl) == Ok::<Seq<char>, RErr>(r),
        resolve_spec(SVal::Concat(seq![SSeg::Val(SVal::Float(t)), SSeg::Text(text)]), root, stack, env, fl)
            == Ok::<Option<SVal>, RErr>(Some(SVal::Str(trim(r + text)))),
{
    lemma_float_lookup_at(fl, t, i);
    let f = SVal::Float(t);
    let segs = seq![SSeg::Val(f), SSeg::Text(text)];
    let one = seq![SSeg::Val(f)];
    assert(segs.drop_last() =~= one);
    assert(one.drop_last() =~= Seq::<SSeg>::empty());
    assert(segs.last() == SSeg::Text(text));
    assert(one.last() == SSeg::Val(f));
    law_resolve_resolved(f, root, stack, env, fl);
    let u1 = seq![SUnit::Val(Some(f))];
    let units = seq![SUnit::Val(Some(f)), SUnit::Text(text)];
    assert(resolve_units_spec(Seq::<SSeg>::empty(), root, stack, env, fl) == Ok::<Seq<SUnit>, RErr>(Seq::empty()));
    assert(resolve_units_spec(one, root, stack, env, fl) == Ok::<Seq<SUnit>, RErr>(u1)) by {
        assert(Seq::<SUnit>::empty().push(SUnit::Val(Some(f))) =~= u1);
    }
    assert(resolve_units_spec(segs, root, stack, env, fl) == Ok::<Seq<SUnit>, RErr>(units)) by {
        assert(u1.push(SUnit::Text(text)) =~= units);
    }
    assert(units.drop_last() =~= u1);
    assert(u1.drop_last() =~= Seq::<SUnit>::empty());
    assert(present(Seq::<SUnit>::empty()) =~= Seq::<SVal>::empty());
    assert(present(u1) =~= seq![f]);
    assert(present(units) =~= seq![f]);
    assert(render_units(Seq::<SUnit>::empty(), fl) == Ok::<Seq<char>, RErr>(Seq::empty()));
    assert(render_units(u1, fl) == Ok::<Seq<char>, RErr>(r)) by {
        assert(Seq::<char>::empty() + r =~= r);
    }
    assert(render_units(units, fl) == Ok::<Seq<char>, RErr>(r + text));
    let pv = present(units);
    assert(pv[0] == f);
    assert(!(forall|k: int| 0 <= k < pv.len() ==> #[trigger] pv[k] is Obj));
    assert(!(forall|k: int| 0 <= k < pv.len() ==> #[trigger] pv[k] is Arr));
}

// ---------- scalars ----------

/// Unquoted text that is a float literal, and not an integer literal, is typed as a float: a
/// sign, a fraction or an exponent changes nothing to that.
pub proof fn law_float_literal_typed(t: Seq<char>)
    requires
        is_float_literal(t),
        !is_int_token(t),
    ensures
        classify_spec(t) == SVal::Float(t),
{
    lemma_hocon_float_pattern(t);
    let (d, e) = choose|d: int, e: int| crate::scalar::float_split(t, d, e);
    let i = crate::scalar::sign_len(t);
    // a float literal holds a digit, which no keyword does
    let k: int = if d > i {
        i
    } else {
        d + 1
    };
    if d > i {
        assert(t.subrange(i, d)[0] == t[i]);
    } else {
        assert(t.subrange(d + 1, e)[0] == t[d + 1]);
    }
    assert(crate::text::is_ascii_digit(t[k]));
    assert(crate::text::ascii_lower(t[k]) == t[k]);
    assert(!crate::text::eq_ignore_ascii_case(t, crate::scalar::seq_true())) by {
        if t.len() == 4 {
            assert(crate::text::ascii_lower(crate::scalar::seq_true()[k]) != t[k]);
        }
    }
    assert(!crate::text::eq_ignore_ascii_case(t, crate::scalar::seq_false())) by {
        if t.len() == 5 {
            assert(crate::text::ascii_lower(crate::scalar::seq_false()[k]) != t[k]);
        }
    }
    assert(!crate::text::eq_ignore_ascii_case(t, crate::scalar::seq_null())) by {
        if t.len() == 4 {
            assert(crate::text::ascii_lower(crate::scalar::seq_null()[k]) != t[k]);
        }
    }
}

// ---------- quoted strings ----------

/// Inside a quoted string, `\\` stands for one backslash, `\"` for a quote, `\/` for a slash,
/// `\n`, `\t` and `\r` for a newline, a tab and a carriage return; after a backslash any other
/// character stands for itself with the backslash kept. Whatever follows reads as it would
/// after that character.
pub proof fn law_quoted_escapes(c: Seq<char>, j: int, acc: Seq<char>)
    requires
        0 <= j,
        j + 1 < c.len(),
        c[j] == '\\',
    ensures
        c[j + 1] == '\\' ==> quoted_from(c, j, acc) == quoted_from(c, j + 2, acc.push('\\')),
        c[j + 1] == '"' ==> quoted_from(c, j, acc) == quoted_from(c, j + 2, acc.push('"')),
        c[j + 1] == '/' ==> quoted_from(c, j, acc) == quoted_from(c, j + 2, acc.push('/')),
        c[j + 1] == 'n' ==> quoted_from(c, j, acc) == quoted_from(c, j + 2, acc.push('\n')),
        c[j + 1] == 't' ==> quoted_from(c, j, acc) == quoted_from(c, j + 2, acc.push('\t')),
        c[j + 1] == 'r' ==> quoted_from(c, j, acc) == quoted_from(c, j + 2, acc.push('\r')),
        !(c[j + 1] == '\\' || c[j + 1] == '"' || c[j + 1] == '/' || c[j + 1] == 'n' || c[j + 1] == 't'
            || c[j + 1] == 'r') ==> quoted_from(c, j, acc) == quoted_from(c, j + 2, acc.push('\\').push(c[j + 1])),
{
    let e = c[j + 1];
    assert(acc + seq!['\\'] =~= acc.push('\\'));
    assert(acc + seq!['"'] =~= acc.push('"'));
    assert(acc + seq!['/'] =~= acc.push('/'));
    assert(acc + seq!['\n'] =~= acc.push('\n'));
    assert(acc + seq!['\t'] =~= acc.push('\t'));
    assert(acc + seq!['\r'] =~= acc.push('\r'));
    assert(acc + seq!['\\', e] =~= acc.push('\\').push(e));
}

// ---------- what an included file reads as ----------

/// The context in which entry `k` of the table is read: from the directory of that file, with
/// the entry itself no longer enterable.
pub open spec fn entry_ctx(x: PCtx, k: int) -> PCtx {
    PCtx { table: x.table, avail: x.avail.update(k, false), base: x.table[k].3 }
}

/// An inclusion directive for a file that the table holds with its text reads that text as a
/// document of its own directory (so that the file's own inclusions, and the files it asks
/// for, are relative to it, not to the including document): an error there is the
/// directive's error, and otherwise the file's members are assigned in place, in order.
pub proof fn law_inclusion_reads_entry(
    x: PCtx,
    c: Seq<char>,
    i: int,
    acc: Seq<(Seq<char>, SVal)>,
    path: Seq<char>,
    required: bool,
    k: int,
    text: Seq<char>,
)
    requires
        0 <= i <= c.len(),
        include_spec_spec(trim(c.subrange(i, raw_end_from(c, i)))) == Ok::<(Seq<char>, bool, IncludeKind), SErr>(
            (path, required, IncludeKind::File),
        ),
        find_entry_from(x.table, x.base, path, 0) == Some(k),
        0 <= k < x.avail.len(),
        x.avail[k],
        x.table[k].2 == Some(text),
    ensures
        root_spec(entry_ctx(x, k), text, 0) matches Err(e) ==> inclusion_spec(x, c, i, acc) == Err::<(Seq<(Seq<char>, SVal)>, int), SErr>(e),
        root_spec(entry_ctx(x, k), text, 0) matches Ok((SVal::Obj(sub), _)) ==> inclusion_spec(x, c, i, acc) == Ok::<(Seq<(Seq<char>, SVal)>, int), SErr>(
            (merge_each(acc, sub), raw_end_from(c, i)),
        ),
        root_spec(entry_ctx(x, k), text, 0) matches Err(SErr::NeedFile(b, q)) ==> inclusion_spec(x, c, i, acc)
            == Err::<(Seq<(Seq<char>, SVal)>, int), SErr>(SErr::NeedFile(b, q)),
{
}

// ---------- more of scalars ----------

/// An integer literal is typed as the integer it denotes when that fits in `i64`, and kept as
/// its text (a big integer) when it does not.
pub proof fn law_int_literal_typed(t: Seq<char>)
    requires
        is_int_token(t),
    ensures
        i64::MIN <= crate::scalar::int_token_value(t) <= i64::MAX ==> classify_spec(t) == SVal::Int(
            crate::scalar::int_token_value(t),
        ),
        !(i64::MIN <= crate::scalar::int_token_value(t) <= i64::MAX) ==> classify_spec(t) == SVal::BigInt(t),
{
    let k = crate::scalar::sign_len(t);
    assert(crate::text::is_ascii_digit(t[k]));
    assert(crate::text::ascii_lower(t[k]) == t[k]);
    assert(!crate::text::eq_ignore_ascii_case(t, crate::scalar::seq_true())) by {
        if t.len() == 4 {
            assert(crate::text::ascii_lower(crate::scalar::seq_true()[k]) != t[k]);
        }
    }
    assert(!crate::text::eq_ignore_ascii_case(t, crate::scalar::seq_false())) by {
        if t.len() == 5 {
            assert(crate::text::ascii_lower(crate::scalar::seq_false()[k]) != t[k]);
        }
    }
    assert(!crate::text::eq_ignore_ascii_case(t, crate::scalar::seq_null())) by {
        if t.len() == 4 {
            assert(crate::text::ascii_lower(crate::scalar::seq_null()[k]) != t[k]);
        }
    }
}

/// `true`, `false` and `null`, in any mix of letter cases, are typed as the boolean or null
/// they name.
pub proof fn law_keywords_typed(t: Seq<char>)
    ensures
        crate::text::eq_ignore_ascii_case(t, seq!['t', 'r', 'u', 'e']) ==> classify_spec(t) == SVal::Bool(true),
        crate::text::eq_ignore_ascii_case(t, seq!['f', 'a', 'l', 's', 'e']) ==> classify_spec(t) == SVal::Bool(false),
        crate::text::eq_ignore_ascii_case(t, seq!['n', 'u', 'l', 'l']) ==> classify_spec(t) == SVal::Null,
{
    assert(crate::scalar::seq_true() =~= seq!['t', 'r', 'u', 'e']);
    assert(crate::scalar::seq_false() =~= seq!['f', 'a', 'l', 's', 'e']);
    assert(crate::scalar::seq_null() =~= seq!['n', 'u', 'l', 'l']);
    if crate::text::eq_ignore_ascii_case(t, seq!['f', 'a', 'l', 's', 'e']) {
        assert(!crate::text::eq_ignore_ascii_case(t, seq!['t', 'r', 'u', 'e']));
    }
    if crate::text::eq_ignore_ascii_case(t, seq!['n', 'u', 'l', 'l']) {
        assert(crate::text::ascii_lower(t[0]) == 'n');
        assert(!crate::text::eq_ignore_ascii_case(t, seq!['t', 'r', 'u', 'e']));
        assert(!crate::text::eq_ignore_ascii_case(t, seq!['f', 'a', 'l', 's', 'e']));
    }
}

proof fn lemma_nat_text(n: nat)
    ensures
        crate::resolve::nat_text(n).len() >= 1,
        crate::scalar::all_digits(crate::resolve::nat_text(n)),
        crate::scalar::digits_value(crate::resolve::nat_text(n)) == n,
        n > 0 ==> crate::resolve::nat_text(n)[0] != '0',
    decreases n,
{
    let s = crate::resolve::nat_text(n);
    let d = (n % 10) as nat;
    assert(crate::scalar::digit_val(crate::resolve::digit_char(d)) == d) by {
        assert(d < 10);
    }
    if n < 10 {
        assert(s.drop_last() =~= Seq::<char>::empty());
        assert(d == n);
        assert(s.last() == crate::resolve::digit_char(n));
        assert(crate::scalar::digits_value(Seq::<char>::empty()) == 0);
        assert(crate::scalar::digits_value(s) == crate::scalar::digits_value(s.drop_last()) * 10
            + crate::scalar::digit_val(s.last()));
    } else {
        assert(s.last() == crate::resolve::digit_char(d));
        let p = crate::resolve::nat_text(n / 10);
        lemma_nat_text(n / 10);
        assert(s.drop_last() =~= p);
        assert(s[0] == p[0]);
        assert forall|k: int| 0 <= k < s.len() implies crate::text::is_ascii_digit(#[trigger] s[k]) by {
            if k < p.len() {
                assert(s[k] == p[k]);
            }
        }
        assert(n == (n / 10) * 10 + n % 10) by (nonlinear_arith);
        assert(crate::scalar::digits_value(s) == crate::scalar::digits_value(s.drop_last()) * 10
            + crate::scalar::digit_val(s.last()));
        assert(crate::scalar::digits_value(s) == (n / 10) * 10 + d);
    }
}

/// An integer renders in a string as its decimal digits, with `-` before a negative one and no
/// leading zero: reading the rendering back as an integer literal gives the integer.
pub proof fn law_int_rendering(i: int)
    ensures
        is_int_token(crate::resolve::int_text(i)),
        crate::scalar::int_token_value(crate::resolve::int_text(i)) == i,
        crate::resolve::int_text(i)[crate::scalar::sign_len(crate::resolve::int_text(i))] == '0'
            ==> i == 0,
{
    let r = crate::resolve::int_text(i);
    if i < 0 {
        let n = (-i) as nat;
        lemma_nat_text(n);
        let d = crate::resolve::nat_text(n);
        assert(r =~= seq!['-'] + d);
        assert(r.skip(1) =~= d);
        assert(r[1] == d[0]);
        assert forall|k: int| 1 <= k < r.len() implies crate::text::is_ascii_digit(#[trigger] r[k]) by {
            assert(r[k] == d[k - 1]);
        }
    } else {
        lemma_nat_text(i as nat);
        let d = crate::resolve::nat_text(i as nat);
        assert(r.skip(0) =~= d);
        if i > 0 {
            assert(d[0] != '0');
            assert(!crate::scalar::is_sign(d[0]));
        } else {
            assert(d[0] == '0');
        }
    }
}

/// In a string, `true` and `false` render as `True` and `False`, and null renders as nothing.
pub proof fn law_scalar_rendering(fl: SFloats)
    ensures
        render_spec(SVal::Bool(true), fl) == Ok::<Seq<char>, RErr>(seq!['T', 'r', 'u', 'e']),
        render_spec(SVal::Bool(false), fl) == Ok::<Seq<char>, RErr>(seq!['F', 'a', 'l', 's', 'e']),
        render_spec(SVal::Null, fl) == Ok::<Seq<char>, RErr>(Seq::empty()),
{
}

// ---------- members dropped by resolution ----------

/// A member whose whole value is a substitution that resolves to null is dropped; a member
/// whose value is null as written stays.
pub proof fn law_member_null_substitution(
    m: Seq<(Seq<char>, SVal)>,
    k: Seq<char>,
    path: Seq<Seq<char>>,
    optional: bool,
    root: SVal,
    stack: Seq<Seq<char>>,
    env: SEnv,
    fl: SFloats,
)
    requires
        resolve_subst_spec(path, optional, root, stack, env, fl) == Ok::<Option<SVal>, RErr>(Some(SVal::Null)),
    ensures
        resolve_members_spec(m.push((k, SVal::Subst(path, optional))), root, stack, env, fl) == resolve_members_spec(
            m,
            root,
            stack,
            env,
            fl,
        ),
        resolve_members_spec(m, root, stack, env, fl) matches Ok(out) ==> resolve_members_spec(
            m.push((k, SVal::Null)),
            root,
            stack,
            env,
            fl,
        ) == Ok::<Seq<(Seq<char>, SVal)>, RErr>(out.push((k, SVal::Null))),
{
    let e1 = (k, SVal::Subst(path, optional));
    let e2 = (k, SVal::Null);
    assert(m.push(e1).drop_last() =~= m);
    assert(m.push(e2).drop_last() =~= m);
    assert(m.push(e1).last() == e1);
    assert(m.push(e2).last() == e2);
    assert(resolve_spec(SVal::Subst(path, optional), root, stack, env, fl) == resolve_subst_spec(path, optional, root, stack, env, fl));
    assert(resolve_spec(SVal::Null, root, stack, env, fl) == Ok::<Option<SVal>, RErr>(Some(SVal::Null)));
}

// ---------- comments and keys ----------

/// A comment (`#`, or `//`) runs to the end of its line: skipping it passes exactly the
/// characters up to and including the next newline (or the end of the text), and skipping
/// separators or blanks from it goes on from there.
pub proof fn law_comment_to_end_of_line(c: Seq<char>, i: int)
    requires
        0 <= i < c.len(),
        c[i] == '#' || (c[i] == '/' && i + 1 < c.len() && c[i + 1] == '/'),
    ensures
        i < crate::lexer::skip_to_eol_from(c, i) <= c.len(),
        forall|k: int| i <= k < crate::lexer::skip_to_eol_from(c, i) - 1 ==> #[trigger] c[k] != '\n',
        c[crate::lexer::skip_to_eol_from(c, i) - 1] == '\n' || crate::lexer::skip_to_eol_from(c, i) == c.len(),
        skip_separators_from(c, i) == skip_separators_from(c, crate::lexer::skip_to_eol_from(c, i)),
        crate::lexer::skip_inline_from(c, i) == crate::lexer::skip_inline_from(c, crate::lexer::skip_to_eol_from(c, i)),
{
    lemma_eol_scan(c, i);
}

proof fn lemma_eol_scan(c: Seq<char>, i: int)
    requires
        0 <= i < c.len(),
    ensures
        i < crate::lexer::skip_to_eol_from(c, i) <= c.len(),
        forall|k: int| i <= k < crate::lexer::skip_to_eol_from(c, i) - 1 ==> #[trigger] c[k] != '\n',
        c[crate::lexer::skip_to_eol_from(c, i) - 1] == '\n' || crate::lexer::skip_to_eol_from(c, i) == c.len(),
    decreases c.len() - i,
{
    if c[i] != '\n' {
        if i + 1 < c.len() {
            lemma_eol_scan(c, i + 1);
        } else {
            assert(crate::lexer::skip_to_eol_from(c, i + 1) == i + 1);
        }
    }
}

/// An unquoted key holds no whitespace, no `=`, `:`, brace, bracket or comma, and no `#`; it
/// is the text up to the first such character (or `+=`, or `//`), which it does not take.
pub proof fn law_unquoted_key(c: Seq<char>, i: int)
    requires
        0 <= i < c.len(),
        c[i] != '"',
    ensures
        crate::lexer::key_spec(c, i) matches Ok(((k, quoted), j)) ==> {
            &&& !quoted
            &&& i < j <= c.len()
            &&& k == c.subrange(i, j)
            &&& forall|q: int| 0 <= q < k.len() ==> !crate::text::is_ws(#[trigger] k[q]) && k[q] != '=' && k[q] != ':'
                && k[q] != '{' && k[q] != '}' && k[q] != '[' && k[q] != ']' && k[q] != ',' && k[q] != '#'
            &&& (j == c.len() || crate::text::is_ws(c[j]) || c[j] == '=' || c[j] == ':' || c[j] == '{' || c[j] == '}'
                || c[j] == '[' || c[j] == ']' || c[j] == ',' || c[j] == '#' || (c[j] == '+' && at(c, j + 1, '='))
                || (c[j] == '/' && at(c, j + 1, '/')))
        },
{
    crate::lexer::lemma_key_end(c, i);
    lemma_key_scan(c, i);
    let j = crate::lexer::key_end_from(c, i);
    let k = c.subrange(i, j);
    assert forall|q: int| 0 <= q < k.len() implies !crate::text::is_ws(#[trigger] k[q]) && k[q] != '='
        && k[q] != ':' && k[q] != '{' && k[q] != '}' && k[q] != '[' && k[q] != ']' && k[q] != ','
        && k[q] != '#' by {
        assert(k[q] == c[i + q]);
        assert(!crate::lexer::key_stop(c, i + q));
    }
    if j < c.len() {
        assert(crate::lexer::key_stop(c, j));
    }
}

proof fn lemma_key_scan(c: Seq<char>, k: int)
    requires
        0 <= k <= c.len(),
    ensures
        forall|q: int| k <= q < crate::lexer::key_end_from(c, k) ==> !crate::lexer::key_stop(c, q),
        crate::lexer::key_end_from(c, k) < c.len() ==> crate::lexer::key_stop(c, crate::lexer::key_end_from(c, k)),
    decreases c.len() - k,
{
    if k < c.len() && !crate::lexer::key_stop(c, k) {
        lemma_key_scan(c, k + 1);
    }
}

// ---------- the environment ----------

/// `${path}` with no target in the document reads the first environment variable of that name.
pub proof fn law_environment_first(
    path: Seq<Seq<char>>,
    optional: bool,
    i: int,
    root: SVal,
    stack: Seq<Seq<char>>,
    env: SEnv,
    fl: SFloats,
)
    requires
        get_path(root, path) is None,
        !stack.contains(join(path)),
        0 <= i < env.len(),
        env[i].0 == join(path),
        forall|j: int| 0 <= j < i ==> (#[trigger] env[j]).0 != join(path),
    ensures
        resolve_subst_spec(path, optional, root, stack, env, fl) == Ok::<Option<SVal>, RErr>(Some(SVal::Str(env[i].1))),
{
    lemma_env_lookup_at(env, join(path), i);
}

proof fn lemma_env_lookup_at(env: SEnv, key: Seq<char>, i: int)
    requires
        0 <= i < env.len(),
        env[i].0 == key,
        forall|j: int| 0 <= j < i ==> (#[trigger] env[j]).0 != key,
    ensures
        env_lookup(env, key) == Some(env[i].1),
    decreases i,
{
    if i > 0 {
        assert forall|j: int| 0 <= j < i - 1 implies (#[trigger] env.drop_first()[j]).0 != key by {
            assert(env.drop_first()[j] == env[j + 1]);
        }
        assert(env[0].0 != key);
        lemma_env_lookup_at(env.drop_first(), key, i - 1);
    }
}

// ---------- values in a deep merge ----------

proof fn lemma_assign_fuel(m: Seq<(Seq<char>, SVal)>, k: Seq<char>, w: SVal, fuel: nat)
    requires
        concrete(w),
        !(w is Obj),
    ensures
        lookup(merge_spec(m, k, w, fuel), k) == Some(w),
{
    let k2 = k;
    let r = merge_spec(m, k, w, fuel);
    lemma_merge_spec_shape(m, k, w, fuel);
    lemma_find_key(m, k);
    lemma_find_key(m, k2);
    lemma_find_key(r, k);
    lemma_find_key(r, k2);
    match find_key(m, k) {
        None => {
            assert(r == m.push((k, w)));
            assert(r[m.len() as int].0 == k);
            if let Some(j) = find_key(r, k) {
                if j < m.len() {
                    assert(r[j] == m[j]);
                }
            }
            match (find_key(m, k2), find_key(r, k2)) {
                (Some(a), Some(b)) => {
                    assert(r[a] == m[a]);
                    if b < a {
                        assert(r[b] == m[b]);
                    }
                },
                (Some(a), None) => {
                    assert(r[a] == m[a]);
                },
                (None, Some(b)) => {
                    if b < m.len() {
                        assert(r[b] == m[b]);
                    }
                },
                _ => {},
            }
        },
        Some(i) => {
            assert(subst_self_spec(w, k, m[i].1) == w);
            assert(r == m.update(i, (m[i].0, w)));
            if let Some(j) = find_key(r, k) {
                if j < i {
                    assert(r[j] == m[j]);
                }
                if j > i {
                    assert(r[i].0 == k);
                }
            }
            assert(r[i].0 == k);
            match (find_key(m, k2), find_key(r, k2)) {
                (Some(a), Some(b)) => {
                    if a < b {
                        assert(r[a] == m[a]);
                    }
                    if b < a {
                        assert(r[b] == m[b]);
                    }
                },
                (Some(a), None) => {
                    assert(r[a] == m[a]);
                },
                (None, Some(b)) => {
                    assert(r[b] == m[b]);
                },
                _ => {},
            }
        },
    }
}

proof fn lemma_other_keys_fuel(m: Seq<(Seq<char>, SVal)>, k: Seq<char>, w: SVal, fuel: nat, k2: Seq<char>)
    requires
        k2 != k,
    ensures
        lookup(merge_spec(m, k, w, fuel), k2) == lookup(m, k2),
{
    let r = merge_spec(m, k, w, fuel);
    lemma_merge_spec_shape(m, k, w, fuel);
    lemma_find_key(m, k);
    lemma_find_key(m, k2);
    lemma_find_key(r, k2);
    if has_key(m, k) {
        let i = find_key(m, k)->0;
        assert(r[i].0 == k);
        match (find_key(m, k2), find_key(r, k2)) {
            (Some(a), Some(b)) => {
                if a < b {
                    assert(r[a] == m[a]);
                }
                if b < a {
                    assert(r[b] == m[b]);
                }
            },
            (Some(a), None) => {
                assert(r[a] == m[a]);
            },
            (None, Some(b)) => {
                assert(r[b] == m[b]);
            },
            _ => {},
        }
    } else {
        match (find_key(m, k2), find_key(r, k2)) {
            (Some(a), Some(b)) => {
                assert(r[a] == m[a]);
                if b < a {
                    assert(r[b] == m[b]);
                }
            },
            (Some(a), None) => {
                assert(r[a] == m[a]);
            },
            (None, Some(b)) => {
                if b < m.len() {
                    assert(r[b] == m[b]);
                }
            },
            _ => {},
        }
    }
}

proof fn lemma_merge_all_last_wins(
    ex: Seq<(Seq<char>, SVal)>,
    inc: Seq<(Seq<char>, SVal)>,
    fuel: nat,
    a: int,
)
    requires
        0 <= a < inc.len(),
        concrete(inc[a].1),
        !(inc[a].1 is Obj),
        forall|b: int| a < b < inc.len() ==> (#[trigger] inc[b]).0 != inc[a].0,
    ensures
        lookup(merge_all_spec(ex, inc, fuel), inc[a].0) == Some(inc[a].1),
    decreases inc.len(),
{
    let pre = inc.drop_last();
    let last = inc.last();
    assert(last == inc[inc.len() - 1]);
    if a == inc.len() - 1 {
        lemma_assign_fuel(merge_all_spec(ex, pre, fuel), last.0, last.1, fuel);
    } else {
        assert(pre[a] == inc[a]);
        assert forall|b: int| a < b < pre.len() implies (#[trigger] pre[b]).0 != pre[a].0 by {
            assert(pre[b] == inc[b]);
        }
        lemma_merge_all_last_wins(ex, pre, fuel, a);
        lemma_other_keys_fuel(merge_all_spec(ex, pre, fuel), last.0, last.1, fuel, inc[a].0);
    }
}

/// Assigning an object over an object merges the incoming members into the previous ones, the
/// incoming ones winning: a key whose last incoming value is a resolved non-object value holds
/// that value afterwards, whatever it held before.
pub proof fn law_merge_deep_incoming_wins(m: Seq<(Seq<char>, SVal)>, k: Seq<char>, v: SVal, a: int)
    requires
        lookup(m, k) matches Some(SVal::Obj(_)),
        subst_self_spec(v, k, lookup(m, k)->0) matches SVal::Obj(inc) && 0 <= a < inc.len() && concrete(
            inc[a].1,
        ) && !(inc[a].1 is Obj) && (forall|b: int| a < b < inc.len() ==> (#[trigger] inc[b]).0 != inc[a].0),
    ensures
        lookup(merged(m, k, v), k) matches Some(SVal::Obj(r)) && lookup(r, subst_self_spec(v, k, lookup(m, k)->0)->Obj_0[a].0)
            == Some(subst_self_spec(v, k, lookup(m, k)->0)->Obj_0[a].1),
{
    lemma_find_key(m, k);
    let i = find_key(m, k)->0;
    let ex = m[i].1->Obj_0;
    let inc = subst_self_spec(v, k, m[i].1)->Obj_0;
    let fuel = merge_fuel(m, v);
    assert(fuel > 0);
    let r = merged(m, k, v);
    let nm = merge_all_spec(ex, inc, (fuel - 1) as nat);
    assert(r == m.update(i, (m[i].0, SVal::Obj(nm))));
    lemma_merge_all_last_wins(ex, inc, (fuel - 1) as nat, a);
    lemma_find_key(r, k);
    assert(r[i].0 == k);
    assert(find_key(r, k) == Some(i)) by {
        if let Some(j) = find_key(r, k) {
            if j < i {
                assert(r[j] == m[j]);
            }
        }
    }
}

proof fn lemma_merge_each_last_wins(m: Seq<(Seq<char>, SVal)>, inc: Seq<(Seq<char>, SVal)>, a: int)
    requires
        0 <= a < inc.len(),
        concrete(inc[a].1),
        !(inc[a].1 is Obj),
        forall|b: int| a < b < inc.len() ==> (#[trigger] inc[b]).0 != inc[a].0,
    ensures
        lookup(merge_each(m, inc), inc[a].0) == Some(inc[a].1),
    decreases inc.len(),
{
    let pre = inc.drop_last();
    let last = inc.last();
    assert(last == inc[inc.len() - 1]);
    let prev = merge_each(m, pre);
    if a == inc.len() - 1 {
        lemma_assign_fuel(prev, last.0, last.1, merge_fuel(prev, last.1));
    } else {
        assert(pre[a] == inc[a]);
        assert forall|b: int| a < b < pre.len() implies (#[trigger] pre[b]).0 != pre[a].0 by {
            assert(pre[b] == inc[b]);
        }
        lemma_merge_each_last_wins(m, pre, a);
        lemma_other_keys_fuel(prev, last.0, last.1, merge_fuel(prev, last.1), inc[a].0);
    }
}

/// `{...} {...}`: in a concatenation of two resolved objects the second one wins: a key that
/// it holds once, with a resolved non-object value, has that value in the result.
pub proof fn law_concat_second_object_wins(
    a: Seq<(Seq<char>, SVal)>,
    b: Seq<(Seq<char>, SVal)>,
    j: int,
    root: SVal,
    stack: Seq<Seq<char>>,
    env: SEnv,
    fl: SFloats,
)
    requires
        concrete(SVal::Obj(a)),
        concrete(SVal::Obj(b)),
        0 <= j < b.len(),
        !(b[j].1 is Obj),
        forall|q: int| j < q < b.len() ==> (#[trigger] b[q]).0 != b[j].0,
    ensures
        resolve_spec(SVal::Concat(seq![SSeg::Val(SVal::Obj(a)), SSeg::Val(SVal::Obj(b))]), root, stack, env, fl)
            matches Ok(Some(SVal::Obj(r))) && lookup(r, b[j].0) == Some(b[j].1),
{
    let segs = seq![SSeg::Val(SVal::Obj(a)), SSeg::Val(SVal::Obj(b))];
    let one = seq![SSeg::Val(SVal::Obj(a))];
    assert(segs.drop_last() =~= one);
    assert(one.drop_last() =~= Seq::<SSeg>::empty());
    assert(segs.last() == SSeg::Val(SVal::Obj(b)));
    assert(one.last() == SSeg::Val(SVal::Obj(a)));
    assert(seg_values(Seq::<SSeg>::empty()) =~= Seq::<SVal>::empty());
    assert(seg_values(one) =~= seq![SVal::Obj(a)]);
    assert(seg_values(segs) =~= seq![SVal::Obj(a), SVal::Obj(b)]);
    assert forall|i: int| 0 <= i < segs.len() implies match #[trigger] segs[i] {
        SSeg::Val(v) => concrete(v),
        SSeg::Text(t) => true,
        SSeg::Sub(..) => false,
    } by {}
    law_concat_objects(segs, root, stack, env, fl, b[j].0);
    let vs = seq![SVal::Obj(a), SVal::Obj(b)];
    assert(vs.drop_last() =~= seq![SVal::Obj(a)]);
    assert(seq![SVal::Obj(a)].drop_last() =~= Seq::<SVal>::empty());
    assert(all_members(Seq::<SVal>::empty()) =~= Seq::<(Seq<char>, SVal)>::empty());
    assert(all_members(seq![SVal::Obj(a)]) =~= a);
    let ms = all_members(vs);
    assert(ms =~= a + b);
    lemma_all_concrete_members(b);
    assert(concrete(b[j].1));
    let pos = a.len() + j;
    assert(ms[pos] == b[j]);
    assert forall|q: int| pos < q < ms.len() implies (#[trigger] ms[q]).0 != ms[pos].0 by {
        assert(ms[q] == b[q - a.len()]);
    }
    lemma_merge_each_last_wins(Seq::empty(), ms, pos);
}

// ---------- more of concatenation and rendering ----------

/// `[..] [..]`: two resolved arrays in a row resolve to one array, the first one's items
/// followed by the second one's.
pub proof fn law_concat_two_arrays(a: Seq<SVal>, b: Seq<SVal>, root: SVal, stack: Seq<Seq<char>>, env: SEnv, fl: SFloats)
    requires
        concrete(SVal::Arr(a)),
        concrete(SVal::Arr(b)),
    ensures
        resolve_spec(SVal::Concat(seq![SSeg::Val(SVal::Arr(a)), SSeg::Val(SVal::Arr(b))]), root, stack, env, fl)
            == Ok::<Option<SVal>, RErr>(Some(SVal::Arr(a + b))),
{
    let segs = seq![SSeg::Val(SVal::Arr(a)), SSeg::Val(SVal::Arr(b))];
    let one = seq![SSeg::Val(SVal::Arr(a))];
    assert(segs.drop_last() =~= one);
    assert(one.drop_last() =~= Seq::<SSeg>::empty());
    assert(segs.last() == SSeg::Val(SVal::Arr(b)));
    assert(one.last() == SSeg::Val(SVal::Arr(a)));
    assert(seg_values(Seq::<SSeg>::empty()) =~= Seq::<SVal>::empty());
    assert(seg_values(one) =~= seq![SVal::Arr(a)]);
    let vs = seq![SVal::Arr(a), SVal::Arr(b)];
    assert(seg_values(segs) =~= vs);
    assert forall|i: int| 0 <= i < segs.len() implies match #[trigger] segs[i] {
        SSeg::Val(v) => concrete(v),
        SSeg::Text(t) => true,
        SSeg::Sub(..) => false,
    } by {}
    law_concat_arrays(segs, root, stack, env, fl);
    assert(vs.drop_last() =~= seq![SVal::Arr(a)]);
    assert(seq![SVal::Arr(a)].drop_last() =~= Seq::<SVal>::empty());
    assert(all_items(Seq::<SVal>::empty()) =~= Seq::<SVal>::empty());
    assert(all_items(seq![SVal::Arr(a)]) =~= a);
    assert(all_items(vs) =~= a + b);
}

/// In a string, a string or a big integer renders as its text unchanged, and an object or an
/// array cannot render: it is a type error.
pub proof fn law_text_rendering(t: Seq<char>, m: Seq<(Seq<char>, SVal)>, items: Seq<SVal>, fl: SFloats)
    ensures
        render_spec(SVal::Str(t), fl) == Ok::<Seq<char>, RErr>(t),
        render_spec(SVal::BigInt(t), fl) == Ok::<Seq<char>, RErr>(t),
        render_spec(SVal::Obj(m), fl) is Err && render_spec(SVal::Obj(m), fl)->Err_0 is WrongType,
        render_spec(SVal::Arr(items), fl) is Err && render_spec(SVal::Arr(items), fl)->Err_0 is WrongType,
{
}

/// `trim(s)` is `s[a..b]`, with only whitespace before `a` and from `b` on, and no whitespace
/// at either end of `s[a..b]`.
pub open spec fn trim_split(s: Seq<char>, a: int, b: int) -> bool {
    &&& 0 <= a <= b <= s.len()
    &&& trim(s) == s.subrange(a, b)
    &&& forall|k: int| 0 <= k < a ==> crate::text::is_ws(#[trigger] s[k])
    &&& forall|k: int| b <= k < s.len() ==> crate::text::is_ws(#[trigger] s[k])
    &&& a < b ==> !crate::text::is_ws(s[a]) && !crate::text::is_ws(s[b - 1])
}

/// Trimming drops the whitespace at both ends and nothing else: what remains is a stretch of
/// the text, everything before and after it is whitespace, and it neither starts nor ends with
/// whitespace.
pub proof fn law_trim(s: Seq<char>)
    ensures
        exists|a: int, b: int| #[trigger] trim_split(s, a, b),
{
    let a = crate::text::skip_ws_from(s, 0);
    crate::text::lemma_skip_ws_bounds(s, 0);
    let b = crate::text::back_ws_from(s, a, s.len() as int);
    crate::text::lemma_back_ws_bounds(s, a, s.len() as int);
    assert(trim_split(s, a, b));
}

// ---------- empty values ----------

proof fn lemma_blanks_to(c: Seq<char>, i: int, j: int)
    requires
        0 <= i <= j <= c.len(),
        forall|k: int| i <= k < j ==> (#[trigger] c[k] == ' ' || c[k] == '\t' || c[k] == '\r'),
        j == c.len() || !(c[j] == ' ' || c[j] == '\t' || c[j] == '\r'),
    ensures
        crate::lexer::skip_blanks_from(c, i) == j,
    decreases j - i,
{
    if i < j {
        assert(c[i] == ' ' || c[i] == '\t' || c[i] == '\r');
        lemma_blanks_to(c, i + 1, j);
    }
}

/// A value position holding nothing before the end of its line, of its container or of the
/// text (only spaces, tabs and carriage returns, then a newline, `,`, `}`, `]`, a comment or
/// the end) is an empty value, which is unsupported.
pub proof fn law_empty_value(x: PCtx, c: Seq<char>, i: int, j: int)
    requires
        0 <= i <= j <= c.len(),
        forall|k: int| i <= k < j ==> (#[trigger] c[k] == ' ' || c[k] == '\t' || c[k] == '\r'),
        j == c.len() || c[j] == '\n' || c[j] == ',' || c[j] == '}' || c[j] == ']' || c[j] == '#' || (
        c[j] == '/' && j + 1 < c.len() && c[j + 1] == '/'),
    ensures
        crate::parser::value_spec(x, c, i) == Err::<(SVal, int), SErr>(SErr::Unsupported("empty value"@)),
{
    lemma_blanks_to(c, i, j);
}

// ---------- paths ----------

/// A path steps into the first member that holds its first key, then follows the rest of the
/// path from there; the empty path designates the value itself, and no path leads into a
/// value that is not an object.
pub proof fn law_path_steps(m: Seq<(Seq<char>, SVal)>, i: int, rest: Seq<Seq<char>>, v: SVal, k: Seq<char>)
    requires
        0 <= i < m.len(),
        forall|j: int| 0 <= j < i ==> (#[trigger] m[j]).0 != m[i].0,
    ensures
        get_path(SVal::Obj(m), seq![m[i].0] + rest) == get_path(m[i].1, rest),
        get_path(v, Seq::empty()) == Some(v),
        !(v is Obj) ==> get_path(v, seq![k] + rest) is None,
{
    let p = seq![m[i].0] + rest;
    assert(p[0] == m[i].0);
    assert(p.drop_first() =~= rest);
    lemma_find_key(m, m[i].0);
    assert(find_key(m, m[i].0) == Some(i)) by {
        if let Some(j) = find_key(m, m[i].0) {
            if j > i {
                assert(m[i].0 == m[i].0);
            }
        }
    }
    assert((seq![k] + rest).len() > 0);
}

} // verus!
