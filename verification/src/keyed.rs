//! Objects hold each key once: the reader, the deep merge and resolution all keep that.

use vstd::prelude::*;
use crate::assemble::{build_spec, lemma_non_blank, non_blank, part_seg, SPart};
use crate::inclusion::{find_entry_from, include_spec_spec};
use crate::laws::{has_key, lemma_has_key, lemma_merge_spec_keys, unique_keys};
use crate::lexer::{
    at, key_spec, lemma_skip_inline, lemma_skip_separators, quoted_spec, skip_inline_from,
    skip_separators_from, subst_spec, text_end_from,
};
use crate::merge::{
    merge_all_spec, merge_fuel, merge_spec, merged, split_head_spec, subst_seg_spec, subst_self_spec,
};
use crate::parser::{
    array_spec, braced_spec, budget, char_at, debug_char_option, inclusion_spec, items_spec, lemma_budget_update,
    lemma_key_spec, lemma_raw_end, members_spec, merge_each, parts_spec, raw_end_from, root_spec,
    seq_inclusion_kw, value_spec, value_stop, PCtx,
};
use crate::resolve::{
    all_items, all_members, combine_spec, join, lemma_budget_push, lemma_sz_pos, lemma_sz_seg_pos,
    present, resolve_items_spec, resolve_members_spec, resolve_spec, resolve_subst_spec,
    resolve_units_spec, sz, sz_members, sz_seg, sz_segs, sz_vals, SEnv, SFloats, SUnit,
};
use crate::scalar::is_safe_key;
use crate::text::trim;
use crate::value::{find_key, get_path, lemma_find_key, lookup, SSeg, SVal};

verus! {

/// No object anywhere inside the value holds a key twice.
pub open spec fn well_keyed(v: SVal) -> bool
    decreases v,
{
    match v {
        SVal::Arr(items) => all_well_keyed(items),
        SVal::Obj(m) => unique_keys(m) && members_well_keyed(m),
        SVal::Concat(segs) => segs_well_keyed(segs),
        _ => true,
    }
}

pub open spec fn all_well_keyed(s: Seq<SVal>) -> bool
    decreases s,
{
    s.len() == 0 || (well_keyed(s[0]) && all_well_keyed(s.drop_first()))
}

pub open spec fn members_well_keyed(m: Seq<(Seq<char>, SVal)>) -> bool
    decreases m,
{
    m.len() == 0 || (well_keyed(m[0].1) && members_well_keyed(m.drop_first()))
}

pub open spec fn seg_well_keyed(s: SSeg) -> bool {
    match s {
        SSeg::Val(v) => well_keyed(v),
        _ => true,
    }
}

pub open spec fn segs_well_keyed(s: Seq<SSeg>) -> bool
    decreases s,
{
    s.len() == 0 || (match s[0] {
        SSeg::Val(v) => well_keyed(v),
        _ => true,
    } && segs_well_keyed(s.drop_first()))
}

/// The members of an object that holds each key once, at every depth.
pub open spec fn obj_well_keyed(m: Seq<(Seq<char>, SVal)>) -> bool {
    unique_keys(m) && members_well_keyed(m)
}

pub proof fn lemma_all_well_keyed(s: Seq<SVal>)
    ensures
        all_well_keyed(s) == forall|i: int| 0 <= i < s.len() ==> well_keyed(#[trigger] s[i]),
    decreases s.len(),
{
    if s.len() > 0 {
        lemma_all_well_keyed(s.drop_first());
        if forall|i: int| 0 <= i < s.len() ==> well_keyed(#[trigger] s[i]) {
            assert forall|i: int| 0 <= i < s.drop_first().len() implies well_keyed(
                #[trigger] s.drop_first()[i],
            ) by {
                assert(s.drop_first()[i] == s[i + 1]);
            }
        }
        if all_well_keyed(s) {
            assert forall|i: int| 0 <= i < s.len() implies well_keyed(#[trigger] s[i]) by {
                if i > 0 {
                    assert(s[i] == s.drop_first()[i - 1]);
                }
            }
        }
    }
}

pub proof fn lemma_members_well_keyed(m: Seq<(Seq<char>, SVal)>)
    ensures
        members_well_keyed(m) == forall|i: int| 0 <= i < m.len() ==> well_keyed(#[trigger] m[i].1),
    decreases m.len(),
{
    if m.len() > 0 {
        lemma_members_well_keyed(m.drop_first());
        if forall|i: int| 0 <= i < m.len() ==> well_keyed(#[trigger] m[i].1) {
            assert forall|i: int| 0 <= i < m.drop_first().len() implies well_keyed(
                #[trigger] m.drop_first()[i].1,
            ) by {
                assert(m.drop_first()[i] == m[i + 1]);
            }
        }
        if members_well_keyed(m) {
            assert forall|i: int| 0 <= i < m.len() implies well_keyed(#[trigger] m[i].1) by {
                if i > 0 {
                    assert(m[i] == m.drop_first()[i - 1]);
                }
            }
        }
    }
}

pub proof fn lemma_segs_well_keyed(s: Seq<SSeg>)
    ensures
        segs_well_keyed(s) == forall|i: int| 0 <= i < s.len() ==> seg_well_keyed(#[trigger] s[i]),
    decreases s.len(),
{
    if s.len() > 0 {
        lemma_segs_well_keyed(s.drop_first());
        if forall|i: int| 0 <= i < s.len() ==> seg_well_keyed(#[trigger] s[i]) {
            assert forall|i: int| 0 <= i < s.drop_first().len() implies seg_well_keyed(
                #[trigger] s.drop_first()[i],
            ) by {
                assert(s.drop_first()[i] == s[i + 1]);
            }
            assert(seg_well_keyed(s[0]));
        }
        if segs_well_keyed(s) {
            assert forall|i: int| 0 <= i < s.len() implies seg_well_keyed(#[trigger] s[i]) by {
                if i > 0 {
                    assert(s[i] == s.drop_first()[i - 1]);
                }
            }
        }
    }
}

/// Every node of a well-keyed value is well keyed.
pub proof fn lemma_get_path_well_keyed(v: SVal, p: Seq<Seq<char>>)
    requires
        well_keyed(v),
    ensures
        get_path(v, p) matches Some(w) ==> well_keyed(w),
    decreases p.len(),
{
    if p.len() > 0 {
        if let SVal::Obj(m) = v {
            lemma_find_key(m, p[0]);
            lemma_members_well_keyed(m);
            if let Some(child) = lookup(m, p[0]) {
                lemma_get_path_well_keyed(child, p.drop_first());
            }
        }
    }
}

pub proof fn lemma_subst_self_well_keyed(value: SVal, key: Seq<char>, prior: SVal)
    requires
        well_keyed(value),
        well_keyed(prior),
    ensures
        well_keyed(subst_self_spec(value, key, prior)),
{
    match value {
        SVal::Subst(path, opt) => {
            if path.len() > 0 && path[0] == key {
                lemma_get_path_well_keyed(prior, path.drop_first());
            }
        },
        SVal::Concat(segs) => {
            let out = Seq::new(segs.len(), |i: int| subst_seg_spec(segs[i], key, prior));
            lemma_segs_well_keyed(segs);
            lemma_segs_well_keyed(out);
            assert forall|i: int| 0 <= i < out.len() implies seg_well_keyed(#[trigger] out[i]) by {
                assert(seg_well_keyed(segs[i]));
                if let SSeg::Sub(path, opt) = segs[i] {
                    if path.len() > 0 && path[0] == key {
                        lemma_get_path_well_keyed(prior, path.drop_first());
                    }
                }
            }
        },
        _ => {},
    }
}

/// Assigning a well-keyed value among the members of a well-keyed object keeps it well keyed.
pub proof fn lemma_merge_well_keyed(m: Seq<(Seq<char>, SVal)>, key: Seq<char>, value: SVal, fuel: nat)
    requires
        obj_well_keyed(m),
        well_keyed(value),
    ensures
        obj_well_keyed(merge_spec(m, key, value, fuel)),
    decreases fuel, 0nat,
{
    lemma_merge_spec_keys(m, key, value, fuel, key);
    lemma_members_well_keyed(m);
    lemma_find_key(m, key);
    let r = merge_spec(m, key, value, fuel);
    match find_key(m, key) {
        None => {
            assert(r == m.push((key, value)));
            lemma_members_well_keyed(r);
            assert forall|i: int| 0 <= i < r.len() implies well_keyed(#[trigger] r[i].1) by {
                if i < m.len() {
                    assert(r[i] == m[i]);
                }
            }
        },
        Some(idx) => {
            let prior = m[idx].1;
            assert(well_keyed(prior));
            lemma_subst_self_well_keyed(value, key, prior);
            let v2 = subst_self_spec(value, key, prior);
            let nv: SVal = match prior {
                SVal::Obj(ex) => match v2 {
                    SVal::Obj(inc) => if fuel > 0 {
                        lemma_merge_all_well_keyed(ex, inc, (fuel - 1) as nat);
                        SVal::Obj(merge_all_spec(ex, inc, (fuel - 1) as nat))
                    } else {
                        v2
                    },
                    _ => v2,
                },
                _ => v2,
            };
            assert(well_keyed(nv));
            assert(r == m.update(idx, (m[idx].0, nv)));
            lemma_members_well_keyed(r);
            assert forall|i: int| 0 <= i < r.len() implies well_keyed(#[trigger] r[i].1) by {
                if i != idx {
                    assert(r[i] == m[i]);
                }
            }
        },
    }
}

pub proof fn lemma_merge_all_well_keyed(ex: Seq<(Seq<char>, SVal)>, inc: Seq<(Seq<char>, SVal)>, fuel: nat)
    requires
        obj_well_keyed(ex),
        members_well_keyed(inc),
    ensures
        obj_well_keyed(merge_all_spec(ex, inc, fuel)),
    decreases fuel, inc.len(),
{
    if inc.len() > 0 {
        lemma_members_well_keyed(inc);
        let pre = inc.drop_last();
        lemma_members_well_keyed(pre);
        assert forall|i: int| 0 <= i < pre.len() implies well_keyed(#[trigger] pre[i].1) by {
            assert(pre[i] == inc[i]);
        }
        lemma_merge_all_well_keyed(ex, pre, fuel);
        assert(well_keyed(inc[inc.len() - 1].1));
        lemma_merge_well_keyed(merge_all_spec(ex, pre, fuel), inc.last().0, inc.last().1, fuel);
    }
}

pub proof fn lemma_merged_well_keyed(m: Seq<(Seq<char>, SVal)>, key: Seq<char>, value: SVal)
    requires
        obj_well_keyed(m),
        well_keyed(value),
    ensures
        obj_well_keyed(merged(m, key, value)),
{
    lemma_merge_well_keyed(m, key, value, merge_fuel(m, value));
}

pub proof fn lemma_merge_each_well_keyed(m: Seq<(Seq<char>, SVal)>, inc: Seq<(Seq<char>, SVal)>)
    requires
        obj_well_keyed(m),
        members_well_keyed(inc),
    ensures
        obj_well_keyed(merge_each(m, inc)),
    decreases inc.len(),
{
    if inc.len() > 0 {
        lemma_members_well_keyed(inc);
        let pre = inc.drop_last();
        lemma_members_well_keyed(pre);
        assert forall|i: int| 0 <= i < pre.len() implies well_keyed(#[trigger] pre[i].1) by {
            assert(pre[i] == inc[i]);
        }
        lemma_merge_each_well_keyed(m, pre);
        assert(well_keyed(inc[inc.len() - 1].1));
        lemma_merged_well_keyed(merge_each(m, pre), inc.last().0, inc.last().1);
    }
}

/// `a.b.c = v` assigns to `a` an object that is well keyed when `v` is.
pub proof fn lemma_split_head_well_keyed(key: Seq<char>, v: SVal)
    requires
        well_keyed(v),
    ensures
        well_keyed(split_head_spec(key, v).1),
    decreases key.len(),
{
    let p = crate::merge::dot_from(key, 0);
    if 0 <= p < key.len() {
        lemma_split_head_well_keyed(key.skip(p + 1), v);
        let (k2, v2) = split_head_spec(key.skip(p + 1), v);
        let one = seq![(k2, v2)];
        lemma_members_well_keyed(one);
    }
}

// ---------- the reader ----------

pub open spec fn part_well_keyed(p: SPart) -> bool {
    match p {
        SPart::Obj(m) => obj_well_keyed(m),
        SPart::Arr(a) => all_well_keyed(a),
        _ => true,
    }
}

pub open spec fn parts_well_keyed(ps: Seq<SPart>) -> bool {
    forall|k: int| 0 <= k < ps.len() ==> part_well_keyed(#[trigger] ps[k])
}

proof fn lemma_empty_obj_well_keyed()
    ensures
        obj_well_keyed(Seq::<(Seq<char>, SVal)>::empty()),
{
}

pub proof fn lemma_build_well_keyed(parts: Seq<SPart>)
    requires
        parts_well_keyed(parts),
    ensures
        build_spec(parts) matches Ok(v) ==> well_keyed(v),
{
    lemma_non_blank(parts);
    let nb = non_blank(parts);
    if nb.len() == 1 {
        assert(part_well_keyed(parts[nb[0]]));
    } else {
        let segs = Seq::new(parts.len(), |k: int| part_seg(parts[k]));
        lemma_segs_well_keyed(segs);
        assert forall|k: int| 0 <= k < segs.len() implies seg_well_keyed(#[trigger] segs[k]) by {
            assert(part_well_keyed(parts[k]));
        }
    }
}

/// A document read from any position is well keyed.
pub proof fn lemma_root_well_keyed(x: PCtx, c: Seq<char>, i: int)
    ensures
        root_spec(x, c, i) matches Ok((v, _)) ==> well_keyed(v),
    decreases budget(x.avail), c.len() - i, 7int,
{
    if 0 <= i <= c.len() {
        lemma_skip_separators(c, i);
        let j = skip_separators_from(c, i);
        if at(c, j, '{') {
            lemma_braced_well_keyed(x, c, j);
        } else {
            lemma_empty_obj_well_keyed();
            lemma_members_well_keyed_read(x, c, j, None, Seq::empty());
        }
    }
}

pub proof fn lemma_braced_well_keyed(x: PCtx, c: Seq<char>, i: int)
    ensures
        braced_spec(x, c, i) matches Ok((m, _)) ==> obj_well_keyed(m),
    decreases budget(x.avail), c.len() - i, 3int,
{
    if 0 <= i < c.len() && c[i] == '{' {
        lemma_empty_obj_well_keyed();
        lemma_members_well_keyed_read(x, c, i + 1, Some('}'), Seq::empty());
    }
}

pub proof fn lemma_members_well_keyed_read(
    x: PCtx,
    c: Seq<char>,
    i: int,
    close: Option<char>,
    acc: Seq<(Seq<char>, SVal)>,
)
    requires
        obj_well_keyed(acc),
    ensures
        members_spec(x, c, i, close, acc) matches Ok((m, _)) ==> obj_well_keyed(m),
    decreases budget(x.avail), c.len() - i, 2int,
{
    if 0 <= i <= c.len() {
        lemma_skip_separators(c, i);
        let j1 = skip_separators_from(c, i);
        if j1 < c.len() && close != Some(c[j1]) {
            lemma_key_spec(c, j1);
            if let Ok(((key, quoted), j2)) = key_spec(c, j1) {
                lemma_skip_inline(c, j2);
                let j3 = skip_inline_from(c, j2);
                if key == seq_inclusion_kw() && !quoted && !(at(c, j3, '=') || at(c, j3, ':') || at(
                    c,
                    j3,
                    '{',
                )) {
                    lemma_inclusion_well_keyed(x, c, j3, acc);
                    if let Ok((acc2, j4)) = inclusion_spec(x, c, j3, acc) {
                        if i < j4 <= c.len() {
                            lemma_members_well_keyed_read(x, c, j4, close, acc2);
                        }
                    }
                } else if !(at(c, j3, '+') && at(c, j3 + 1, '=')) && !(quoted && !is_safe_key(key)) {
                    if at(c, j3, '=') || at(c, j3, ':') {
                        lemma_value_well_keyed(x, c, j3 + 1);
                    } else if at(c, j3, '{') {
                        lemma_braced_well_keyed(x, c, j3);
                    }
                    let vr = if at(c, j3, '=') || at(c, j3, ':') {
                        value_spec(x, c, j3 + 1)
                    } else if at(c, j3, '{') {
                        match braced_spec(x, c, j3) {
                            Ok((m, k)) => Ok((SVal::Obj(m), k)),
                            Err(e) => Err(e),
                        }
                    } else {
                        Err(
                            crate::lexer::SErr::Parse(
                                "expected '=' or ':' after the key, got "@ + debug_char_option(char_at(c, j3)),
                            ),
                        )
                    };
                    if let Ok((v, j5)) = vr {
                        assert(well_keyed(v));
                        let acc2 = if quoted {
                            merged(acc, key, v)
                        } else {
                            let (h, sub) = split_head_spec(key, v);
                            merged(acc, h, sub)
                        };
                        if quoted {
                            lemma_merged_well_keyed(acc, key, v);
                        } else {
                            lemma_split_head_well_keyed(key, v);
                            let (h, sub) = split_head_spec(key, v);
                            lemma_merged_well_keyed(acc, h, sub);
                        }
                        if i < j5 <= c.len() {
                            lemma_members_well_keyed_read(x, c, j5, close, acc2);
                        }
                    }
                }
            }
        }
    }
}

pub proof fn lemma_inclusion_well_keyed(x: PCtx, c: Seq<char>, i: int, acc: Seq<(Seq<char>, SVal)>)
    requires
        obj_well_keyed(acc),
    ensures
        inclusion_spec(x, c, i, acc) matches Ok((m, _)) ==> obj_well_keyed(m),
    decreases budget(x.avail), c.len() - i, 1int,
{
    if 0 <= i <= c.len() {
        lemma_raw_end(c, i);
        let e = raw_end_from(c, i);
        if let Ok((path, required, kind)) = include_spec_spec(trim(c.subrange(i, e))) {
            if kind is File {
                if let Some(k) = find_entry_from(x.table, x.base, path, 0) {
                    if 0 <= k < x.avail.len() && x.avail[k] {
                        if let Some(text) = x.table[k].2 {
                            lemma_budget_update(x.avail, k);
                            let x2 = PCtx {
                                table: x.table,
                                avail: x.avail.update(k, false),
                                base: x.table[k].3,
                            };
                            lemma_root_well_keyed(x2, text, 0);
                            if let Ok((SVal::Obj(sub), _)) = root_spec(x2, text, 0) {
                                lemma_merge_each_well_keyed(acc, sub);
                            }
                        }
                    }
                }
            }
        }
    }
}

pub proof fn lemma_value_well_keyed(x: PCtx, c: Seq<char>, i: int)
    ensures
        value_spec(x, c, i) matches Ok((v, _)) ==> well_keyed(v),
    decreases budget(x.avail), c.len() - i, 5int,
{
    if 0 <= i <= c.len() {
        crate::lexer::lemma_skip_blanks(c, i);
        let j = crate::lexer::skip_blanks_from(c, i);
        lemma_parts_well_keyed(x, c, j, Seq::empty());
        if let Ok((parts, k)) = parts_spec(x, c, j, Seq::empty()) {
            lemma_build_well_keyed(parts);
        }
    }
}

pub proof fn lemma_parts_well_keyed(x: PCtx, c: Seq<char>, j: int, acc: Seq<SPart>)
    requires
        parts_well_keyed(acc),
    ensures
        parts_spec(x, c, j, acc) matches Ok((ps, _)) ==> parts_well_keyed(ps),
    decreases budget(x.avail), c.len() - j, 4int,
{
    if 0 <= j < c.len() {
        let ch = c[j];
        if !value_stop(c, j) {
            if ch == '{' {
                lemma_braced_well_keyed(x, c, j);
            } else if ch == '[' {
                lemma_array_well_keyed(x, c, j);
            }
            let unit: Result<(SPart, int), crate::lexer::SErr> = if ch == '{' {
                match braced_spec(x, c, j) {
                    Ok((m, k)) => Ok((SPart::Obj(m), k)),
                    Err(e) => Err(e),
                }
            } else if ch == '[' {
                match array_spec(x, c, j) {
                    Ok((a, k)) => Ok((SPart::Arr(a), k)),
                    Err(e) => Err(e),
                }
            } else if ch == '"' {
                match quoted_spec(c, j) {
                    Ok((s, k)) => Ok((SPart::Quoted(s), k)),
                    Err(e) => Err(e),
                }
            } else if ch == '$' && at(c, j + 1, '{') {
                match subst_spec(c, j) {
                    Ok(((path, opt), k)) => Ok((SPart::Sub(path, opt), k)),
                    Err(e) => Err(e),
                }
            } else {
                let k = text_end_from(c, j, j);
                Ok((SPart::Text(c.subrange(j, k)), k))
            };
            if let Ok((p, k)) = unit {
                if j < k <= c.len() {
                    assert(part_well_keyed(p));
                    let acc2 = acc.push(p);
                    assert forall|q: int| 0 <= q < acc2.len() implies part_well_keyed(#[trigger] acc2[q]) by {
                        if q < acc.len() {
                            assert(acc2[q] == acc[q]);
                        }
                    }
                    lemma_parts_well_keyed(x, c, k, acc2);
                }
            }
        }
    }
}

pub proof fn lemma_array_well_keyed(x: PCtx, c: Seq<char>, i: int)
    ensures
        array_spec(x, c, i) matches Ok((a, _)) ==> all_well_keyed(a),
    decreases budget(x.avail), c.len() - i, 3int,
{
    if 0 <= i < c.len() {
        lemma_all_well_keyed(Seq::<SVal>::empty());
        lemma_items_well_keyed(x, c, i + 1, Seq::empty());
    }
}

pub proof fn lemma_items_well_keyed(x: PCtx, c: Seq<char>, j: int, acc: Seq<SVal>)
    requires
        all_well_keyed(acc),
    ensures
        items_spec(x, c, j, acc) matches Ok((a, _)) ==> all_well_keyed(a),
    decreases budget(x.avail), c.len() - j, 6int,
{
    if 0 <= j <= c.len() {
        lemma_skip_separators(c, j);
        let j1 = skip_separators_from(c, j);
        if j1 < c.len() && c[j1] != ']' {
            lemma_value_well_keyed(x, c, j1);
            if let Ok((v, k)) = value_spec(x, c, j1) {
                if j < k <= c.len() {
                    let acc2 = acc.push(v);
                    lemma_all_well_keyed(acc);
                    lemma_all_well_keyed(acc2);
                    assert forall|q: int| 0 <= q < acc2.len() implies well_keyed(#[trigger] acc2[q]) by {
                        if q < acc.len() {
                            assert(acc2[q] == acc[q]);
                        }
                    }
                    lemma_items_well_keyed(x, c, k, acc2);
                }
            }
        }
    }
}

// ---------- resolution ----------

/// Resolving a well-keyed node of a well-keyed document gives a well-keyed value.
pub proof fn lemma_resolve_well_keyed(node: SVal, root: SVal, stack: Seq<Seq<char>>, env: SEnv, fl: SFloats)
    requires
        well_keyed(node),
        well_keyed(root),
    ensures
        resolve_spec(node, root, stack, env, fl) matches Ok(Some(v)) ==> well_keyed(v),
    decreases crate::resolve::budget(root, stack), sz(node), 2int,
{
    match node {
        SVal::Arr(items) => {
            lemma_resolve_items_well_keyed(items, root, stack, env, fl);
        },
        SVal::Obj(m) => {
            lemma_resolve_members_well_keyed(m, root, stack, env, fl);
        },
        SVal::Subst(path, optional) => {
            lemma_resolve_subst_well_keyed(path, optional, root, stack, env, fl);
        },
        SVal::Concat(segs) => {
            lemma_resolve_units_well_keyed(segs, root, stack, env, fl);
            if let Ok(units) = resolve_units_spec(segs, root, stack, env, fl) {
                lemma_combine_well_keyed(units, fl);
            }
        },
        _ => {},
    }
}

pub proof fn lemma_resolve_items_well_keyed(items: Seq<SVal>, root: SVal, stack: Seq<Seq<char>>, env: SEnv, fl: SFloats)
    requires
        all_well_keyed(items),
        well_keyed(root),
    ensures
        resolve_items_spec(items, root, stack, env, fl) matches Ok(out) ==> all_well_keyed(out),
    decreases crate::resolve::budget(root, stack), sz_vals(items), 3int,
{
    if items.len() > 0 {
        lemma_sz_pos(items.last());
        lemma_all_well_keyed(items);
        let pre = items.drop_last();
        lemma_all_well_keyed(pre);
        assert forall|i: int| 0 <= i < pre.len() implies well_keyed(#[trigger] pre[i]) by {
            assert(pre[i] == items[i]);
        }
        assert(well_keyed(items[items.len() - 1]));
        lemma_resolve_items_well_keyed(pre, root, stack, env, fl);
        lemma_resolve_well_keyed(items.last(), root, stack, env, fl);
        if let Ok(out) = resolve_items_spec(pre, root, stack, env, fl) {
            lemma_all_well_keyed(out);
            if let Ok(Some(v)) = resolve_spec(items.last(), root, stack, env, fl) {
                let r = out.push(v);
                lemma_all_well_keyed(r);
                assert forall|i: int| 0 <= i < r.len() implies well_keyed(#[trigger] r[i]) by {
                    if i < out.len() {
                        assert(r[i] == out[i]);
                    }
                }
            }
        }
    }
}

pub proof fn lemma_resolve_members_well_keyed(
    m: Seq<(Seq<char>, SVal)>,
    root: SVal,
    stack: Seq<Seq<char>>,
    env: SEnv,
    fl: SFloats,
)
    requires
        obj_well_keyed(m),
        well_keyed(root),
    ensures
        resolve_members_spec(m, root, stack, env, fl) matches Ok(out) ==> obj_well_keyed(out) && (
        forall|a: int| 0 <= a < out.len() ==> has_key(m, #[trigger] out[a].0)),
    decreases crate::resolve::budget(root, stack), sz_members(m), 3int,
{
    if m.len() > 0 {
        lemma_sz_pos(m.last().1);
        lemma_members_well_keyed(m);
        let pre = m.drop_last();
        lemma_members_well_keyed(pre);
        assert forall|i: int| 0 <= i < pre.len() implies well_keyed(#[trigger] pre[i].1) by {
            assert(pre[i] == m[i]);
        }
        assert forall|i: int, j: int| 0 <= i < j < pre.len() implies #[trigger] pre[i].0 != #[trigger] pre[j].0 by {
            assert(pre[i] == m[i]);
            assert(pre[j] == m[j]);
        }
        assert(well_keyed(m[m.len() - 1].1));
        lemma_resolve_members_well_keyed(pre, root, stack, env, fl);
        lemma_resolve_well_keyed(m.last().1, root, stack, env, fl);
        if let Ok(out) = resolve_members_spec(pre, root, stack, env, fl) {
            let k = m.last().0;
            assert forall|a: int| 0 <= a < out.len() implies has_key(m, #[trigger] out[a].0) by {
                lemma_has_key(pre, out[a].0);
                lemma_has_key(m, out[a].0);
                let b = choose|b: int| 0 <= b < pre.len() && #[trigger] pre[b].0 == out[a].0;
                assert(m[b] == pre[b]);
            }
            assert forall|a: int| 0 <= a < out.len() implies #[trigger] out[a].0 != k by {
                lemma_has_key(pre, out[a].0);
                let b = choose|b: int| 0 <= b < pre.len() && #[trigger] pre[b].0 == out[a].0;
                assert(m[b] == pre[b]);
                assert(m[b].0 != m[m.len() - 1].0);
            }
            lemma_has_key(m, k);
            assert(m[m.len() - 1].0 == k);
            lemma_members_well_keyed(out);
            if let Ok(Some(rv)) = resolve_spec(m.last().1, root, stack, env, fl) {
                let r = out.push((k, rv));
                lemma_members_well_keyed(r);
                assert forall|i: int| 0 <= i < r.len() implies well_keyed(#[trigger] r[i].1) by {
                    if i < out.len() {
                        assert(r[i] == out[i]);
                    }
                }
                assert forall|i: int, j: int| 0 <= i < j < r.len() implies #[trigger] r[i].0 != #[trigger] r[j].0 by {
                    assert(r[i] == out[i]);
                    if j < out.len() {
                        assert(r[j] == out[j]);
                    }
                }
                assert forall|a: int| 0 <= a < r.len() implies has_key(m, #[trigger] r[a].0) by {
                    if a < out.len() {
                        assert(r[a] == out[a]);
                    }
                }
            }
        }
    }
}

pub proof fn lemma_resolve_subst_well_keyed(
    path: Seq<Seq<char>>,
    optional: bool,
    root: SVal,
    stack: Seq<Seq<char>>,
    env: SEnv,
    fl: SFloats,
)
    requires
        well_keyed(root),
    ensures
        resolve_subst_spec(path, optional, root, stack, env, fl) matches Ok(Some(v)) ==> well_keyed(v),
    decreases crate::resolve::budget(root, stack), 0nat, 0int,
{
    let key = join(path);
    if !stack.contains(key) {
        if let Some(raw) = get_path(root, path) {
            lemma_budget_push(root, stack, path);
            lemma_get_path_well_keyed(root, path);
            lemma_resolve_well_keyed(raw, root, stack.push(key), env, fl);
        }
    }
}

pub open spec fn units_well_keyed(units: Seq<SUnit>) -> bool {
    forall|k: int| 0 <= k < units.len() ==> (#[trigger] units[k] matches SUnit::Val(Some(v)) ==> well_keyed(v))
}

pub proof fn lemma_resolve_units_well_keyed(segs: Seq<SSeg>, root: SVal, stack: Seq<Seq<char>>, env: SEnv, fl: SFloats)
    requires
        segs_well_keyed(segs),
        well_keyed(root),
    ensures
        resolve_units_spec(segs, root, stack, env, fl) matches Ok(units) ==> units_well_keyed(units),
    decreases crate::resolve::budget(root, stack), sz_segs(segs), 3int,
{
    if segs.len() > 0 {
        lemma_sz_seg_pos(segs.last());
        lemma_segs_well_keyed(segs);
        let pre = segs.drop_last();
        lemma_segs_well_keyed(pre);
        assert forall|i: int| 0 <= i < pre.len() implies seg_well_keyed(#[trigger] pre[i]) by {
            assert(pre[i] == segs[i]);
        }
        assert(seg_well_keyed(segs[segs.len() - 1]));
        lemma_resolve_units_well_keyed(pre, root, stack, env, fl);
        match segs.last() {
            SSeg::Val(v) => {
                assert(sz_seg(segs.last()) == sz(v));
                lemma_resolve_well_keyed(v, root, stack, env, fl);
            },
            SSeg::Sub(path, optional) => {
                lemma_resolve_subst_well_keyed(path, optional, root, stack, env, fl);
            },
            _ => {},
        }
        if let Ok(units) = resolve_units_spec(segs, root, stack, env, fl) {
            let out = resolve_units_spec(pre, root, stack, env, fl)->Ok_0;
            assert forall|k: int| 0 <= k < units.len() implies (#[trigger] units[k] matches SUnit::Val(Some(v)) ==> well_keyed(v)) by {
                if k < out.len() {
                    assert(units[k] == out[k]);
                }
            }
        }
    }
}

proof fn lemma_present_well_keyed(units: Seq<SUnit>)
    requires
        units_well_keyed(units),
    ensures
        forall|k: int| 0 <= k < present(units).len() ==> well_keyed(#[trigger] present(units)[k]),
    decreases units.len(),
{
    if units.len() > 0 {
        let pre = units.drop_last();
        assert forall|k: int| 0 <= k < pre.len() implies (#[trigger] pre[k] matches SUnit::Val(Some(v)) ==> well_keyed(v)) by {
            assert(pre[k] == units[k]);
        }
        lemma_present_well_keyed(pre);
        let rest = present(pre);
        assert(units[units.len() - 1] == units.last());
        let pv = present(units);
        assert forall|k: int| 0 <= k < pv.len() implies well_keyed(#[trigger] pv[k]) by {
            if k < rest.len() {
                assert(pv[k] == rest[k]);
            }
        }
    }
}

proof fn lemma_all_members_well_keyed(vs: Seq<SVal>)
    requires
        forall|k: int| 0 <= k < vs.len() ==> well_keyed(#[trigger] vs[k]),
    ensures
        members_well_keyed(all_members(vs)),
    decreases vs.len(),
{
    if vs.len() > 0 {
        let pre = vs.drop_last();
        assert forall|k: int| 0 <= k < pre.len() implies well_keyed(#[trigger] pre[k]) by {
            assert(pre[k] == vs[k]);
        }
        lemma_all_members_well_keyed(pre);
        let a = all_members(pre);
        let b: Seq<(Seq<char>, SVal)> = match vs.last() {
            SVal::Obj(m) => m,
            _ => Seq::empty(),
        };
        assert(well_keyed(vs[vs.len() - 1]));
        lemma_members_well_keyed(a);
        lemma_members_well_keyed(b);
        let r = a + b;
        assert(all_members(vs) == r);
        lemma_members_well_keyed(r);
        assert forall|i: int| 0 <= i < r.len() implies well_keyed(#[trigger] r[i].1) by {
            if i < a.len() {
                assert(r[i] == a[i]);
            } else {
                assert(r[i] == b[i - a.len()]);
            }
        }
    }
}

proof fn lemma_all_items_well_keyed(vs: Seq<SVal>)
    requires
        forall|k: int| 0 <= k < vs.len() ==> well_keyed(#[trigger] vs[k]),
    ensures
        all_well_keyed(all_items(vs)),
    decreases vs.len(),
{
    if vs.len() > 0 {
        let pre = vs.drop_last();
        assert forall|k: int| 0 <= k < pre.len() implies well_keyed(#[trigger] pre[k]) by {
            assert(pre[k] == vs[k]);
        }
        lemma_all_items_well_keyed(pre);
        let a = all_items(pre);
        let b: Seq<SVal> = match vs.last() {
            SVal::Arr(x) => x,
            _ => Seq::empty(),
        };
        assert(well_keyed(vs[vs.len() - 1]));
        lemma_all_well_keyed(a);
        lemma_all_well_keyed(b);
        let r = a + b;
        assert(all_items(vs) == r);
        lemma_all_well_keyed(r);
        assert forall|i: int| 0 <= i < r.len() implies well_keyed(#[trigger] r[i]) by {
            if i < a.len() {
                assert(r[i] == a[i]);
            } else {
                assert(r[i] == b[i - a.len()]);
            }
        }
    }
}

pub proof fn lemma_combine_well_keyed(units: Seq<SUnit>, fl: SFloats)
    requires
        units_well_keyed(units),
    ensures
        combine_spec(units, fl) matches Ok(Some(v)) ==> well_keyed(v),
{
    lemma_present_well_keyed(units);
    let pv = present(units);
    lemma_all_members_well_keyed(pv);
    lemma_all_items_well_keyed(pv);
    lemma_empty_obj_well_keyed();
    lemma_merge_each_well_keyed(Seq::empty(), all_members(pv));
}

} // verus!
