//! Reading and resolving whole documents.
//!
//! Reading needs the contents of the files that a document includes. The caller supplies them
//! in an [`IncludeTable`]; when reading meets a file that the table lacks, it ends with
//! [`HoconError::NeedFile`], naming it, and the caller reads that file, adds it to the table
//! and reads the document again.

use vstd::prelude::*;
use crate::inclusion::{IncludeTable, SEntry};
use crate::keyed::well_keyed;
use crate::lexer::{HoconError, SErr};
use crate::parser::{root_spec, PCtx, Parser};
use crate::resolve::{env_view, floats_view, resolve_node, resolve_spec, RErr, ResolveError, SEnv, SFloats};
use crate::text::chars_of;
use crate::value::{members_view, SSeg, SVal, Value, CSeg, vals_view, segs_view};

verus! {

/// The context a document is read in: every included file may be entered.
pub open spec fn document_ctx(table: Seq<SEntry>, base: Seq<char>) -> PCtx {
    PCtx { table, avail: Seq::new(table.len(), |i: int| true), base }
}

/// The tree that a document's text reads as.
pub open spec fn document_spec(text: Seq<char>, base: Seq<char>, table: Seq<SEntry>) -> Result<SVal, SErr> {
    match root_spec(document_ctx(table, base), text, 0) {
        Ok((v, _)) => Ok(v),
        Err(e) => Err(e),
    }
}

/// The resolved document: an empty object when the whole resolves to nothing.
pub open spec fn resolved_spec(tree: SVal, env: SEnv, fl: SFloats) -> Result<SVal, RErr> {
    match resolve_spec(tree, tree, Seq::empty(), env, fl) {
        Ok(Some(v)) => Ok(v),
        Ok(None) => Ok(SVal::Obj(Seq::empty())),
        Err(e) => Err(e),
    }
}

fn all_flags(n: usize) -> (r: Vec<bool>)
    ensures
        r@ == Seq::new(n as nat, |i: int| true),
{
    let mut r: Vec<bool> = Vec::new();
    let mut k: usize = 0;
    while k < n
        invariant
            k <= n,
            r@ == Seq::new(k as nat, |i: int| true),
        decreases n - k,
    {
        r.push(true);
        k += 1;
        assert(r@ =~= Seq::new(k as nat, |i: int| true));
    }
    r
}

/// Reads a document, `base` being the directory its included paths resolve against (empty:
/// the working directory), with the included files of `table`.
pub fn parse_document(text: &str, base: &String, table: &IncludeTable) -> (r: Result<Value, HoconError>)
    ensures
        r matches Ok(v) ==> document_spec(text@, base@, table@) == Ok::<SVal, SErr>(v@),
        r matches Err(e) ==> document_spec(text@, base@, table@) == Err::<SVal, SErr>(e@),
        r matches Ok(v) ==> well_keyed(v@),
{
    proof {
        crate::laws::law_document_well_keyed(text@, base@, table@);
    }
    let mut p = Parser { c: chars_of(text), i: 0, base: base.clone() };
    let avail = all_flags(table.entries.len());
    assert(p.ctx(table@, avail@) == document_ctx(table@, base@));
    p.parse_root_with(table, &avail)
}

/// Resolves a whole document (see [`resolved_spec`]).
pub fn resolve_document(
    tree: &Value,
    env: &Vec<(String, String)>,
    floats: &Vec<(String, Option<String>)>,
) -> (r: Result<Value, ResolveError>)
    ensures
        r matches Ok(v) ==> resolved_spec(tree@, env_view(*env), floats_view(*floats)) == Ok::<SVal, RErr>(v@),
        r matches Err(e) ==> resolved_spec(tree@, env_view(*env), floats_view(*floats)) == Err::<SVal, RErr>(e@),
        r matches Ok(v) ==> crate::value::concrete(v@),
        well_keyed(tree@) ==> (r matches Ok(v) ==> well_keyed(v@)),
{
    proof {
        if well_keyed(tree@) {
            crate::laws::law_resolution_well_keyed(tree@, env_view(*env), floats_view(*floats));
        }
    }
    let mut stack: Vec<String> = Vec::new();
    assert(crate::value::strings_view(stack) =~= Seq::<Seq<char>>::empty());
    match resolve_node(tree, tree, &mut stack, env, floats) {
        Ok(Some(v)) => Ok(v),
        Ok(None) => {
            let m: Vec<(String, Value)> = Vec::new();
            assert(members_view(m) =~= Seq::<(Seq<char>, SVal)>::empty());
            proof {
                crate::value::lemma_all_concrete_members(members_view(m));
            }
            Ok(Value::Obj(m))
        },
        Err(e) => Err(e),
    }
}

// ---------- float literals ----------

/// The float literals of a value, in document order.
pub open spec fn floats_in(v: SVal) -> Seq<Seq<char>>
    decreases v,
{
    match v {
        SVal::Float(t) => seq![t],
        SVal::Arr(items) => floats_in_vals(items),
        SVal::Obj(m) => floats_in_members(m),
        SVal::Concat(segs) => floats_in_segs(segs),
        _ => Seq::empty(),
    }
}

pub open spec fn floats_in_vals(s: Seq<SVal>) -> Seq<Seq<char>>
    decreases s,
{
    if s.len() == 0 {
        Seq::empty()
    } else {
        floats_in_vals(s.drop_last()) + floats_in(s.last())
    }
}

pub open spec fn floats_in_members(m: Seq<(Seq<char>, SVal)>) -> Seq<Seq<char>>
    decreases m,
{
    if m.len() == 0 {
        Seq::empty()
    } else {
        floats_in_members(m.drop_last()) + floats_in(m.last().1)
    }
}

pub open spec fn floats_in_segs(s: Seq<SSeg>) -> Seq<Seq<char>>
    decreases s,
{
    if s.len() == 0 {
        Seq::empty()
    } else {
        floats_in_segs(s.drop_last()) + match s.last() {
            SSeg::Val(v) => floats_in(v),
            _ => Seq::empty(),
        }
    }
}

fn append_strings(out: &mut Vec<String>, more: Vec<String>)
    ensures
        crate::value::strings_view(*final(out)) == crate::value::strings_view(*old(out)) + crate::value::strings_view(more),
{
    let ghost o = crate::value::strings_view(*out);
    let mut k: usize = 0;
    while k < more.len()
        invariant
            k <= more.len(),
            crate::value::strings_view(*out) == o + crate::value::strings_view(more).take(k as int),
        decreases more.len() - k,
    {
        let ghost before = crate::value::strings_view(*out);
        out.push(more[k].clone());
        assert(crate::value::strings_view(*out) =~= before.push(more@[k as int]@));
        assert(crate::value::strings_view(more).take(k + 1) =~= crate::value::strings_view(more).take(k as int).push(more@[k as int]@));
        k += 1;
    }
    assert(crate::value::strings_view(more).take(more.len() as int) =~= crate::value::strings_view(more));
}

/// The float literals of a value, in document order (the texts whose renderings resolution
/// may need).
#[verifier::loop_isolation(false)]
pub fn float_tokens(v: &Value) -> (r: Vec<String>)
    ensures
        crate::value::strings_view(r) == floats_in(v@),
    decreases v,
{
    broadcast use vstd::std_specs::vec::axiom_vec_index_decreases;

    let mut out: Vec<String> = Vec::new();
    assert(crate::value::strings_view(out) =~= Seq::<Seq<char>>::empty());
    match v {
        Value::Float(t) => {
            out.push(t.clone());
            assert(crate::value::strings_view(out) =~= seq![t@]);
        },
        Value::Arr(items) => {
            let ghost iv = vals_view(*items);
            let mut k: usize = 0;
            while k < items.len()
                invariant
                    k <= items.len(),
                    iv == vals_view(*items),
                    v@ == SVal::Arr(iv),
                    crate::value::strings_view(out) == floats_in_vals(iv.take(k as int)),
                decreases items.len() - k,
            {
                assert(iv.take(k + 1).drop_last() =~= iv.take(k as int));
                assert(iv.take(k + 1).last() == items@[k as int]@);
                let more = float_tokens(&items[k]);
                append_strings(&mut out, more);
                k += 1;
            }
            assert(iv.take(items.len() as int) =~= iv);
        },
        Value::Obj(m) => {
            let ghost mv = members_view(*m);
            let mut k: usize = 0;
            while k < m.len()
                invariant
                    k <= m.len(),
                    mv == members_view(*m),
                    v@ == SVal::Obj(mv),
                    crate::value::strings_view(out) == floats_in_members(mv.take(k as int)),
                decreases m.len() - k,
            {
                assert(mv.take(k + 1).drop_last() =~= mv.take(k as int));
                assert(mv.take(k + 1).last() == (m@[k as int].0@, m@[k as int].1@));
                assert(decreases_to!(v => m@[k as int].1));
                let more = float_tokens(&m[k].1);
                append_strings(&mut out, more);
                k += 1;
            }
            assert(mv.take(m.len() as int) =~= mv);
        },
        Value::Concat(segs) => {
            let ghost gv = segs_view(*segs);
            let mut k: usize = 0;
            while k < segs.len()
                invariant
                    k <= segs.len(),
                    gv == segs_view(*segs),
                    v@ == SVal::Concat(gv),
                    crate::value::strings_view(out) == floats_in_segs(gv.take(k as int)),
                decreases segs.len() - k,
            {
                assert(gv.take(k + 1).drop_last() =~= gv.take(k as int));
                assert(gv.take(k + 1).last() == segs@[k as int]@);
                match &segs[k] {
                    CSeg::Val(w) => {
                        assert(decreases_to!(v => w));
                        let more = float_tokens(w);
                        append_strings(&mut out, more);
                    },
                    _ => {
                        assert(crate::value::strings_view(out) + Seq::<Seq<char>>::empty() =~= crate::value::strings_view(out));
                    },
                }
                k += 1;
            }
            assert(gv.take(segs.len() as int) =~= gv);
        },
        _ => {},
    }
    out
}

} // verus!
