//! Turning the units read for one value into that value.

use vstd::prelude::*;
use crate::lexer::{unsupported, HoconError, SErr};
use crate::scalar::{classify, classify_spec, is_bare_kw, is_keyword_range};
use crate::text::{is_blank, is_blank_text, is_whitespace, trim, trimmed, word_end_from, words, words_from};
use crate::value::{members_view, strings_view, vals_view, CSeg, SSeg, SVal, Value};

verus! {

/// One unit of a value as read: a quoted string, unquoted text, a substitution, an object or an
/// array.
pub enum RawPart {
    Quoted(String),
    Text(String),
    Sub { path: Vec<String>, optional: bool },
    Obj(Vec<(String, Value)>),
    Arr(Vec<Value>),
}

/// The model of a [`RawPart`].
pub enum SPart {
    Quoted(Seq<char>),
    Text(Seq<char>),
    Sub(Seq<Seq<char>>, bool),
    Obj(Seq<(Seq<char>, SVal)>),
    Arr(Seq<SVal>),
}

impl View for RawPart {
    type V = SPart;

    open spec fn view(&self) -> SPart {
        match self {
            RawPart::Quoted(s) => SPart::Quoted(s@),
            RawPart::Text(s) => SPart::Text(s@),
            RawPart::Sub { path, optional } => SPart::Sub(strings_view(*path), *optional),
            RawPart::Obj(m) => SPart::Obj(members_view(*m)),
            RawPart::Arr(a) => SPart::Arr(vals_view(*a)),
        }
    }
}

pub open spec fn parts_view(v: Vec<RawPart>) -> Seq<SPart> {
    Seq::new(v.len() as nat, |i: int| v@[i]@)
}

/// Unquoted text that is empty or whitespace only.
pub open spec fn blank_part(p: SPart) -> bool {
    p matches SPart::Text(t) && is_blank(t)
}

/// Indices of the parts that are not blank text.
pub open spec fn non_blank(parts: Seq<SPart>) -> Seq<int>
    decreases parts.len(),
{
    if parts.len() == 0 {
        Seq::empty()
    } else {
        let rest = non_blank(parts.drop_last());
        if blank_part(parts.last()) {
            rest
        } else {
            rest.push(parts.len() - 1)
        }
    }
}

/// Some word of the list is a keyword.
pub open spec fn any_kw(ws: Seq<Seq<char>>) -> bool {
    exists|k: int| 0 <= k < ws.len() && is_bare_kw(#[trigger] ws[k])
}

/// Some unquoted part holds a keyword among its words.
pub open spec fn kw_in_text_parts(parts: Seq<SPart>) -> bool {
    exists|k: int| 0 <= k < parts.len() && (#[trigger] parts[k] matches SPart::Text(t) && any_kw(words(t)))
}

pub open spec fn part_seg(p: SPart) -> SSeg {
    match p {
        SPart::Quoted(q) => SSeg::Val(SVal::Str(q)),
        SPart::Obj(m) => SSeg::Val(SVal::Obj(m)),
        SPart::Arr(a) => SSeg::Val(SVal::Arr(a)),
        SPart::Sub(path, opt) => SSeg::Sub(path, opt),
        SPart::Text(t) => SSeg::Text(t),
    }
}

/// The value that the units of one value make: a lone unit stands for itself (unquoted text is
/// typed); several make a concatenation. Keywords mixed with other unquoted words, or inside a
/// concatenation, are unsupported.
pub open spec fn build_spec(parts: Seq<SPart>) -> Result<SVal, SErr> {
    let nb = non_blank(parts);
    if nb.len() == 1 {
        match parts[nb[0]] {
            SPart::Sub(path, opt) => Ok(SVal::Subst(path, opt)),
            SPart::Quoted(s) => Ok(SVal::Str(s)),
            SPart::Obj(m) => Ok(SVal::Obj(m)),
            SPart::Arr(a) => Ok(SVal::Arr(a)),
            SPart::Text(t) => {
                let tr = trim(t);
                if words(tr).len() > 1 && any_kw(words(tr)) {
                    Err(SErr::Unsupported("bare keyword (true/false/null) in multi-token value"@))
                } else {
                    Ok(classify_spec(tr))
                }
            },
        }
    } else if kw_in_text_parts(parts) {
        Err(SErr::Unsupported("bare keyword (true/false/null) in concatenation"@))
    } else {
        Ok(SVal::Concat(Seq::new(parts.len(), |k: int| part_seg(parts[k]))))
    }
}

pub proof fn lemma_non_blank(parts: Seq<SPart>)
    ensures
        forall|k: int| 0 <= k < non_blank(parts).len() ==> 0 <= #[trigger] non_blank(parts)[k] < parts.len(),
    decreases parts.len(),
{
    if parts.len() > 0 {
        lemma_non_blank(parts.drop_last());
        let rest = non_blank(parts.drop_last());
        assert forall|k: int| 0 <= k < non_blank(parts).len() implies 0 <= #[trigger] non_blank(parts)[k] < parts.len() by {
            if k < rest.len() {
                assert(non_blank(parts)[k] == rest[k]);
            }
        }
    }
}

/// Counts the words of `t` and tells whether one of them is a keyword.
pub fn words_info(t: &Vec<char>) -> (r: (usize, bool))
    ensures
        r.0 == words(t@).len(),
        r.1 == any_kw(words(t@)),
{
    let n = t.len();
    let mut i: usize = 0;
    let mut cnt: usize = 0;
    let mut any = false;
    let ghost mut done: Seq<Seq<char>> = Seq::empty();
    while i < n
        invariant
            n == t.len(),
            i <= n,
            cnt == done.len(),
            cnt <= i,
            words(t@) == done + words_from(t@, i as int),
            any == any_kw(done),
        decreases n - i,
    {
        if is_whitespace(t[i]) {
            i += 1;
        } else {
            let mut b = i;
            while b < n && !is_whitespace(t[b])
                invariant
                    i <= b <= n == t.len(),
                    word_end_from(t@, b as int) == word_end_from(t@, i as int),
                decreases n - b,
            {
                b += 1;
            }
            let kw = is_keyword_range(t, i, b);
            proof {
                let w = t@.subrange(i as int, b as int);
                assert(words_from(t@, i as int) == seq![w] + words_from(t@, b as int));
                let nd = done.push(w);
                assert(done + words_from(t@, i as int) =~= nd + words_from(t@, b as int));
                if any_kw(nd) && !any_kw(done) {
                    let k = choose|k: int| 0 <= k < nd.len() && is_bare_kw(#[trigger] nd[k]);
                    assert(k == done.len());
                }
                if any_kw(done) {
                    let k = choose|k: int| 0 <= k < done.len() && is_bare_kw(#[trigger] done[k]);
                    assert(nd[k] == done[k]);
                }
                if kw {
                    assert(nd[done.len() as int] == w);
                }
                done = nd;
            }
            cnt += 1;
            any = any || kw;
            i = b;
        }
    }
    assert(words_from(t@, i as int) =~= Seq::<Seq<char>>::empty());
    assert(done + Seq::<Seq<char>>::empty() =~= done);
    (cnt, any)
}

fn part_to_seg(p: RawPart) -> (s: CSeg)
    ensures
        s@ == part_seg(p@),
{
    match p {
        RawPart::Quoted(q) => CSeg::Val(Value::Str(q)),
        RawPart::Obj(m) => CSeg::Val(Value::Obj(m)),
        RawPart::Arr(a) => CSeg::Val(Value::Arr(a)),
        RawPart::Sub { path, optional } => CSeg::Sub { path, optional },
        RawPart::Text(t) => CSeg::Text(t),
    }
}

/// The value that the units read for one value make (see [`build_spec`]).
pub fn build_value(parts: Vec<RawPart>) -> (r: Result<Value, HoconError>)
    ensures
        r matches Ok(v) ==> build_spec(parts_view(parts)) == Ok::<SVal, SErr>(v@),
        r matches Err(e) ==> build_spec(parts_view(parts)) == Err::<SVal, SErr>(e@),
{
    let ghost pv = parts_view(parts);
    // indices of the parts that are not blank text
    let mut nb: Vec<usize> = Vec::new();
    let mut i: usize = 0;
    while i < parts.len()
        invariant
            i <= parts.len(),
            pv == parts_view(parts),
            nb@.len() == non_blank(pv.take(i as int)).len(),
            forall|k: int| 0 <= k < nb@.len() ==> nb@[k] as int == #[trigger] non_blank(pv.take(i as int))[k],
        decreases parts.len() - i,
    {
        assert(pv.take(i + 1).drop_last() =~= pv.take(i as int));
        let blank = match &parts[i] {
            RawPart::Text(t) => {
                let tc = crate::text::chars_of_string(t);
                is_blank_text(&tc)
            },
            _ => false,
        };
        assert(blank == blank_part(pv[i as int]));
        if !blank {
            nb.push(i);
        }
        i += 1;
    }
    assert(pv.take(parts.len() as int) =~= pv);
    proof {
        lemma_non_blank(pv);
    }
    let mut parts = parts;
    if nb.len() == 1 {
        let idx = nb[0];
        assert(0 <= idx < parts.len());
        assert(pv[idx as int] == parts@[idx as int]@);
        let p = parts.remove(idx);
        match p {
            RawPart::Sub { path, optional } => Ok(Value::Subst { path, optional }),
            RawPart::Quoted(s) => Ok(Value::Str(s)),
            RawPart::Obj(m) => Ok(Value::Obj(m)),
            RawPart::Arr(a) => Ok(Value::Arr(a)),
            RawPart::Text(t) => {
                let tc = crate::text::chars_of_string(&t);
                let tr = trimmed(&tc);
                let (cnt, any) = words_info(&tr);
                if cnt > 1 && any {
                    return Err(unsupported("bare keyword (true/false/null) in multi-token value"));
                }
                Ok(classify(&tr))
            },
        }
    } else {
        let mut k: usize = 0;
        let mut found = false;
        while k < parts.len() && !found
            invariant
                k <= parts.len(),
                pv == parts_view(parts),
                non_blank(pv).len() != 1,
                !found ==> forall|j: int| 0 <= j < k ==> !(#[trigger] pv[j] matches SPart::Text(t) && any_kw(words(t))),
                found ==> kw_in_text_parts(pv),
            decreases parts.len() - k,
        {
            let has = match &parts[k] {
                RawPart::Text(t) => {
                    let tc = crate::text::chars_of_string(t);
                    let (_, any) = words_info(&tc);
                    any
                },
                _ => false,
            };
            if has {
                assert(pv[k as int] == parts@[k as int]@);
                assert(pv[k as int] matches SPart::Text(t) && any_kw(words(t)));
                found = true;
            }
            k += 1;
        }
        if found {
            return Err(unsupported("bare keyword (true/false/null) in concatenation"));
        }
        let ghost segs_spec = Seq::new(pv.len(), |j: int| part_seg(pv[j]));
        let mut segs: Vec<CSeg> = Vec::new();
        let n = parts.len();
        let mut j: usize = 0;
        while j < n
            invariant
                j <= n == pv.len(),
                parts_view(parts) == pv.skip(j as int),
                parts.len() == n - j,
                segs.len() == j,
                forall|l: int| 0 <= l < j ==> #[trigger] segs@[l]@ == part_seg(pv[l]),
                non_blank(pv).len() != 1,
                !kw_in_text_parts(pv),
            decreases n - j,
        {
            let ghost before = parts_view(parts);
            assert(before[0] == parts@[0]@);
            let p = parts.remove(0);
            assert(parts_view(parts) =~= before.drop_first());
            assert(pv.skip(j as int).drop_first() =~= pv.skip(j + 1));
            segs.push(part_to_seg(p));
            j += 1;
        }
        assert(crate::value::segs_view(segs) =~= segs_spec) by {
            assert forall|l: int| 0 <= l < segs.len() implies #[trigger] crate::value::segs_view(segs)[l] == segs_spec[l] by {
                assert(segs@[l]@ == part_seg(pv[l]));
            }
        }
        Ok(Value::Concat(segs))
    }
}

} // verus!
