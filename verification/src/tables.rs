//! Supplying included files: a reading that did not ask for a file is not changed by more
//! entries in the table, and a reading asks only for a file that the table lacks.

use vstd::prelude::*;
use crate::assemble::SPart;
use crate::inclusion::{find_entry_from, include_spec_spec, SEntry};
use crate::lexer::{
    at, key_spec, lemma_skip_inline, lemma_skip_separators, quoted_spec, skip_inline_from,
    skip_separators_from, subst_spec, text_end_from, SErr,
};
use crate::parser::{
    array_spec, braced_spec, budget, char_at, debug_char_option, inclusion_spec, items_spec,
    lemma_budget_update, lemma_key_spec, lemma_raw_end, members_spec, parts_spec, raw_end_from,
    root_spec, seq_inclusion_kw, value_spec, value_stop, PCtx,
};
use crate::scalar::is_safe_key;
use crate::text::trim;
use crate::value::SVal;

verus! {

/// `y` reads with the files of `x` and possibly more: the entries of `x` first, each
/// enterable in `y` exactly when it is in `x`, and the same directory.
pub open spec fn supplies_more(x: PCtx, y: PCtx) -> bool {
    &&& x.avail.len() == x.table.len()
    &&& y.avail.len() == y.table.len()
    &&& x.table.len() <= y.table.len()
    &&& forall|k: int| 0 <= k < x.table.len() ==> #[trigger] y.table[k] == x.table[k] && y.avail[k] == x.avail[k]
    &&& y.base == x.base
}

/// The reading ended asking for a file.
pub open spec fn asks<T>(r: Result<T, SErr>) -> bool {
    r matches Err(SErr::NeedFile(_, _))
}

/// A file that the reading asks for is one that `table` lacks.
pub open spec fn asks_new<T>(r: Result<T, SErr>, table: Seq<SEntry>) -> bool {
    r matches Err(SErr::NeedFile(b, p)) ==> find_entry_from(table, b, p, 0) is None
}

proof fn lemma_find_more(t: Seq<SEntry>, u: Seq<SEntry>, base: Seq<char>, path: Seq<char>, i: int)
    requires
        0 <= i,
        t.len() <= u.len(),
        forall|k: int| 0 <= k < t.len() ==> #[trigger] u[k] == t[k],
    ensures
        find_entry_from(t, base, path, i) is Some ==> find_entry_from(u, base, path, i) == find_entry_from(t, base, path, i),
    decreases t.len() - i,
{
    if i < t.len() {
        assert(u[i] == t[i]);
        lemma_find_more(t, u, base, path, i + 1);
    }
}

proof fn lemma_quoted_asks_nothing(c: Seq<char>, j: int, acc: Seq<char>)
    ensures
        !asks(crate::lexer::quoted_from(c, j, acc)),
    decreases c.len() - j,
{
    if 0 <= j < c.len() && c[j] != '"' {
        if c[j] == '\\' {
            if j + 1 < c.len() {
                lemma_quoted_asks_nothing(c, j + 2, acc + crate::lexer::escape_spec(c[j + 1]));
            }
        } else {
            lemma_quoted_asks_nothing(c, j + 1, acc.push(c[j]));
        }
    }
}

pub proof fn lemma_root_more(x: PCtx, y: PCtx, c: Seq<char>, i: int)
    requires
        supplies_more(x, y),
    ensures
        !asks(root_spec(x, c, i)) ==> root_spec(y, c, i) == root_spec(x, c, i),
        asks_new(root_spec(x, c, i), x.table),
    decreases budget(x.avail), c.len() - i, 7int,
{
    if 0 <= i <= c.len() {
        lemma_skip_separators(c, i);
        let j = skip_separators_from(c, i);
        if at(c, j, '{') {
            lemma_braced_more(x, y, c, j);
        } else {
            lemma_members_more(x, y, c, j, None, Seq::empty());
        }
    }
}

pub proof fn lemma_braced_more(x: PCtx, y: PCtx, c: Seq<char>, i: int)
    requires
        supplies_more(x, y),
    ensures
        !asks(braced_spec(x, c, i)) ==> braced_spec(y, c, i) == braced_spec(x, c, i),
        asks_new(braced_spec(x, c, i), x.table),
    decreases budget(x.avail), c.len() - i, 3int,
{
    if 0 <= i < c.len() && c[i] == '{' {
        lemma_members_more(x, y, c, i + 1, Some('}'), Seq::empty());
    }
}

pub proof fn lemma_members_more(
    x: PCtx,
    y: PCtx,
    c: Seq<char>,
    i: int,
    close: Option<char>,
    acc: Seq<(Seq<char>, SVal)>,
)
    requires
        supplies_more(x, y),
    ensures
        !asks(members_spec(x, c, i, close, acc)) ==> members_spec(y, c, i, close, acc) == members_spec(
            x,
            c,
            i,
            close,
            acc,
        ),
        asks_new(members_spec(x, c, i, close, acc), x.table),
    decreases budget(x.avail), c.len() - i, 2int,
{
    if 0 <= i <= c.len() {
        lemma_skip_separators(c, i);
        let j1 = skip_separators_from(c, i);
        if j1 < c.len() && close != Some(c[j1]) {
            lemma_key_spec(c, j1);
            lemma_quoted_asks_nothing(c, j1 + 1, Seq::empty());
            if let Ok(((key, quoted), j2)) = key_spec(c, j1) {
                lemma_skip_inline(c, j2);
                let j3 = skip_inline_from(c, j2);
                if key == seq_inclusion_kw() && !quoted && !(at(c, j3, '=') || at(c, j3, ':') || at(
                    c,
                    j3,
                    '{',
                )) {
                    lemma_inclusion_more(x, y, c, j3, acc);
                    if let Ok((acc2, j4)) = inclusion_spec(x, c, j3, acc) {
                        if i < j4 <= c.len() {
                            lemma_members_more(x, y, c, j4, close, acc2);
                        }
                    }
                } else if !(at(c, j3, '+') && at(c, j3 + 1, '=')) && !(quoted && !is_safe_key(key)) {
                    if at(c, j3, '=') || at(c, j3, ':') {
                        lemma_value_more(x, y, c, j3 + 1);
                    } else if at(c, j3, '{') {
                        lemma_braced_more(x, y, c, j3);
                    }
                    let vr = if at(c, j3, '=') || at(c, j3, ':') {
                        value_spec(x, c, j3 + 1)
                    } else if at(c, j3, '{') {
                        match braced_spec(x, c, j3) {
                            Ok((m, k)) => Ok((SVal::Obj(m), k)),
                            Err(e) => Err(e),
                        }
                    } else {
                        Err(
                            SErr::Parse(
                                "expected '=' or ':' after the key, got "@ + debug_char_option(char_at(c, j3)),
                            ),
                        )
                    };
                    if let Ok((v, j5)) = vr {
                        let acc2 = if quoted {
                            crate::merge::merged(acc, key, v)
                        } else {
                            let (h, sub) = crate::merge::split_head_spec(key, v);
                            crate::merge::merged(acc, h, sub)
                        };
                        if i < j5 <= c.len() {
                            lemma_members_more(x, y, c, j5, close, acc2);
                        }
                    }
                }
            }
        }
    }
}

pub proof fn lemma_inclusion_more(x: PCtx, y: PCtx, c: Seq<char>, i: int, acc: Seq<(Seq<char>, SVal)>)
    requires
        supplies_more(x, y),
    ensures
        !asks(inclusion_spec(x, c, i, acc)) ==> inclusion_spec(y, c, i, acc) == inclusion_spec(x, c, i, acc),
        asks_new(inclusion_spec(x, c, i, acc), x.table),
    decreases budget(x.avail), c.len() - i, 1int,
{
    if 0 <= i <= c.len() {
        lemma_raw_end(c, i);
        let e = raw_end_from(c, i);
        if let Ok((path, required, kind)) = include_spec_spec(trim(c.subrange(i, e))) {
            if kind is File {
                lemma_find_more(x.table, y.table, x.base, path, 0);
                crate::inclusion::lemma_find_entry_from(x.table, x.base, path, 0);
                if let Some(k) = find_entry_from(x.table, x.base, path, 0) {
                    assert(y.table[k] == x.table[k]);
                    if 0 <= k < x.avail.len() && x.avail[k] {
                        if let Some(text) = x.table[k].2 {
                            lemma_budget_update(x.avail, k);
                            let x2 = PCtx {
                                table: x.table,
                                avail: x.avail.update(k, false),
                                base: x.table[k].3,
                            };
                            let y2 = PCtx {
                                table: y.table,
                                avail: y.avail.update(k, false),
                                base: y.table[k].3,
                            };
                            assert forall|q: int| 0 <= q < x2.table.len() implies #[trigger] y2.table[q]
                                == x2.table[q] && y2.avail[q] == x2.avail[q] by {
                                assert(y.table[q] == x.table[q]);
                            }
                            lemma_root_more(x2, y2, text, 0);
                        }
                    }
                }
            }
        }
    }
}

pub proof fn lemma_value_more(x: PCtx, y: PCtx, c: Seq<char>, i: int)
    requires
        supplies_more(x, y),
    ensures
        !asks(value_spec(x, c, i)) ==> value_spec(y, c, i) == value_spec(x, c, i),
        asks_new(value_spec(x, c, i), x.table),
    decreases budget(x.avail), c.len() - i, 5int,
{
    if 0 <= i <= c.len() {
        crate::lexer::lemma_skip_blanks(c, i);
        let j = crate::lexer::skip_blanks_from(c, i);
        lemma_parts_more(x, y, c, j, Seq::empty());
    }
}

pub proof fn lemma_parts_more(x: PCtx, y: PCtx, c: Seq<char>, j: int, acc: Seq<SPart>)
    requires
        supplies_more(x, y),
    ensures
        !asks(parts_spec(x, c, j, acc)) ==> parts_spec(y, c, j, acc) == parts_spec(x, c, j, acc),
        asks_new(parts_spec(x, c, j, acc), x.table),
    decreases budget(x.avail), c.len() - j, 4int,
{
    if 0 <= j < c.len() {
        let ch = c[j];
        if !value_stop(c, j) {
            if ch == '{' {
                lemma_braced_more(x, y, c, j);
            } else if ch == '[' {
                lemma_array_more(x, y, c, j);
            } else if ch == '"' {
                lemma_quoted_asks_nothing(c, j + 1, Seq::empty());
            }
            let unit: Result<(SPart, int), SErr> = if ch == '{' {
                match braced_spec(x, c, j) {
                    Ok((m, k)) => Ok((SPart::Obj(m), k)),
                    Err(e) => Err(e),
                }
            } else if ch == '[' {
                match array_spec(x, c, j) {
                    Ok((a, k)) => Ok((SPart::Arr(a), k)),
                    Err(e) => Err(e),
                }
            } else if ch == '"' {
                match quoted_spec(c, j) {
                    Ok((s, k)) => Ok((SPart::Quoted(s), k)),
                    Err(e) => Err(e),
                }
            } else if ch == '$' && at(c, j + 1, '{') {
                match subst_spec(c, j) {
                    Ok(((path, opt), k)) => Ok((SPart::Sub(path, opt), k)),
                    Err(e) => Err(e),
                }
            } else {
                let k = text_end_from(c, j, j);
                Ok((SPart::Text(c.subrange(j, k)), k))
            };
            if let Ok((p, k)) = unit {
                if j < k <= c.len() {
                    lemma_parts_more(x, y, c, k, acc.push(p));
                }
            }
        }
    }
}

pub proof fn lemma_array_more(x: PCtx, y: PCtx, c: Seq<char>, i: int)
    requires
        supplies_more(x, y),
    ensures
        !asks(array_spec(x, c, i)) ==> array_spec(y, c, i) == array_spec(x, c, i),
        asks_new(array_spec(x, c, i), x.table),
    decreases budget(x.avail), c.len() - i, 3int,
{
    if 0 <= i < c.len() {
        lemma_items_more(x, y, c, i + 1, Seq::empty());
    }
}

pub proof fn lemma_items_more(x: PCtx, y: PCtx, c: Seq<char>, j: int, acc: Seq<SVal>)
    requires
        supplies_more(x, y),
    ensures
        !asks(items_spec(x, c, j, acc)) ==> items_spec(y, c, j, acc) == items_spec(x, c, j, acc),
        asks_new(items_spec(x, c, j, acc), x.table),
    decreases budget(x.avail), c.len() - j, 6int,
{
    if 0 <= j <= c.len() {
        lemma_skip_separators(c, j);
        let j1 = skip_separators_from(c, j);
        if j1 < c.len() && c[j1] != ']' {
            lemma_value_more(x, y, c, j1);
            if let Ok((v, k)) = value_spec(x, c, j1) {
                if j < k <= c.len() {
                    lemma_items_more(x, y, c, k, acc.push(v));
                }
            }
        }
    }
}

} // verus!
