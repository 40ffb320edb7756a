//! A document reads the same between braces: `{` and a newline before it, a newline and `}`
//! after it, change nothing in what it reads as.

use vstd::prelude::*;
use crate::lexer::{
    at, close_brace_from, key_end_from, key_spec, key_stop, quoted_from, skip_blanks_from,
    skip_inline_from, skip_separators_from, skip_to_eol_from, slash2, subst_spec, text_end_from,
    text_stop,
};
use crate::assemble::SPart;
use crate::lexer::{lemma_skip_blanks, lemma_skip_inline, lemma_skip_separators, quoted_spec, SErr};
use crate::parser::{
    array_spec, braced_spec, budget, char_at, debug_char_option, inclusion_spec, items_spec,
    lemma_key_spec, lemma_raw_end, members_spec, parts_spec, raw_end_from, root_spec,
    seq_inclusion_kw, value_spec, value_stop, PCtx,
};
use crate::scalar::is_safe_key;
use crate::text::trim;
use crate::value::SVal;

verus! {

/// The document between braces, each on a line of its own.
pub open spec fn wrap(s: Seq<char>) -> Seq<char> {
    seq!['{', '\n'] + s + seq!['\n', '}']
}

/// Position `i` of `s` and position `i2` of `wrap(s)` are where the two readings stand at the
/// same point: `i2` is `i` shifted past the opening line, or, at the end of `s`, one of the two
/// positions of the closing lines.
pub open spec fn pos_rel(n: int, i: int, i2: int) -> bool {
    ||| 0 <= i < n && i2 == i + 2
    ||| i == n && (i2 == n + 2 || i2 == n + 3)
}

proof fn lemma_wrap(s: Seq<char>)
    ensures
        wrap(s).len() == s.len() + 4,
        wrap(s)[0] == '{',
        wrap(s)[1] == '\n',
        wrap(s)[s.len() as int + 2] == '\n',
        wrap(s)[s.len() as int + 3] == '}',
        forall|k: int| 0 <= k < s.len() ==> #[trigger] s[k] == wrap(s)[k + 2],
{
}

proof fn lemma_eol_shift(s: Seq<char>, i: int)
    requires
        0 <= i < s.len(),
    ensures
        pos_rel(s.len() as int, skip_to_eol_from(s, i), skip_to_eol_from(wrap(s), i + 2)),
    decreases s.len() - i,
{
    lemma_wrap(s);
    let w = wrap(s);
    assert(s[i] == w[i + 2]);
    if s[i] != '\n' {
        if i + 1 < s.len() {
            lemma_eol_shift(s, i + 1);
        } else {
            assert(skip_to_eol_from(s, i + 1) == i + 1);
            assert(skip_to_eol_from(w, i + 3) == i + 4);
        }
    }
}

pub proof fn lemma_seps_shift(s: Seq<char>, i: int, i2: int)
    requires
        pos_rel(s.len() as int, i, i2),
    ensures
        pos_rel(s.len() as int, skip_separators_from(s, i), skip_separators_from(wrap(s), i2)),
        skip_separators_from(s, i) == s.len() ==> skip_separators_from(wrap(s), i2) == s.len() + 3,
    decreases s.len() - i,
{
    lemma_wrap(s);
    let w = wrap(s);
    let n = s.len() as int;
    if i == n {
        assert(skip_separators_from(w, n + 3) == n + 3);
        if i2 == n + 2 {
            assert(skip_separators_from(w, n + 2) == skip_separators_from(w, n + 3));
        }
    } else {
        let ch = s[i];
        assert(w[i + 2] == ch);
        assert(slash2(s, i) == slash2(w, i + 2)) by {
            if i + 1 < n {
                assert(s[i + 1] == w[i + 3]);
            }
        }
        if ch == ' ' || ch == '\t' || ch == '\r' || ch == '\n' || ch == ',' {
            lemma_seps_shift(s, i + 1, i + 3);
        } else if ch == '#' || slash2(s, i) {
            lemma_eol_shift(s, i);
            crate::lexer::lemma_skip_to_eol(s, i);
            crate::lexer::lemma_skip_to_eol(w, i + 2);
            let q = skip_to_eol_from(s, i);
            lemma_seps_shift(s, q, skip_to_eol_from(w, i + 2));
        }
    }
}

pub proof fn lemma_seps_fixed(c: Seq<char>, i: int)
    requires
        0 <= i <= c.len(),
    ensures
        skip_separators_from(c, skip_separators_from(c, i)) == skip_separators_from(c, i),
    decreases c.len() - i,
{
    if i < c.len() {
        let ch = c[i];
        if ch == ' ' || ch == '\t' || ch == '\r' || ch == '\n' || ch == ',' {
            lemma_seps_fixed(c, i + 1);
        } else if ch == '#' || slash2(c, i) {
            crate::lexer::lemma_skip_to_eol(c, i);
            lemma_seps_fixed(c, skip_to_eol_from(c, i));
        }
    }
}

pub proof fn lemma_inline_shift(s: Seq<char>, i: int, i2: int)
    requires
        pos_rel(s.len() as int, i, i2),
    ensures
        pos_rel(s.len() as int, skip_inline_from(s, i), skip_inline_from(wrap(s), i2)),
    decreases s.len() - i,
{
    lemma_wrap(s);
    let w = wrap(s);
    let n = s.len() as int;
    if i == n {
        assert(skip_inline_from(w, n + 3) == n + 3);
        assert(skip_inline_from(w, n + 2) == n + 2);
    } else {
        let ch = s[i];
        assert(w[i + 2] == ch);
        assert(slash2(s, i) == slash2(w, i + 2)) by {
            if i + 1 < n {
                assert(s[i + 1] == w[i + 3]);
            }
        }
        if ch == ' ' || ch == '\t' || ch == '\r' {
            lemma_inline_shift(s, i + 1, i + 3);
        } else if ch == '#' || slash2(s, i) {
            lemma_eol_shift(s, i);
            crate::lexer::lemma_skip_to_eol(s, i);
            crate::lexer::lemma_skip_to_eol(w, i + 2);
            let q = skip_to_eol_from(s, i);
            lemma_inline_shift(s, q, skip_to_eol_from(w, i + 2));
        }
    }
}

pub proof fn lemma_blanks_shift(s: Seq<char>, i: int, i2: int)
    requires
        pos_rel(s.len() as int, i, i2),
    ensures
        pos_rel(s.len() as int, skip_blanks_from(s, i), skip_blanks_from(wrap(s), i2)),
    decreases s.len() - i,
{
    lemma_wrap(s);
    let w = wrap(s);
    let n = s.len() as int;
    if i == n {
        assert(skip_blanks_from(w, n + 3) == n + 3);
        assert(skip_blanks_from(w, n + 2) == n + 2);
    } else {
        assert(w[i + 2] == s[i]);
        if s[i] == ' ' || s[i] == '\t' || s[i] == '\r' {
            lemma_blanks_shift(s, i + 1, i + 3);
        }
    }
}

proof fn lemma_key_end_shift(s: Seq<char>, k: int)
    requires
        0 <= k <= s.len(),
    ensures
        key_end_from(s, k) < s.len() ==> key_end_from(wrap(s), k + 2) == key_end_from(s, k) + 2,
        key_end_from(s, k) >= s.len() ==> pos_rel(s.len() as int, key_end_from(s, k), key_end_from(wrap(s), k + 2)),
    decreases s.len() - k,
{
    lemma_wrap(s);
    let w = wrap(s);
    let n = s.len() as int;
    if k == n {
        assert(key_stop(w, n + 2));
    } else {
        assert(w[k + 2] == s[k]);
        assert(key_stop(s, k) == key_stop(w, k + 2)) by {
            if k + 1 < n {
                assert(s[k + 1] == w[k + 3]);
            }
        }
        if !key_stop(s, k) {
            lemma_key_end_shift(s, k + 1);
        }
    }
}

proof fn lemma_quoted_shift(s: Seq<char>, j: int, acc: Seq<char>)
    requires
        0 <= j <= s.len(),
    ensures
        quoted_from(s, j, acc) matches Ok((v, k)) ==> quoted_from(wrap(s), j + 2, acc) == Ok::<(Seq<char>, int), crate::lexer::SErr>((v, k + 2)),
    decreases s.len() - j,
{
    lemma_wrap(s);
    let w = wrap(s);
    let n = s.len() as int;
    if j < n {
        assert(w[j + 2] == s[j]);
        if s[j] == '\\' {
            if j + 1 < n {
                assert(w[j + 3] == s[j + 1]);
                lemma_quoted_shift(s, j + 2, acc + crate::lexer::escape_spec(s[j + 1]));
            }
        } else if s[j] != '"' {
            lemma_quoted_shift(s, j + 1, acc.push(s[j]));
        }
    }
}

pub proof fn lemma_key_shift(s: Seq<char>, i: int)
    requires
        0 <= i < s.len(),
    ensures
        key_spec(s, i) matches Ok((kq, j)) ==> key_spec(wrap(s), i + 2) matches Ok((kq2, j2)) && kq2 == kq && pos_rel(s.len() as int, j, j2),
{
    lemma_wrap(s);
    let w = wrap(s);
    assert(w[i + 2] == s[i]);
    if at(s, i, '"') {
        lemma_quoted_shift(s, i + 1, Seq::empty());
        crate::lexer::lemma_quoted_from(s, i + 1, Seq::empty());
    } else {
        lemma_key_end_shift(s, i);
        crate::lexer::lemma_key_end(s, i);
        let j = key_end_from(s, i);
        if j < s.len() {
            assert(s.subrange(i, j) =~= w.subrange(i + 2, j + 2));
        } else {
            assert(key_end_from(w, i + 2) == s.len() + 2) by {
                lemma_key_end_exact(s, i);
            }
            assert(s.subrange(i, j) =~= w.subrange(i + 2, j + 2));
        }
    }
}

proof fn lemma_key_end_exact(s: Seq<char>, k: int)
    requires
        0 <= k <= s.len(),
        key_end_from(s, k) == s.len(),
    ensures
        key_end_from(wrap(s), k + 2) == s.len() + 2,
    decreases s.len() - k,
{
    lemma_wrap(s);
    let w = wrap(s);
    let n = s.len() as int;
    if k == n {
        assert(key_stop(w, n + 2));
    } else {
        assert(w[k + 2] == s[k]);
        assert(key_stop(s, k) == key_stop(w, k + 2)) by {
            if k + 1 < n {
                assert(s[k + 1] == w[k + 3]);
            }
        }
        lemma_key_end_exact(s, k + 1);
    }
}

proof fn lemma_close_brace_shift(s: Seq<char>, k: int)
    requires
        0 <= k <= s.len(),
    ensures
        close_brace_from(s, k) < s.len() ==> close_brace_from(wrap(s), k + 2) == close_brace_from(s, k) + 2,
    decreases s.len() - k,
{
    lemma_wrap(s);
    if k < s.len() {
        assert(wrap(s)[k + 2] == s[k]);
        if s[k] != '}' {
            lemma_close_brace_shift(s, k + 1);
        }
    }
}

pub proof fn lemma_subst_shift(s: Seq<char>, i: int)
    requires
        0 <= i,
        i + 2 <= s.len(),
    ensures
        subst_spec(s, i) matches Ok((pv, j)) ==> subst_spec(wrap(s), i + 2) matches Ok((pv2, j2)) && pv2 == pv && j2 == j + 2 && i < j <= s.len(),
{
    lemma_wrap(s);
    let w = wrap(s);
    let n = s.len() as int;
    let j0 = i + 2;
    if j0 < n {
        assert(w[j0 + 2] == s[j0]);
    }
    assert(at(s, j0, '?') == at(w, j0 + 2, '?'));
    let j1 = if at(s, j0, '?') {
        j0 + 1
    } else {
        j0
    };
    lemma_close_brace_shift(s, j1);
    crate::lexer::lemma_close_brace(s, j1);
    let e = close_brace_from(s, j1);
    if e < n {
        assert(s.subrange(j1, e) =~= w.subrange(j1 + 2, e + 2));
    }
}

pub proof fn lemma_text_end_shift(s: Seq<char>, start: int, k: int)
    requires
        0 <= start <= k <= s.len(),
    ensures
        text_end_from(wrap(s), start + 2, k + 2) == text_end_from(s, start, k) + 2,
    decreases s.len() - k,
{
    lemma_wrap(s);
    let w = wrap(s);
    let n = s.len() as int;
    if k == n {
        assert(text_stop(w, start + 2, n + 2));
    } else {
        assert(w[k + 2] == s[k]);
        if k > start {
            assert(w[k + 1] == s[k - 1]);
        }
        assert(text_stop(s, start, k) == text_stop(w, start + 2, k + 2)) by {
            if k + 1 < n {
                assert(s[k + 1] == w[k + 3]);
            }
        }
        if !text_stop(s, start, k) {
            lemma_text_end_shift(s, start, k + 1);
        }
    }
}

pub proof fn lemma_raw_end_shift(s: Seq<char>, k: int)
    requires
        0 <= k <= s.len(),
    ensures
        raw_end_from(wrap(s), k + 2) == raw_end_from(s, k) + 2,
    decreases s.len() - k,
{
    lemma_wrap(s);
    let w = wrap(s);
    let n = s.len() as int;
    if k < n {
        assert(w[k + 2] == s[k]);
        assert(slash2(s, k) == slash2(w, k + 2)) by {
            if k + 1 < n {
                assert(s[k + 1] == w[k + 3]);
            }
        }
        lemma_raw_end_shift(s, k + 1);
    }
}

// ---------- the reader ----------

/// Where the reading of `s` succeeds, the reading of `wrap(s)` from the matching position
/// succeeds with the same result, and stops at the matching position.
pub open spec fn ok_rel<T>(n: int, a: Result<(T, int), SErr>, b: Result<(T, int), SErr>) -> bool {
    a is Ok ==> (b is Ok && b->Ok_0.0 == a->Ok_0.0 && pos_rel(n, a->Ok_0.1, b->Ok_0.1))
}

proof fn lemma_inclusion_of_nothing(x: PCtx, s: Seq<char>, acc: Seq<(Seq<char>, SVal)>)
    ensures
        inclusion_spec(x, s, s.len() as int, acc) is Err,
{
    let n = s.len() as int;
    assert(raw_end_from(s, n) == n);
    assert(s.subrange(n, n) =~= Seq::<char>::empty());
    let t = trim(Seq::<char>::empty());
    crate::text::lemma_trim_empty_iff_blank(Seq::<char>::empty());
    crate::text::lemma_trim_empty_iff_blank(t);
    assert(t.len() == 0);
    assert(trim(t).len() == 0);
}

pub proof fn lemma_braced_wrap(x: PCtx, s: Seq<char>, i: int)
    requires
        0 <= i < s.len(),
    ensures
        ok_rel(s.len() as int, braced_spec(x, s, i), braced_spec(x, wrap(s), i + 2)),
    decreases budget(x.avail), s.len() - i, 3int,
{
    lemma_wrap(s);
    if s[i] == '{' {
        lemma_members_wrap(x, s, i + 1, Some('}'), Seq::empty(), i + 3);
    }
}

pub proof fn lemma_members_wrap(
    x: PCtx,
    s: Seq<char>,
    i: int,
    close: Option<char>,
    acc: Seq<(Seq<char>, SVal)>,
    i2: int,
)
    requires
        pos_rel(s.len() as int, i, i2) || (i2 == 1 && 0 <= i <= s.len() && skip_separators_from(s, i)
            == skip_separators_from(s, 0)),
        close == Some('}') || close is None,
    ensures
        ok_rel(s.len() as int, members_spec(x, s, i, close, acc), members_spec(x, wrap(s), i2, Some('}'), acc)),
        close is None && members_spec(x, s, i, close, acc) is Ok ==> members_spec(x, wrap(s), i2, Some('}'), acc)->Ok_0.1 == s.len() + 3,
    decreases budget(x.avail), s.len() - i, 2int,
{
    lemma_wrap(s);
    let w = wrap(s);
    let n = s.len() as int;
    lemma_skip_separators(s, i);
    if i2 == 1 {
        lemma_seps_shift(s, 0, 2);
        assert(skip_separators_from(w, 1) == skip_separators_from(w, 2));
    } else {
        lemma_seps_shift(s, i, i2);
    }
    let j1 = skip_separators_from(s, i);
    let j1w = skip_separators_from(w, i2);
    assert(pos_rel(n, j1, j1w));
    if j1 < n {
        assert(w[j1 + 2] == s[j1]);
        if close != Some(s[j1]) {
            lemma_key_spec(s, j1);
            lemma_key_shift(s, j1);
            if let Ok(((key, quoted), j2)) = key_spec(s, j1) {
                let j2w = key_spec(w, j1w)->Ok_0.1;
                lemma_skip_inline(s, j2);
                lemma_inline_shift(s, j2, j2w);
                let j3 = skip_inline_from(s, j2);
                if j3 == n {
                    lemma_inclusion_of_nothing(x, s, acc);
                } else {
                    assert(w[j3 + 2] == s[j3]);
                    if j3 + 1 < n {
                        assert(w[j3 + 3] == s[j3 + 1]);
                    }
                    assert(char_at(s, j3) == char_at(w, j3 + 2));
                    if key == seq_inclusion_kw() && !quoted && !(at(s, j3, '=') || at(s, j3, ':')
                        || at(s, j3, '{')) {
                        lemma_inclusion_wrap(x, s, j3, acc);
                        if let Ok((acc2, j4)) = inclusion_spec(x, s, j3, acc) {
                            if i < j4 <= n {
                                let j4w = inclusion_spec(x, w, j3 + 2, acc)->Ok_0.1;
                                lemma_members_wrap(x, s, j4, close, acc2, j4w);
                            }
                        }
                    } else if !(at(s, j3, '+') && at(s, j3 + 1, '=')) && !(quoted && !is_safe_key(key)) {
                        if at(s, j3, '=') || at(s, j3, ':') {
                            lemma_value_wrap(x, s, j3 + 1, j3 + 3);
                        } else if at(s, j3, '{') {
                            lemma_braced_wrap(x, s, j3);
                        }
                        let vr = if at(s, j3, '=') || at(s, j3, ':') {
                            value_spec(x, s, j3 + 1)
                        } else if at(s, j3, '{') {
                            match braced_spec(x, s, j3) {
                                Ok((m, k)) => Ok((SVal::Obj(m), k)),
                                Err(e) => Err(e),
                            }
                        } else {
                            Err(
                                SErr::Parse(
                                    "expected '=' or ':' after the key, got "@ + debug_char_option(char_at(s, j3)),
                                ),
                            )
                        };
                        let vrw = if at(w, j3 + 2, '=') || at(w, j3 + 2, ':') {
                            value_spec(x, w, j3 + 3)
                        } else if at(w, j3 + 2, '{') {
                            match braced_spec(x, w, j3 + 2) {
                                Ok((m, k)) => Ok((SVal::Obj(m), k)),
                                Err(e) => Err(e),
                            }
                        } else {
                            Err(
                                SErr::Parse(
                                    "expected '=' or ':' after the key, got "@ + debug_char_option(char_at(w, j3 + 2)),
                                ),
                            )
                        };
                        assert(ok_rel(n, vr, vrw));
                        if let Ok((v, j5)) = vr {
                            let acc2 = if quoted {
                                crate::merge::merged(acc, key, v)
                            } else {
                                let (h, sub) = crate::merge::split_head_spec(key, v);
                                crate::merge::merged(acc, h, sub)
                            };
                            if i < j5 <= n {
                                lemma_members_wrap(x, s, j5, close, acc2, vrw->Ok_0.1);
                            }
                        }
                    }
                }
            }
        }
    }
}

pub proof fn lemma_inclusion_wrap(x: PCtx, s: Seq<char>, i: int, acc: Seq<(Seq<char>, SVal)>)
    requires
        0 <= i < s.len(),
    ensures
        ok_rel(s.len() as int, inclusion_spec(x, s, i, acc), inclusion_spec(x, wrap(s), i + 2, acc)),
    decreases budget(x.avail), s.len() - i, 1int,
{
    lemma_wrap(s);
    lemma_raw_end(s, i);
    lemma_raw_end_shift(s, i);
    let e = raw_end_from(s, i);
    assert(s.subrange(i, e) =~= wrap(s).subrange(i + 2, e + 2));
}

pub proof fn lemma_value_wrap(x: PCtx, s: Seq<char>, i: int, i2: int)
    requires
        pos_rel(s.len() as int, i, i2),
    ensures
        ok_rel(s.len() as int, value_spec(x, s, i), value_spec(x, wrap(s), i2)),
    decreases budget(x.avail), s.len() - i, 5int,
{
    lemma_wrap(s);
    lemma_skip_blanks(s, i);
    lemma_blanks_shift(s, i, i2);
    let j = skip_blanks_from(s, i);
    lemma_parts_wrap(x, s, j, Seq::empty(), skip_blanks_from(wrap(s), i2));
}

pub proof fn lemma_parts_wrap(x: PCtx, s: Seq<char>, j: int, acc: Seq<SPart>, j2: int)
    requires
        pos_rel(s.len() as int, j, j2),
    ensures
        ok_rel(s.len() as int, parts_spec(x, s, j, acc), parts_spec(x, wrap(s), j2, acc)),
    decreases budget(x.avail), s.len() - j, 4int,
{
    lemma_wrap(s);
    let w = wrap(s);
    let n = s.len() as int;
    if j < n {
        let ch = s[j];
        assert(w[j + 2] == ch);
        if j + 1 < n {
            assert(w[j + 3] == s[j + 1]);
        }
        assert(value_stop(s, j) == value_stop(w, j + 2));
        if !value_stop(s, j) {
            if ch == '{' {
                lemma_braced_wrap(x, s, j);
            } else if ch == '[' {
                lemma_array_wrap(x, s, j);
            } else if ch == '"' {
                lemma_quoted_shift(s, j + 1, Seq::empty());
                crate::lexer::lemma_quoted_from(s, j + 1, Seq::empty());
            } else if ch == '$' && at(s, j + 1, '{') {
                lemma_subst_shift(s, j);
            } else {
                lemma_text_end_shift(s, j, j);
                crate::lexer::lemma_text_end(s, j, j);
                let k = text_end_from(s, j, j);
                assert(s.subrange(j, k) =~= w.subrange(j + 2, k + 2));
            }
            let unit: Result<(SPart, int), SErr> = if ch == '{' {
                match braced_spec(x, s, j) {
                    Ok((m, k)) => Ok((SPart::Obj(m), k)),
                    Err(e) => Err(e),
                }
            } else if ch == '[' {
                match array_spec(x, s, j) {
                    Ok((a, k)) => Ok((SPart::Arr(a), k)),
                    Err(e) => Err(e),
                }
            } else if ch == '"' {
                match quoted_spec(s, j) {
                    Ok((t, k)) => Ok((SPart::Quoted(t), k)),
                    Err(e) => Err(e),
                }
            } else if ch == '$' && at(s, j + 1, '{') {
                match subst_spec(s, j) {
                    Ok(((path, opt), k)) => Ok((SPart::Sub(path, opt), k)),
                    Err(e) => Err(e),
                }
            } else {
                let k = text_end_from(s, j, j);
                Ok((SPart::Text(s.subrange(j, k)), k))
            };
            let unitw: Result<(SPart, int), SErr> = if ch == '{' {
                match braced_spec(x, w, j + 2) {
                    Ok((m, k)) => Ok((SPart::Obj(m), k)),
                    Err(e) => Err(e),
                }
            } else if ch == '[' {
                match array_spec(x, w, j + 2) {
                    Ok((a, k)) => Ok((SPart::Arr(a), k)),
                    Err(e) => Err(e),
                }
            } else if ch == '"' {
                match quoted_spec(w, j + 2) {
                    Ok((t, k)) => Ok((SPart::Quoted(t), k)),
                    Err(e) => Err(e),
                }
            } else if ch == '$' && at(w, j + 3, '{') {
                match subst_spec(w, j + 2) {
                    Ok(((path, opt), k)) => Ok((SPart::Sub(path, opt), k)),
                    Err(e) => Err(e),
                }
            } else {
                let k = text_end_from(w, j + 2, j + 2);
                Ok((SPart::Text(w.subrange(j + 2, k)), k))
            };
            if ch == '{' {
                assert(ok_rel(n, unit, unitw));
            } else if ch == '[' {
                assert(ok_rel(n, unit, unitw));
            } else if ch == '"' {
                assert(ok_rel(n, unit, unitw));
            } else if ch == '$' && at(s, j + 1, '{') {
                assert(ok_rel(n, unit, unitw));
            } else {
                assert(ok_rel(n, unit, unitw));
            }
            if let Ok((p, k)) = unit {
                if j < k <= n {
                    lemma_parts_wrap(x, s, k, acc.push(p), unitw->Ok_0.1);
                }
            }
        }
    }
}

pub proof fn lemma_array_wrap(x: PCtx, s: Seq<char>, i: int)
    requires
        0 <= i < s.len(),
    ensures
        ok_rel(s.len() as int, array_spec(x, s, i), array_spec(x, wrap(s), i + 2)),
    decreases budget(x.avail), s.len() - i, 3int,
{
    lemma_wrap(s);
    lemma_items_wrap(x, s, i + 1, Seq::empty(), i + 3);
}

pub proof fn lemma_items_wrap(x: PCtx, s: Seq<char>, j: int, acc: Seq<SVal>, j2: int)
    requires
        pos_rel(s.len() as int, j, j2),
    ensures
        ok_rel(s.len() as int, items_spec(x, s, j, acc), items_spec(x, wrap(s), j2, acc)),
    decreases budget(x.avail), s.len() - j, 6int,
{
    lemma_wrap(s);
    let w = wrap(s);
    let n = s.len() as int;
    lemma_skip_separators(s, j);
    lemma_seps_shift(s, j, j2);
    let j1 = skip_separators_from(s, j);
    if j1 < n {
        assert(w[j1 + 2] == s[j1]);
        if s[j1] != ']' {
            lemma_value_wrap(x, s, j1, j1 + 2);
            if let Ok((v, k)) = value_spec(x, s, j1) {
                if j < k <= n {
                    lemma_items_wrap(x, s, k, acc.push(v), value_spec(x, w, j1 + 2)->Ok_0.1);
                }
            }
        }
    }
}

/// A document that reads, and does not start with a braced object, reads as the same object
/// between braces.
pub proof fn lemma_root_wrap(x: PCtx, s: Seq<char>)
    requires
        root_spec(x, s, 0) is Ok,
        !at(s, skip_separators_from(s, 0), '{'),
    ensures
        root_spec(x, wrap(s), 0) is Ok,
        root_spec(x, wrap(s), 0)->Ok_0.0 == root_spec(x, s, 0)->Ok_0.0,
{
    lemma_wrap(s);
    let w = wrap(s);
    let n = s.len() as int;
    lemma_skip_separators(s, 0);
    lemma_seps_fixed(s, 0);
    let j = skip_separators_from(s, 0);
    lemma_members_wrap(x, s, j, None, Seq::empty(), 1);
    assert(skip_separators_from(w, 0) == 0);
    assert(skip_separators_from(w, n + 4) == n + 4);
}

} // verus!
