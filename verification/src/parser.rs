//! The recursive-descent reader: from characters to a tree of members, with dotted keys,
//! deep merges and included files applied as they are met.

use vstd::prelude::*;
use vstd::string::StringExecFns;
use crate::assemble::{build_spec, build_value, parts_view, RawPart, SPart};
use crate::inclusion::{
    find_entry_from, include_spec_spec, lemma_find_entry_from, parse_include_spec, IncludeKind,
    IncludeTable, SEntry,
};
use crate::lexer::{
    at, is_slash2, key_spec, lemma_key_end, lemma_quoted_from, lemma_skip_blanks, lemma_skip_inline,
    lemma_skip_separators, parse_error, parse_key, parse_quoted, parse_subst, quoted_spec,
    skip_blanks, skip_blanks_from, skip_inline, skip_inline_from, skip_separators, skip_separators_from, slash2, subst_spec,
    text_end, text_end_from, unsupported, HoconError, SErr,
};
use crate::merge::{merge_into, merged, split_head, split_head_spec};
use crate::scalar::{is_safe_key, is_safe_key_exec};
use crate::text::{chars_of, chars_of_string, string_of_range, trim, trimmed};
use crate::value::{members_view, vals_view, SVal, Value};

verus! {

/// What the reader knows besides the text: the included files' contents, which of them may
/// still be entered (those not being read already), and the directory that paths resolve
/// against.
pub struct PCtx {
    pub table: Seq<SEntry>,
    pub avail: Seq<bool>,
    pub base: Seq<char>,
}

/// How many entries may still be entered.
pub open spec fn budget(avail: Seq<bool>) -> nat
    decreases avail.len(),
{
    if avail.len() == 0 {
        0
    } else {
        budget(avail.drop_last()) + if avail.last() {
            1nat
        } else {
            0nat
        }
    }
}

pub proof fn lemma_budget_update(a: Seq<bool>, k: int)
    requires
        0 <= k < a.len(),
        a[k],
    ensures
        budget(a.update(k, false)) + 1 == budget(a),
    decreases a.len(),
{
    if k < a.len() - 1 {
        lemma_budget_update(a.drop_last(), k);
        assert(a.update(k, false).drop_last() =~= a.drop_last().update(k, false));
    } else {
        assert(a.update(k, false).drop_last() =~= a.drop_last());
    }
}

/// The character at `j`, if any.
pub open spec fn char_at(c: Seq<char>, j: int) -> Option<char> {
    if 0 <= j < c.len() {
        Some(c[j])
    } else {
        None
    }
}

/// How Rust's `Debug` formatting shows an `Option<char>`: `None`, or `Some('c')` with the
/// character escaped as `char::escape_debug` escapes it.
pub uninterp spec fn debug_char_option(c: Option<char>) -> Seq<char>;

/// Assigns each member of `inc`, in order, among `m`.
pub open spec fn merge_each(m: Seq<(Seq<char>, SVal)>, inc: Seq<(Seq<char>, SVal)>) -> Seq<(Seq<char>, SVal)>
    decreases inc.len(),
{
    if inc.len() == 0 {
        m
    } else {
        let prev = merge_each(m, inc.drop_last());
        merged(prev, inc.last().0, inc.last().1)
    }
}

/// The keyword that starts an inclusion directive.
pub open spec fn seq_inclusion_kw() -> Seq<char> {
    seq!['i', 'n', 'c', 'l', 'u', 'd', 'e']
}

pub proof fn lemma_key_spec(c: Seq<char>, i: int)
    requires
        0 <= i <= c.len(),
    ensures
        key_spec(c, i) matches Ok((kq, j)) ==> i < j <= c.len(),
{
    if at(c, i, '"') {
        lemma_quoted_from(c, i + 1, Seq::empty());
    } else {
        lemma_key_end(c, i);
    }
}

/// End of the argument of an inclusion directive: the end of the line, a `,`, `}`, `]` or a
/// comment.
pub open spec fn raw_end_from(c: Seq<char>, k: int) -> int
    decreases c.len() - k,
{
    if 0 <= k < c.len() && !(c[k] == '\n' || c[k] == ',' || c[k] == '}' || c[k] == ']' || c[k]
        == '#' || slash2(c, k)) {
        raw_end_from(c, k + 1)
    } else {
        k
    }
}

pub proof fn lemma_raw_end(c: Seq<char>, k: int)
    requires
        0 <= k <= c.len(),
    ensures
        k <= raw_end_from(c, k) <= c.len(),
    decreases c.len() - k,
{
    if k < c.len() && !(c[k] == '\n' || c[k] == ',' || c[k] == '}' || c[k] == ']' || c[k] == '#'
        || slash2(c, k)) {
        lemma_raw_end(c, k + 1);
    }
}

/// A whole document from `i`: either one braced object and nothing after it, or members up to
/// the end.
pub open spec fn root_spec(x: PCtx, c: Seq<char>, i: int) -> Result<(SVal, int), SErr>
    decreases budget(x.avail), c.len() - i, 7int,
{
    if 0 <= i <= c.len() {
        proof {
            lemma_skip_separators(c, i);
        }
        let j = skip_separators_from(c, i);
        if at(c, j, '{') {
            match braced_spec(x, c, j) {
                Ok((m, k)) => {
                    let k2 = skip_separators_from(c, k);
                    if k2 < c.len() {
                        Err(SErr::Parse("content after the root object"@))
                    } else {
                        Ok((SVal::Obj(m), k2))
                    }
                },
                Err(e) => Err(e),
            }
        } else {
            match members_spec(x, c, j, None, Seq::empty()) {
                Ok((m, k)) => Ok((SVal::Obj(m), k)),
                Err(e) => Err(e),
            }
        }
    } else {
        Err(SErr::Parse(Seq::empty()))
    }
}

/// An object between braces, the `{` being at `i`: its members and the position past `}`.
pub open spec fn braced_spec(x: PCtx, c: Seq<char>, i: int) -> Result<(Seq<(Seq<char>, SVal)>, int), SErr>
    decreases budget(x.avail), c.len() - i, 3int,
{
    if 0 <= i < c.len() && c[i] == '{' {
        match members_spec(x, c, i + 1, Some('}'), Seq::empty()) {
            Ok((m, k)) => if at(c, k, '}') {
                Ok((m, k + 1))
            } else {
                Err(SErr::Parse("expected '}'"@))
            },
            Err(e) => Err(e),
        }
    } else {
        Err(SErr::Parse("expected '{'"@))
    }
}

/// Members from `i` on, `acc` holding those read so far, up to `close` (or the end of the text
/// when `close` is `None`): the members and the position of `close`.
pub open spec fn members_spec(
    x: PCtx,
    c: Seq<char>,
    i: int,
    close: Option<char>,
    acc: Seq<(Seq<char>, SVal)>,
) -> Result<(Seq<(Seq<char>, SVal)>, int), SErr>
    decreases budget(x.avail), c.len() - i, 2int,
{
    if 0 <= i <= c.len() {
        proof {
            lemma_skip_separators(c, i);
        }
        let j1 = skip_separators_from(c, i);
        if j1 >= c.len() {
            if close is Some {
                Err(SErr::Parse("missing '}'"@))
            } else {
                Ok((acc, j1))
            }
        } else if close == Some(c[j1]) {
            Ok((acc, j1))
        } else {
            proof {
                lemma_key_spec(c, j1);
            }
            match key_spec(c, j1) {
                Err(e) => Err(e),
                Ok(((key, quoted), j2)) => {
                    proof {
                        lemma_skip_inline(c, j2);
                    }
                    let j3 = skip_inline_from(c, j2);
                    if key == seq_inclusion_kw() && !quoted && !(at(c, j3, '=') || at(c, j3, ':')
                        || at(c, j3, '{')) {
                        match inclusion_spec(x, c, j3, acc) {
                            Err(e) => Err(e),
                            Ok((acc2, j4)) => if i < j4 <= c.len() {
                                members_spec(x, c, j4, close, acc2)
                            } else {
                                Err(SErr::Parse(Seq::empty()))
                            },
                        }
                    } else if at(c, j3, '+') && at(c, j3 + 1, '=') {
                        Err(SErr::Unsupported("'+=' operator"@))
                    } else if quoted && !is_safe_key(key) {
                        Err(SErr::Unsupported("quoted key with special characters"@))
                    } else {
                        let vr = if at(c, j3, '=') || at(c, j3, ':') {
                            value_spec(x, c, j3 + 1)
                        } else if at(c, j3, '{') {
                            match braced_spec(x, c, j3) {
                                Ok((m, k)) => Ok((SVal::Obj(m), k)),
                                Err(e) => Err(e),
                            }
                        } else {
                            Err(SErr::Parse("expected '=' or ':' after the key, got "@ + debug_char_option(char_at(c, j3))))
                        };
                        match vr {
                            Err(e) => Err(e),
                            Ok((v, j5)) => {
                                let acc2 = if quoted {
                                    merged(acc, key, v)
                                } else {
                                    let (h, sub) = split_head_spec(key, v);
                                    merged(acc, h, sub)
                                };
                                if i < j5 <= c.len() {
                                    members_spec(x, c, j5, close, acc2)
                                } else {
                                    Err(SErr::Parse(Seq::empty()))
                                }
                            },
                        }
                    }
                },
            }
        }
    } else {
        Err(SErr::Parse(Seq::empty()))
    }
}

/// An inclusion directive whose argument starts at `i`, among the members `acc`: a file's
/// members are assigned in place; a missing optional file adds nothing.
pub open spec fn inclusion_spec(
    x: PCtx,
    c: Seq<char>,
    i: int,
    acc: Seq<(Seq<char>, SVal)>,
) -> Result<(Seq<(Seq<char>, SVal)>, int), SErr>
    decreases budget(x.avail), c.len() - i, 1int,
{
    if 0 <= i <= c.len() {
        proof {
            lemma_raw_end(c, i);
        }
        let e = raw_end_from(c, i);
        match include_spec_spec(trim(c.subrange(i, e))) {
            Err(er) => Err(er),
            Ok((path, required, kind)) => {
                if kind is Url {
                    Err(SErr::Unsupported(seq_inclusion_kw() + " url(...) out of scope"@))
                } else if kind is Classpath {
                    Err(SErr::Unsupported(seq_inclusion_kw() + " classpath(...) out of scope"@))
                } else {
                    match find_entry_from(x.table, x.base, path, 0) {
                        None => Err(SErr::NeedFile(x.base, path)),
                        Some(k) => {
                            if !(0 <= k < x.avail.len() && x.avail[k]) {
                                Err(SErr::IncludeCycle("cyclic inclusion"@))
                            } else {
                                match x.table[k].2 {
                                    None => if required {
                                        Err(SErr::FileNotFound(path))
                                    } else {
                                        Ok((acc, e))
                                    },
                                    Some(text) => {
                                        proof {
                                            lemma_budget_update(x.avail, k);
                                        }
                                        let x2 = PCtx {
                                            table: x.table,
                                            avail: x.avail.update(k, false),
                                            base: x.table[k].3,
                                        };
                                        match root_spec(x2, text, 0) {
                                            Err(er) => Err(er),
                                            Ok((SVal::Obj(sub), _)) => Ok((merge_each(acc, sub), e)),
                                            Ok(_) => Ok((acc, e)),
                                        }
                                    },
                                }
                            }
                        }
                    }
                }
            },
        }
    } else {
        Err(SErr::Parse(Seq::empty()))
    }
}

/// The value that starts at `i` (after optional spaces, tabs and carriage returns): its units
/// up to the end of the value, then what they make (see [`build_spec`]). A value with no unit
/// (the line ends, or a comment starts, before any) is unsupported.
pub open spec fn value_spec(x: PCtx, c: Seq<char>, i: int) -> Result<(SVal, int), SErr>
    decreases budget(x.avail), c.len() - i, 5int,
{
    if 0 <= i <= c.len() {
        proof {
            lemma_skip_blanks(c, i);
        }
        let j = skip_blanks_from(c, i);
        match parts_spec(x, c, j, Seq::empty()) {
            Err(e) => Err(e),
            Ok((parts, k)) => if parts.len() == 0 {
                Err(SErr::Unsupported("empty value"@))
            } else {
                match build_spec(parts) {
                    Ok(v) => Ok((v, k)),
                    Err(e) => Err(e),
                }
            },
        }
    } else {
        Err(SErr::Parse(Seq::empty()))
    }
}

/// The character at `j` ends a value.
pub open spec fn value_stop(c: Seq<char>, j: int) -> bool {
    let ch = c[j];
    ch == '\n' || ch == ',' || ch == '}' || ch == ']' || ch == '#' || slash2(c, j)
}

/// The units of a value from `j` on, `acc` holding those read so far.
pub open spec fn parts_spec(x: PCtx, c: Seq<char>, j: int, acc: Seq<SPart>) -> Result<(Seq<SPart>, int), SErr>
    decreases budget(x.avail), c.len() - j, 4int,
{
    if 0 <= j < c.len() {
        let ch = c[j];
        if value_stop(c, j) {
            Ok((acc, j))
        } else {
            let unit: Result<(SPart, int), SErr> = if ch == '{' {
                match braced_spec(x, c, j) {
                    Ok((m, k)) => Ok((SPart::Obj(m), k)),
                    Err(e) => Err(e),
                }
            } else if ch == '[' {
                match array_spec(x, c, j) {
                    Ok((a, k)) => Ok((SPart::Arr(a), k)),
                    Err(e) => Err(e),
                }
            } else if ch == '"' {
                match quoted_spec(c, j) {
                    Ok((s, k)) => Ok((SPart::Quoted(s), k)),
                    Err(e) => Err(e),
                }
            } else if ch == '$' && at(c, j + 1, '{') {
                match subst_spec(c, j) {
                    Ok(((path, opt), k)) => Ok((SPart::Sub(path, opt), k)),
                    Err(e) => Err(e),
                }
            } else {
                let k = text_end_from(c, j, j);
                Ok((SPart::Text(c.subrange(j, k)), k))
            };
            match unit {
                Err(e) => Err(e),
                Ok((p, k)) => if j < k <= c.len() {
                    parts_spec(x, c, k, acc.push(p))
                } else {
                    Err(SErr::Parse(Seq::empty()))
                },
            }
        }
    } else if j == c.len() {
        Ok((acc, j))
    } else {
        Err(SErr::Parse(Seq::empty()))
    }
}

/// An array whose `[` is at `i`: its items and the position past `]`.
pub open spec fn array_spec(x: PCtx, c: Seq<char>, i: int) -> Result<(Seq<SVal>, int), SErr>
    decreases budget(x.avail), c.len() - i, 3int,
{
    if 0 <= i < c.len() {
        items_spec(x, c, i + 1, Seq::empty())
    } else {
        Err(SErr::Parse(Seq::empty()))
    }
}

/// The items of an array from `j` on, `acc` holding those read so far.
pub open spec fn items_spec(x: PCtx, c: Seq<char>, j: int, acc: Seq<SVal>) -> Result<(Seq<SVal>, int), SErr>
    decreases budget(x.avail), c.len() - j, 6int,
{
    if 0 <= j <= c.len() {
        proof {
            lemma_skip_separators(c, j);
        }
        let j1 = skip_separators_from(c, j);
        if j1 >= c.len() {
            Err(SErr::Parse("missing ']'"@))
        } else if c[j1] == ']' {
            Ok((acc, j1 + 1))
        } else {
            match value_spec(x, c, j1) {
                Err(e) => Err(e),
                Ok((v, k)) => if j < k <= c.len() {
                    items_spec(x, c, k, acc.push(v))
                } else {
                    Err(SErr::Parse(Seq::empty()))
                },
            }
        }
    } else {
        Err(SErr::Parse(Seq::empty()))
    }
}

// ---------- the reader ----------

/// `r` is the value and end position that `s` describes, or the error it describes.
pub open spec fn res_value(r: Result<(Value, usize), HoconError>, s: Result<(SVal, int), SErr>) -> bool {
    match r {
        Ok((v, j)) => s == Ok::<(SVal, int), SErr>((v@, j as int)),
        Err(e) => s == Err::<(SVal, int), SErr>(e@),
    }
}

pub open spec fn res_members(
    r: Result<(Vec<(String, Value)>, usize), HoconError>,
    s: Result<(Seq<(Seq<char>, SVal)>, int), SErr>,
) -> bool {
    match r {
        Ok((m, j)) => s == Ok::<(Seq<(Seq<char>, SVal)>, int), SErr>((members_view(m), j as int)),
        Err(e) => s == Err::<(Seq<(Seq<char>, SVal)>, int), SErr>(e@),
    }
}

pub open spec fn res_items(r: Result<(Vec<Value>, usize), HoconError>, s: Result<(Seq<SVal>, int), SErr>) -> bool {
    match r {
        Ok((a, j)) => s == Ok::<(Seq<SVal>, int), SErr>((vals_view(a), j as int)),
        Err(e) => s == Err::<(Seq<SVal>, int), SErr>(e@),
    }
}

/// The value that a list of units makes, once the units are read.
pub open spec fn finish_value(r: Result<(Seq<SPart>, int), SErr>) -> Result<(SVal, int), SErr> {
    match r {
        Err(e) => Err(e),
        Ok((parts, k)) => if parts.len() == 0 {
            Err(SErr::Unsupported("empty value"@))
        } else {
            match build_spec(parts) {
                Ok(v) => Ok((v, k)),
                Err(e) => Err(e),
            }
        },
    }
}

/// A document being read: its characters, the current position, and the directory that
/// included paths resolve against (empty: the working directory).
pub struct Parser {
    pub c: Vec<char>,
    pub i: usize,
    pub base: String,
}

pub fn copy_flags(a: &Vec<bool>) -> (r: Vec<bool>)
    ensures
        r@ == a@,
{
    let mut r: Vec<bool> = Vec::new();
    let mut k: usize = 0;
    while k < a.len()
        invariant
            k <= a.len(),
            r@ == a@.take(k as int),
        decreases a.len() - k,
    {
        r.push(a[k]);
        k += 1;
    }
    assert(a@.take(a.len() as int) =~= a@);
    r
}

pub fn is_value_stop(c: &Vec<char>, j: usize) -> (b: bool)
    requires
        j < c.len(),
    ensures
        b == value_stop(c@, j as int),
{
    let ch = c[j];
    ch == '\n' || ch == ',' || ch == '}' || ch == ']' || ch == '#' || is_slash2(c, j)
}

fn is_raw_stop(c: &Vec<char>, k: usize) -> (b: bool)
    requires
        k < c.len(),
    ensures
        b == (c@[k as int] == '\n' || c@[k as int] == ',' || c@[k as int] == '}' || c@[k as int]
            == ']' || c@[k as int] == '#' || slash2(c@, k as int)),
{
    let ch = c[k];
    ch == '\n' || ch == ',' || ch == '}' || ch == ']' || ch == '#' || is_slash2(c, k)
}

impl Parser {
    /// The reader's context, given the included files and which of them may be entered.
    pub open spec fn ctx(&self, table: Seq<SEntry>, avail: Seq<bool>) -> PCtx {
        PCtx { table, avail, base: self.base@ }
    }

    pub fn new(s: &str) -> (p: Parser)
        ensures
            p.c@ == s@,
            p.i == 0,
            p.base@ == Seq::<char>::empty(),
    {
        Parser { c: chars_of(s), i: 0, base: String::new() }
    }

    /// Reads the whole document from the current position, with no included file supplied.
    pub fn parse_root(&mut self) -> (r: Result<Value, HoconError>)
        requires
            old(self).i <= old(self).c.len(),
        ensures
            final(self).c == old(self).c,
            final(self).base == old(self).base,
            match r {
                Ok(v) => root_spec(old(self).ctx(Seq::empty(), Seq::empty()), old(self).c@, old(self).i as int) == Ok::<(SVal, int), SErr>((v@, final(self).i as int)),
                Err(e) => root_spec(old(self).ctx(Seq::empty(), Seq::empty()), old(self).c@, old(self).i as int) == Err::<(SVal, int), SErr>(e@),
            },
    {
        let table = IncludeTable::new();
        let avail: Vec<bool> = Vec::new();
        self.parse_root_with(&table, &avail)
    }

    /// Reads the whole document from the current position, with the included files of
    /// `table`, entering only those flagged in `avail`.
    pub fn parse_root_with(&mut self, table: &IncludeTable, avail: &Vec<bool>) -> (r: Result<Value, HoconError>)
        requires
            old(self).i <= old(self).c.len(),
        ensures
            final(self).c == old(self).c,
            final(self).base == old(self).base,
            match r {
                Ok(v) => root_spec(old(self).ctx(table@, avail@), old(self).c@, old(self).i as int) == Ok::<(SVal, int), SErr>((v@, final(self).i as int)),
                Err(e) => root_spec(old(self).ctx(table@, avail@), old(self).c@, old(self).i as int) == Err::<(SVal, int), SErr>(e@),
            },
    {
        match self.root_at(table, avail, self.i) {
            Ok((v, j)) => {
                self.i = j;
                Ok(v)
            },
            Err(e) => Err(e),
        }
    }

    fn root_at(&self, table: &IncludeTable, avail: &Vec<bool>, i: usize) -> (r: Result<(Value, usize), HoconError>)
        requires
            i <= self.c.len(),
        ensures
            res_value(r, root_spec(self.ctx(table@, avail@), self.c@, i as int)),
            r matches Ok((v, j)) ==> i <= j <= self.c.len(),
        decreases budget(avail@), self.c@.len() - i, 7int,
    {
        let c = &self.c;
        let j = skip_separators(c, i);
        if j < c.len() && c[j] == '{' {
            match self.braced_at(table, avail, j) {
                Ok((m, k)) => {
                    let k2 = skip_separators(c, k);
                    if k2 < c.len() {
                        return Err(parse_error("content after the root object"));
                    }
                    Ok((Value::Obj(m), k2))
                },
                Err(e) => Err(e),
            }
        } else {
            match self.members_at(table, avail, j, None) {
                Ok((m, k)) => Ok((Value::Obj(m), k)),
                Err(e) => Err(e),
            }
        }
    }

    fn braced_at(&self, table: &IncludeTable, avail: &Vec<bool>, i: usize) -> (r: Result<(Vec<(String, Value)>, usize), HoconError>)
        requires
            i < self.c.len(),
            self.c@[i as int] == '{',
        ensures
            res_members(r, braced_spec(self.ctx(table@, avail@), self.c@, i as int)),
            r matches Ok((m, j)) ==> i < j <= self.c.len(),
        decreases budget(avail@), self.c@.len() - i, 3int,
    {
        match self.members_at(table, avail, i + 1, Some('}')) {
            Ok((m, k)) => {
                if k < self.c.len() && self.c[k] == '}' {
                    Ok((m, k + 1))
                } else {
                    Err(parse_error("expected '}'"))
                }
            },
            Err(e) => Err(e),
        }
    }

    fn members_at(&self, table: &IncludeTable, avail: &Vec<bool>, i: usize, close: Option<char>) -> (r: Result<(Vec<(String, Value)>, usize), HoconError>)
        requires
            i <= self.c.len(),
        ensures
            res_members(r, members_spec(self.ctx(table@, avail@), self.c@, i as int, close, Seq::empty())),
            r matches Ok((m, j)) ==> i <= j <= self.c.len(),
        decreases budget(avail@), self.c@.len() - i, 2int,
    {
        let ghost x = self.ctx(table@, avail@);
        let c = &self.c;
        let kw = crate::text::string_of(&vec!['i', 'n', 'c', 'l', 'u', 'd', 'e']);
        assert(kw@ == seq_inclusion_kw());
        let mut acc: Vec<(String, Value)> = Vec::new();
        assert(members_view(acc) =~= Seq::<(Seq<char>, SVal)>::empty());
        let mut j = i;
        loop
            invariant
                i <= j <= c.len(),
                c == &self.c,
                x == self.ctx(table@, avail@),
                kw@ == seq_inclusion_kw(),
                members_spec(x, c@, i as int, close, Seq::empty()) == members_spec(
                    x,
                    c@,
                    j as int,
                    close,
                    members_view(acc),
                ),
            decreases c.len() - j,
        {
            let j1 = skip_separators(c, j);
            if j1 >= c.len() {
                if close.is_some() {
                    return Err(parse_error("missing '}'"));
                }
                return Ok((acc, j1));
            }
            let at_close = match close {
                Some(cl) => cl == c[j1],
                None => false,
            };
            if at_close {
                return Ok((acc, j1));
            }
            proof {
                lemma_key_spec(c@, j1 as int);
            }
            let (key, quoted, j2) = match parse_key(c, j1) {
                Ok(t) => t,
                Err(e) => {
                    return Err(e);
                },
            };
            let j3 = skip_inline(c, j2);
            let assign_next = j3 < c.len() && (c[j3] == '=' || c[j3] == ':' || c[j3] == '{');
            if key == kw && !quoted && !assign_next {
                match self.inclusion_at(table, avail, j3, &mut acc) {
                    Ok(j4) => {
                        j = j4;
                    },
                    Err(e) => {
                        return Err(e);
                    },
                }
            } else if j3 < c.len() && c[j3] == '+' && j3 + 1 < c.len() && c[j3 + 1] == '=' {
                return Err(unsupported("'+=' operator"));
            } else {
                let kc = chars_of_string(&key);
                if quoted && !is_safe_key_exec(&kc) {
                    return Err(unsupported("quoted key with special characters"));
                }
                let (v, j5) = if j3 < c.len() && (c[j3] == '=' || c[j3] == ':') {
                    match self.value_at(table, avail, j3 + 1) {
                        Ok(t) => t,
                        Err(e) => {
                            return Err(e);
                        },
                    }
                } else if j3 < c.len() && c[j3] == '{' {
                    match self.braced_at(table, avail, j3) {
                        Ok((m, k)) => (Value::Obj(m), k),
                        Err(e) => {
                            return Err(e);
                        },
                    }
                } else {
                    let next = if j3 < c.len() {
                        Some(c[j3])
                    } else {
                        None
                    };
                    return Err(after_key_error(show_next(next)));
                };
                if quoted {
                    merge_into(&mut acc, key, v);
                } else {
                    let (h, sub) = split_head(&kc, v);
                    merge_into(&mut acc, h, sub);
                }
                j = j5;
            }
        }
    }

    fn inclusion_at(&self, table: &IncludeTable, avail: &Vec<bool>, i: usize, acc: &mut Vec<(String, Value)>) -> (r: Result<usize, HoconError>)
        requires
            i <= self.c.len(),
        ensures
            match r {
                Ok(j) => inclusion_spec(self.ctx(table@, avail@), self.c@, i as int, members_view(*old(acc)))
                    == Ok::<(Seq<(Seq<char>, SVal)>, int), SErr>((members_view(*final(acc)), j as int)) && i <= j <= self.c.len(),
                Err(e) => inclusion_spec(self.ctx(table@, avail@), self.c@, i as int, members_view(*old(acc)))
                    == Err::<(Seq<(Seq<char>, SVal)>, int), SErr>(e@),
            },
        decreases budget(avail@), self.c@.len() - i, 1int,
    {
        let ghost x = self.ctx(table@, avail@);
        let ghost acc0 = members_view(*acc);
        let c = &self.c;
        proof {
            lemma_raw_end(c@, i as int);
        }
        let mut e = i;
        while e < c.len() && !is_raw_stop(c, e)
            invariant
                i <= e <= c.len(),
                raw_end_from(c@, e as int) == raw_end_from(c@, i as int),
            decreases c.len() - e,
        {
            e += 1;
        }
        let mut raw: Vec<char> = Vec::new();
        let mut k = i;
        while k < e
            invariant
                i <= k <= e <= c.len(),
                raw@ == c@.subrange(i as int, k as int),
            decreases e - k,
        {
            raw.push(c[k]);
            k += 1;
        }
        let spec = match parse_include_spec(&trimmed(&raw)) {
            Ok(s) => s,
            Err(er) => {
                return Err(er);
            },
        };
        match spec.kind {
            IncludeKind::File => {},
            IncludeKind::Url => {
                return Err(kind_out_of_scope(" url(...) out of scope"));
            },
            IncludeKind::Classpath => {
                return Err(kind_out_of_scope(" classpath(...) out of scope"));
            },
        }
        proof {
            lemma_find_entry_from(table@, self.base@, spec.path@, 0);
        }
        let k = match table.find(&self.base, &spec.path) {
            Some(k) => k,
            None => {
                return Err(HoconError::NeedFile { base: self.base.clone(), path: spec.path });
            },
        };
        if !(k < avail.len() && avail[k]) {
            return Err(HoconError::IncludeCycle(crate::lexer::msg("cyclic inclusion")));
        }
        let entry = &table.entries[k];
        assert(table@[k as int] == entry@);
        match &entry.content {
            None => {
                if spec.required {
                    Err(HoconError::FileNotFound(spec.path))
                } else {
                    Ok(e)
                }
            },
            Some(text) => {
                let sub = Parser { c: chars_of_string(text), i: 0, base: entry.dir.clone() };
                let mut avail2 = copy_flags(avail);
                avail2.set(k, false);
                proof {
                    lemma_budget_update(avail@, k as int);
                }
                assert(sub.ctx(table@, avail2@) == PCtx {
                    table: x.table,
                    avail: x.avail.update(k as int, false),
                    base: x.table[k as int].3,
                });
                match sub.root_at(table, &avail2, 0) {
                    Err(er) => Err(er),
                    Ok((Value::Obj(sub_members), _)) => {
                        let ghost subv = members_view(sub_members);
                        let mut l: usize = 0;
                        while l < sub_members.len()
                            invariant
                                l <= sub_members.len(),
                                subv == members_view(sub_members),
                                members_view(*acc) == merge_each(acc0, subv.take(l as int)),
                            decreases sub_members.len() - l,
                        {
                            assert(subv.take(l + 1).drop_last() =~= subv.take(l as int));
                            assert(subv[l as int] == (sub_members@[l as int].0@, sub_members@[l as int].1@));
                            merge_into(acc, sub_members[l].0.clone(), crate::value::clone_value(&sub_members[l].1));
                            l += 1;
                        }
                        assert(subv.take(sub_members.len() as int) =~= subv);
                        Ok(e)
                    },
                    Ok(_) => Ok(e),
                }
            },
        }
    }

    fn value_at(&self, table: &IncludeTable, avail: &Vec<bool>, i: usize) -> (r: Result<(Value, usize), HoconError>)
        requires
            i <= self.c.len(),
        ensures
            res_value(r, value_spec(self.ctx(table@, avail@), self.c@, i as int)),
            r matches Ok((v, j)) ==> i < j <= self.c.len(),
        decreases budget(avail@), self.c@.len() - i, 5int,
    {
        let ghost x = self.ctx(table@, avail@);
        let c = &self.c;
        let j = skip_blanks(c, i);
        let mut parts: Vec<RawPart> = Vec::new();
        assert(parts_view(parts) =~= Seq::<SPart>::empty());
        let mut k = j;
        while k < c.len() && !is_value_stop(c, k)
            invariant
                i <= j <= k <= c.len(),
                c == &self.c,
                x == self.ctx(table@, avail@),
                value_spec(x, c@, i as int) == finish_value(parts_spec(x, c@, k as int, parts_view(parts))),
                parts.len() == 0 ==> k == j,
                parts.len() > 0 ==> k > j,
            decreases c.len() - k,
        {
            let ch = c[k];
            let ghost pv = parts_view(parts);
            let (p, k2) = if ch == '{' {
                match self.braced_at(table, avail, k) {
                    Ok((m, k2)) => (RawPart::Obj(m), k2),
                    Err(e) => {
                        return Err(e);
                    },
                }
            } else if ch == '[' {
                match self.array_at(table, avail, k) {
                    Ok((a, k2)) => (RawPart::Arr(a), k2),
                    Err(e) => {
                        return Err(e);
                    },
                }
            } else if ch == '"' {
                match parse_quoted(c, k) {
                    Ok((q, k2)) => (RawPart::Quoted(q), k2),
                    Err(e) => {
                        return Err(e);
                    },
                }
            } else if ch == '$' && k + 1 < c.len() && c[k + 1] == '{' {
                match parse_subst(c, k) {
                    Ok((path, optional, k2)) => (RawPart::Sub { path, optional }, k2),
                    Err(e) => {
                        return Err(e);
                    },
                }
            } else {
                proof {
                    crate::lexer::lemma_text_end(c@, k as int, k + 1);
                    assert(!crate::lexer::text_stop(c@, k as int, k as int));
                }
                let k2 = text_end(c, k);
                (RawPart::Text(string_of_range(c, k, k2)), k2)
            };
            parts.push(p);
            assert(parts_view(parts) =~= pv.push(p@));
            k = k2;
        }
        if parts.len() == 0 {
            return Err(unsupported("empty value"));
        }
        match build_value(parts) {
            Ok(v) => Ok((v, k)),
            Err(e) => Err(e),
        }
    }

    fn array_at(&self, table: &IncludeTable, avail: &Vec<bool>, i: usize) -> (r: Result<(Vec<Value>, usize), HoconError>)
        requires
            i < self.c.len(),
        ensures
            res_items(r, array_spec(self.ctx(table@, avail@), self.c@, i as int)),
            r matches Ok((a, j)) ==> i < j <= self.c.len(),
        decreases budget(avail@), self.c@.len() - i, 3int,
    {
        let ghost x = self.ctx(table@, avail@);
        let c = &self.c;
        let mut items: Vec<Value> = Vec::new();
        assert(vals_view(items) =~= Seq::<SVal>::empty());
        let mut j = i + 1;
        loop
            invariant
                i < j <= c.len(),
                c == &self.c,
                x == self.ctx(table@, avail@),
                array_spec(x, c@, i as int) == items_spec(x, c@, j as int, vals_view(items)),
            decreases c.len() - j,
        {
            let j1 = skip_separators(c, j);
            if j1 >= c.len() {
                return Err(parse_error("missing ']'"));
            }
            if c[j1] == ']' {
                return Ok((items, j1 + 1));
            }
            match self.value_at(table, avail, j1) {
                Ok((v, k)) => {
                    let ghost iv = vals_view(items);
                    items.push(v);
                    assert(vals_view(items) =~= iv.push(v@));
                    j = k;
                },
                Err(e) => {
                    return Err(e);
                },
            }
        }
    }
}

/// The error for an inclusion of a kind that is not read here: the directive's keyword, then
/// `rest`.
fn kind_out_of_scope(rest: &str) -> (e: HoconError)
    ensures
        e@ == SErr::Unsupported(seq_inclusion_kw() + rest@),
{
    let kw = vec!['i', 'n', 'c', 'l', 'u', 'd', 'e'];
    assert(kw@ == seq_inclusion_kw());
    let mut m = crate::text::string_of(&kw);
    m.append(rest);
    HoconError::Unsupported(m)
}

/// `format!("{:?}", next)`: std's `Debug` formatting of an `Option<char>`. The contract names
/// the text it gives ([`debug_char_option`]) without stating it.
#[verifier::external_body]
fn show_next(next: Option<char>) -> (r: String)
    ensures
        r@ == debug_char_option(next),
{
    format!("{:?}", next)
}

/// The error for a key followed by neither `=`, `:` nor `{`, `shown` being what follows it as
/// [`debug_char_option`] shows it.
pub fn after_key_error(shown: String) -> (e: HoconError)
    ensures
        e@ == SErr::Parse("expected '=' or ':' after the key, got "@ + shown@),
{
    let mut m = crate::lexer::msg("expected '=' or ':' after the key, got ");
    m.append(shown.as_str());
    HoconError::Parse(m)
}

} // verus!
