//! Scanning of the source characters: comments and separators, keys, quoted strings,
//! substitutions and unquoted text runs.

use vstd::prelude::*;
use crate::text::{is_whitespace, is_ws, string_of_range, trim, trimmed};
use crate::value::strings_view;

verus! {

/// The errors that reading a document can end with.
pub enum SErr {
    /// Malformed input (the message).
    Parse(Seq<char>),
    /// A required included file could not be read (its path).
    FileNotFound(Seq<char>),
    /// Input that this fast path does not handle: the caller hands it to pyhocon (the message).
    Unsupported(Seq<char>),
    /// An included file whose content has not been supplied yet (base directory, path).
    NeedFile(Seq<char>, Seq<char>),
    /// A file that includes itself, directly or through others (the message).
    IncludeCycle(Seq<char>),
}

/// An error of the reader, with a message for people.
#[derive(Debug)]
pub enum HoconError {
    Parse(String),
    FileNotFound(String),
    Unsupported(String),
    NeedFile { base: String, path: String },
    IncludeCycle(String),
}

impl View for HoconError {
    type V = SErr;

    open spec fn view(&self) -> SErr {
        match self {
            HoconError::Parse(m) => SErr::Parse(m@),
            HoconError::FileNotFound(p) => SErr::FileNotFound(p@),
            HoconError::Unsupported(m) => SErr::Unsupported(m@),
            HoconError::NeedFile { base, path } => SErr::NeedFile(base@, path@),
            HoconError::IncludeCycle(m) => SErr::IncludeCycle(m@),
        }
    }
}

/// A message as a `String`.
pub fn msg(s: &str) -> (r: String)
    ensures
        r@ == s@,
{
    s.to_owned()
}

pub fn parse_error(s: &str) -> (e: HoconError)
    ensures
        e@ == SErr::Parse(s@),
{
    HoconError::Parse(msg(s))
}

pub fn unsupported(s: &str) -> (e: HoconError)
    ensures
        e@ == SErr::Unsupported(s@),
{
    HoconError::Unsupported(msg(s))
}

pub open spec fn at(c: Seq<char>, i: int, ch: char) -> bool {
    0 <= i < c.len() && c[i] == ch
}

/// `//` starts at `i`.
pub open spec fn slash2(c: Seq<char>, i: int) -> bool {
    at(c, i, '/') && at(c, i + 1, '/')
}

/// Past the end of the line that `i` is on (past its `\n`), or the end of the text.
pub open spec fn skip_to_eol_from(c: Seq<char>, i: int) -> int
    decreases c.len() - i,
{
    if 0 <= i < c.len() {
        if c[i] == '\n' {
            i + 1
        } else {
            skip_to_eol_from(c, i + 1)
        }
    } else {
        i
    }
}

/// Skips spaces, tabs, carriage returns and comments (`#`, `//`) on the current line.
pub open spec fn skip_inline_from(c: Seq<char>, i: int) -> int
    decreases c.len() - i,
{
    if 0 <= i < c.len() {
        let ch = c[i];
        if ch == ' ' || ch == '\t' || ch == '\r' {
            skip_inline_from(c, i + 1)
        } else if ch == '#' || slash2(c, i) {
            let j = skip_to_eol_from(c, i);
            if i < j <= c.len() {
                skip_inline_from(c, j)
            } else {
                i
            }
        } else {
            i
        }
    } else {
        i
    }
}

/// Skips spaces, tabs and carriage returns.
pub open spec fn skip_blanks_from(c: Seq<char>, i: int) -> int
    decreases c.len() - i,
{
    if 0 <= i < c.len() && (c[i] == ' ' || c[i] == '\t' || c[i] == '\r') {
        skip_blanks_from(c, i + 1)
    } else {
        i
    }
}

pub proof fn lemma_skip_blanks(c: Seq<char>, i: int)
    requires
        0 <= i <= c.len(),
    ensures
        i <= skip_blanks_from(c, i) <= c.len(),
    decreases c.len() - i,
{
    if i < c.len() && (c[i] == ' ' || c[i] == '\t' || c[i] == '\r') {
        lemma_skip_blanks(c, i + 1);
    }
}

/// Skips whitespace (spaces, tabs, carriage returns, newlines), commas and comments.
pub open spec fn skip_separators_from(c: Seq<char>, i: int) -> int
    decreases c.len() - i,
{
    if 0 <= i < c.len() {
        let ch = c[i];
        if ch == ' ' || ch == '\t' || ch == '\r' || ch == '\n' || ch == ',' {
            skip_separators_from(c, i + 1)
        } else if ch == '#' || slash2(c, i) {
            let j = skip_to_eol_from(c, i);
            if i < j <= c.len() {
                skip_separators_from(c, j)
            } else {
                i
            }
        } else {
            i
        }
    } else {
        i
    }
}

pub proof fn lemma_skip_to_eol(c: Seq<char>, i: int)
    requires
        0 <= i <= c.len(),
    ensures
        i <= skip_to_eol_from(c, i) <= c.len(),
        i < c.len() ==> i < skip_to_eol_from(c, i),
    decreases c.len() - i,
{
    if i < c.len() && c[i] != '\n' {
        lemma_skip_to_eol(c, i + 1);
    }
}

pub proof fn lemma_skip_inline(c: Seq<char>, i: int)
    requires
        0 <= i <= c.len(),
    ensures
        i <= skip_inline_from(c, i) <= c.len(),
    decreases c.len() - i,
{
    if i < c.len() {
        let ch = c[i];
        if ch == ' ' || ch == '\t' || ch == '\r' {
            lemma_skip_inline(c, i + 1);
        } else if ch == '#' || slash2(c, i) {
            lemma_skip_to_eol(c, i);
            lemma_skip_inline(c, skip_to_eol_from(c, i));
        }
    }
}

pub proof fn lemma_skip_separators(c: Seq<char>, i: int)
    requires
        0 <= i <= c.len(),
    ensures
        i <= skip_separators_from(c, i) <= c.len(),
    decreases c.len() - i,
{
    if i < c.len() {
        let ch = c[i];
        if ch == ' ' || ch == '\t' || ch == '\r' || ch == '\n' || ch == ',' {
            lemma_skip_separators(c, i + 1);
        } else if ch == '#' || slash2(c, i) {
            lemma_skip_to_eol(c, i);
            lemma_skip_separators(c, skip_to_eol_from(c, i));
        }
    }
}

pub fn skip_to_eol(c: &Vec<char>, i: usize) -> (r: usize)
    requires
        i <= c.len(),
    ensures
        r == skip_to_eol_from(c@, i as int),
        i <= r <= c.len(),
{
    proof {
        lemma_skip_to_eol(c@, i as int);
    }
    let mut k = i;
    while k < c.len()
        invariant
            i <= k <= c.len(),
            skip_to_eol_from(c@, k as int) == skip_to_eol_from(c@, i as int),
        decreases c.len() - k,
    {
        let ch = c[k];
        k += 1;
        if ch == '\n' {
            return k;
        }
    }
    k
}

pub fn is_slash2(c: &Vec<char>, i: usize) -> (b: bool)
    ensures
        b == slash2(c@, i as int),
{
    i < c.len() && c[i] == '/' && i + 1 < c.len() && c[i + 1] == '/'
}

pub fn skip_inline(c: &Vec<char>, i: usize) -> (r: usize)
    requires
        i <= c.len(),
    ensures
        r == skip_inline_from(c@, i as int),
        i <= r <= c.len(),
{
    proof {
        lemma_skip_inline(c@, i as int);
    }
    let mut k = i;
    while k < c.len()
        invariant
            i <= k <= c.len(),
            skip_inline_from(c@, k as int) == skip_inline_from(c@, i as int),
        decreases c.len() - k,
    {
        let ch = c[k];
        if ch == ' ' || ch == '\t' || ch == '\r' {
            k += 1;
        } else if ch == '#' || is_slash2(c, k) {
            proof {
                lemma_skip_to_eol(c@, k as int);
            }
            k = skip_to_eol(c, k);
        } else {
            return k;
        }
    }
    k
}

pub fn skip_blanks(c: &Vec<char>, i: usize) -> (r: usize)
    requires
        i <= c.len(),
    ensures
        r == skip_blanks_from(c@, i as int),
        i <= r <= c.len(),
{
    proof {
        lemma_skip_blanks(c@, i as int);
    }
    let mut k = i;
    while k < c.len() && (c[k] == ' ' || c[k] == '\t' || c[k] == '\r')
        invariant
            i <= k <= c.len(),
            skip_blanks_from(c@, k as int) == skip_blanks_from(c@, i as int),
        decreases c.len() - k,
    {
        k += 1;
    }
    k
}

pub fn skip_separators(c: &Vec<char>, i: usize) -> (r: usize)
    requires
        i <= c.len(),
    ensures
        r == skip_separators_from(c@, i as int),
        i <= r <= c.len(),
{
    proof {
        lemma_skip_separators(c@, i as int);
    }
    let mut k = i;
    while k < c.len()
        invariant
            i <= k <= c.len(),
            skip_separators_from(c@, k as int) == skip_separators_from(c@, i as int),
        decreases c.len() - k,
    {
        let ch = c[k];
        if ch == ' ' || ch == '\t' || ch == '\r' || ch == '\n' || ch == ',' {
            k += 1;
        } else if ch == '#' || is_slash2(c, k) {
            proof {
                lemma_skip_to_eol(c@, k as int);
            }
            k = skip_to_eol(c, k);
        } else {
            return k;
        }
    }
    k
}

// ---------- quoted strings ----------

/// What an escape `\\e` stands for inside a quoted string.
pub open spec fn escape_spec(e: char) -> Seq<char> {
    if e == 'n' {
        seq!['\n']
    } else if e == 't' {
        seq!['\t']
    } else if e == 'r' {
        seq!['\r']
    } else if e == '"' {
        seq!['"']
    } else if e == '\\' {
        seq!['\\']
    } else if e == '/' {
        seq!['/']
    } else {
        seq!['\\', e]
    }
}

/// The rest of a quoted string from `j` on, `acc` being what was read of it so far: its text
/// and the position past the closing quote.
pub open spec fn quoted_from(c: Seq<char>, j: int, acc: Seq<char>) -> Result<(Seq<char>, int), SErr>
    decreases c.len() - j,
{
    if j < 0 || j >= c.len() {
        Err(SErr::Parse("missing closing quote"@))
    } else if c[j] == '"' {
        Ok((acc, j + 1))
    } else if c[j] == '\\' {
        if j + 1 >= c.len() {
            Err(SErr::Parse("incomplete escape"@))
        } else {
            quoted_from(c, j + 2, acc + escape_spec(c[j + 1]))
        }
    } else {
        quoted_from(c, j + 1, acc.push(c[j]))
    }
}

/// A quoted string whose opening quote is at `i`.
pub open spec fn quoted_spec(c: Seq<char>, i: int) -> Result<(Seq<char>, int), SErr> {
    quoted_from(c, i + 1, Seq::empty())
}

pub proof fn lemma_quoted_from(c: Seq<char>, j: int, acc: Seq<char>)
    ensures
        quoted_from(c, j, acc) matches Ok((s, k)) ==> j < k <= c.len(),
    decreases c.len() - j,
{
    if 0 <= j < c.len() && c[j] != '"' {
        if c[j] == '\\' {
            if j + 1 < c.len() {
                lemma_quoted_from(c, j + 2, acc + escape_spec(c[j + 1]));
            }
        } else {
            lemma_quoted_from(c, j + 1, acc.push(c[j]));
        }
    }
}

/// Reads the quoted string whose opening quote is at `i`.
pub fn parse_quoted(c: &Vec<char>, i: usize) -> (r: Result<(String, usize), HoconError>)
    requires
        i < c.len(),
    ensures
        r matches Ok((s, j)) ==> quoted_spec(c@, i as int) == Ok::<(Seq<char>, int), SErr>((s@, j as int)) && i < j <= c.len(),
        r matches Err(e) ==> quoted_spec(c@, i as int) == Err::<(Seq<char>, int), SErr>(e@),
{
    let mut s = String::new();
    let mut j = i + 1;
    proof {
        lemma_quoted_from(c@, (i + 1) as int, Seq::empty());
    }
    while j < c.len()
        invariant
            i < j <= c.len() + 1,
            quoted_from(c@, j as int, s@) == quoted_spec(c@, i as int),
        decreases c.len() - j,
    {
        let ch = c[j];
        if ch == '"' {
            proof {
                lemma_quoted_from(c@, (i + 1) as int, Seq::empty());
            }
            return Ok((s, j + 1));
        } else if ch == '\\' {
            if j + 1 >= c.len() {
                return Err(parse_error("incomplete escape"));
            }
            let e = c[j + 1];
            let ghost before = s@;
            if e == 'n' {
                s.push('\n');
            } else if e == 't' {
                s.push('\t');
            } else if e == 'r' {
                s.push('\r');
            } else if e == '"' {
                s.push('"');
            } else if e == '\\' {
                s.push('\\');
            } else if e == '/' {
                s.push('/');
            } else {
                s.push('\\');
                s.push(e);
            }
            assert(s@ =~= before + escape_spec(e));
            j += 2;
        } else {
            s.push(ch);
            j += 1;
        }
    }
    Err(parse_error("missing closing quote"))
}

// ---------- keys ----------

/// A character that ends an unquoted key.
pub open spec fn key_stop(c: Seq<char>, k: int) -> bool {
    let ch = c[k];
    ||| is_ws(ch)
    ||| ch == '=' || ch == ':' || ch == '{' || ch == '}' || ch == '[' || ch == ']' || ch == ','
    ||| ch == '+' && at(c, k + 1, '=')
    ||| ch == '#'
    ||| slash2(c, k)
}

/// The end of an unquoted key that starts at `k`.
pub open spec fn key_end_from(c: Seq<char>, k: int) -> int
    decreases c.len() - k,
{
    if 0 <= k < c.len() && !key_stop(c, k) {
        key_end_from(c, k + 1)
    } else {
        k
    }
}

/// A key at `i`: its text, whether it was quoted, and the position after it.
pub open spec fn key_spec(c: Seq<char>, i: int) -> Result<((Seq<char>, bool), int), SErr> {
    if at(c, i, '"') {
        match quoted_spec(c, i) {
            Ok((s, j)) => Ok(((s, true), j)),
            Err(e) => Err(e),
        }
    } else {
        let j = key_end_from(c, i);
        if j == i {
            Err(SErr::Parse("empty key"@))
        } else {
            Ok(((c.subrange(i, j), false), j))
        }
    }
}

pub proof fn lemma_key_end(c: Seq<char>, k: int)
    requires
        0 <= k <= c.len(),
    ensures
        k <= key_end_from(c, k) <= c.len(),
    decreases c.len() - k,
{
    if k < c.len() && !key_stop(c, k) {
        lemma_key_end(c, k + 1);
    }
}

fn is_key_stop(c: &Vec<char>, k: usize) -> (b: bool)
    requires
        k < c.len(),
    ensures
        b == key_stop(c@, k as int),
{
    let ch = c[k];
    is_whitespace(ch) || ch == '=' || ch == ':' || ch == '{' || ch == '}' || ch == '[' || ch == ']'
        || ch == ',' || (ch == '+' && k + 1 < c.len() && c[k + 1] == '=') || ch == '#' || is_slash2(
        c,
        k,
    )
}

/// Reads a key at `i`.
pub fn parse_key(c: &Vec<char>, i: usize) -> (r: Result<(String, bool, usize), HoconError>)
    requires
        i <= c.len(),
    ensures
        r matches Ok((s, q, j)) ==> key_spec(c@, i as int) == Ok::<((Seq<char>, bool), int), SErr>(((s@, q), j as int)) && i < j <= c.len(),
        r matches Err(e) ==> key_spec(c@, i as int) == Err::<((Seq<char>, bool), int), SErr>(e@),
{
    if i < c.len() && c[i] == '"' {
        match parse_quoted(c, i) {
            Ok((s, j)) => {
                return Ok((s, true, j));
            },
            Err(e) => {
                return Err(e);
            },
        }
    }
    proof {
        lemma_key_end(c@, i as int);
    }
    let mut k = i;
    while k < c.len() && !is_key_stop(c, k)
        invariant
            i <= k <= c.len(),
            key_end_from(c@, k as int) == key_end_from(c@, i as int),
        decreases c.len() - k,
    {
        k += 1;
    }
    if k == i {
        return Err(parse_error("empty key"));
    }
    Ok((string_of_range(c, i, k), false, k))
}

// ---------- substitutions ----------

/// Index of the first `}` at or after `k` (or the length).
pub open spec fn close_brace_from(c: Seq<char>, k: int) -> int
    decreases c.len() - k,
{
    if 0 <= k < c.len() && c[k] != '}' {
        close_brace_from(c, k + 1)
    } else {
        k
    }
}

/// `str::split('.')`: the pieces between the dots, empty ones included.
pub open spec fn split_dots(s: Seq<char>) -> Seq<Seq<char>>
    decreases s.len(),
{
    let p = crate::merge::dot_from(s, 0);
    if 0 <= p < s.len() {
        seq![s.take(p)] + split_dots(s.skip(p + 1))
    } else {
        seq![s]
    }
}

/// The path of a substitution body: split at dots, each piece trimmed.
pub open spec fn subst_path_spec(body: Seq<char>) -> Seq<Seq<char>> {
    let pieces = split_dots(trim(body));
    Seq::new(pieces.len(), |k: int| trim(pieces[k]))
}

/// A substitution whose `${` is at `i`: its path, whether it is optional (`${?`), and the
/// position past its `}`.
pub open spec fn subst_spec(c: Seq<char>, i: int) -> Result<((Seq<Seq<char>>, bool), int), SErr> {
    let j0 = i + 2;
    let optional = at(c, j0, '?');
    let j1 = if optional {
        j0 + 1
    } else {
        j0
    };
    let e = close_brace_from(c, j1);
    if e >= c.len() {
        Err(SErr::Parse("missing '}' in substitution"@))
    } else {
        Ok(((subst_path_spec(c.subrange(j1, e)), optional), e + 1))
    }
}

pub proof fn lemma_close_brace(c: Seq<char>, k: int)
    requires
        0 <= k <= c.len(),
    ensures
        k <= close_brace_from(c, k) <= c.len(),
        close_brace_from(c, k) < c.len() ==> c[close_brace_from(c, k)] == '}',
    decreases c.len() - k,
{
    if k < c.len() && c[k] != '}' {
        lemma_close_brace(c, k + 1);
    }
}

proof fn lemma_split_dots_len(s: Seq<char>)
    ensures
        split_dots(s).len() >= 1,
    decreases s.len(),
{
    let p = crate::merge::dot_from(s, 0);
    if 0 <= p < s.len() {
        lemma_split_dots_len(s.skip(p + 1));
    }
}

/// `s.split('.')` with each piece trimmed, on a character vector.
fn split_path(s: &Vec<char>) -> (r: Vec<String>)
    ensures
        strings_view(r) == Seq::new(split_dots(s@).len(), |k: int| trim(split_dots(s@)[k])),
{
    let mut r: Vec<String> = Vec::new();
    let mut lo: usize = 0;
    let ghost mut done: Seq<Seq<char>> = Seq::empty();
    proof {
        assert(s@.skip(0) =~= s@);
    }
    loop
        invariant
            lo <= s.len(),
            split_dots(s@) == done + split_dots(s@.skip(lo as int)),
            r.len() == done.len(),
            forall|k: int| 0 <= k < r.len() ==> #[trigger] r@[k]@ == trim(done[k]),
        decreases s.len() - lo,
    {
        let ghost rest = s@.skip(lo as int);
        let mut p = lo;
        while p < s.len() && s[p] != '.'
            invariant
                lo <= p <= s.len(),
                rest == s@.skip(lo as int),
                crate::merge::dot_from(rest, (p - lo) as int) == crate::merge::dot_from(rest, 0),
            decreases s.len() - p,
        {
            p += 1;
        }
        let mut piece: Vec<char> = Vec::new();
        let mut k = lo;
        while k < p
            invariant
                lo <= k <= p <= s.len(),
                piece@ == s@.subrange(lo as int, k as int),
            decreases p - k,
        {
            piece.push(s[k]);
            k += 1;
        }
        let t = trimmed(&piece);
        r.push(crate::text::string_of(&t));
        if p < s.len() {
            assert(rest.take(p - lo) =~= piece@);
            assert(rest.skip(p - lo + 1) =~= s@.skip(p + 1));
            proof {
                assert(crate::merge::dot_from(rest, (p - lo) as int) == (p - lo) as int);
                done = done.push(piece@);
                assert(split_dots(rest) == seq![rest.take(p - lo)] + split_dots(rest.skip(p - lo + 1)));
            }
            assert(split_dots(s@) =~= done + split_dots(s@.skip(p + 1)));
            lo = p + 1;
        } else {
            assert(rest =~= piece@);
            proof {
                assert(crate::merge::dot_from(rest, (p - lo) as int) == (p - lo) as int);
                done = done.push(piece@);
                assert(split_dots(rest) == seq![rest]);
            }
            assert(split_dots(s@) =~= done);
            assert(strings_view(r) =~= Seq::new(split_dots(s@).len(), |k: int| trim(split_dots(s@)[k])));
            return r;
        }
    }
}

/// Reads the substitution whose `${` is at `i`.
pub fn parse_subst(c: &Vec<char>, i: usize) -> (r: Result<(Vec<String>, bool, usize), HoconError>)
    requires
        i + 2 <= c.len(),
    ensures
        r matches Ok((p, o, j)) ==> subst_spec(c@, i as int) == Ok::<((Seq<Seq<char>>, bool), int), SErr>(((strings_view(p), o), j as int)) && i < j <= c.len(),
        r matches Err(e) ==> subst_spec(c@, i as int) == Err::<((Seq<Seq<char>>, bool), int), SErr>(e@),
{
    let mut j = i + 2;
    let optional = j < c.len() && c[j] == '?';
    if optional {
        j += 1;
    }
    let j1 = j;
    proof {
        lemma_close_brace(c@, j1 as int);
    }
    while j < c.len() && c[j] != '}'
        invariant
            j1 <= j <= c.len(),
            close_brace_from(c@, j as int) == close_brace_from(c@, j1 as int),
        decreases c.len() - j,
    {
        j += 1;
    }
    if j >= c.len() {
        return Err(parse_error("missing '}' in substitution"));
    }
    let mut body: Vec<char> = Vec::new();
    let mut k = j1;
    while k < j
        invariant
            j1 <= k <= j < c.len(),
            body@ == c@.subrange(j1 as int, k as int),
        decreases j - k,
    {
        body.push(c[k]);
        k += 1;
    }
    let t = trimmed(&body);
    let path = split_path(&t);
    Ok((path, optional, j + 1))
}

// ---------- unquoted text ----------

/// Whether the unquoted run that started at `start` stops before position `k`.
pub open spec fn text_stop(c: Seq<char>, start: int, k: int) -> bool {
    let ch = c[k];
    let prev_ws = k == start || is_ws(c[k - 1]);
    ||| ch == '\n' || ch == ',' || ch == '}' || ch == ']'
    ||| ch == '#' && prev_ws
    ||| slash2(c, k) && prev_ws
    ||| ch == '"' || ch == '{' || ch == '['
    ||| ch == '$' && at(c, k + 1, '{')
}

/// The end of the unquoted run that started at `start`, scanning from `k`. `#` and `//` start a
/// comment only after whitespace (or at the start of the run).
pub open spec fn text_end_from(c: Seq<char>, start: int, k: int) -> int
    decreases c.len() - k,
{
    if 0 <= k < c.len() && start <= k && !text_stop(c, start, k) {
        text_end_from(c, start, k + 1)
    } else {
        k
    }
}

pub proof fn lemma_text_end(c: Seq<char>, start: int, k: int)
    requires
        0 <= start <= k <= c.len(),
    ensures
        k <= text_end_from(c, start, k) <= c.len(),
    decreases c.len() - k,
{
    if k < c.len() && !text_stop(c, start, k) {
        lemma_text_end(c, start, k + 1);
    }
}

fn is_text_stop(c: &Vec<char>, start: usize, k: usize) -> (b: bool)
    requires
        start <= k < c.len(),
    ensures
        b == text_stop(c@, start as int, k as int),
{
    let ch = c[k];
    let prev_ws = k == start || is_whitespace(c[k - 1]);
    ch == '\n' || ch == ',' || ch == '}' || ch == ']' || (ch == '#' && prev_ws) || (is_slash2(c, k)
        && prev_ws) || ch == '"' || ch == '{' || ch == '[' || (ch == '$' && k + 1 < c.len() && c[k
        + 1] == '{')
}

/// Scans the unquoted run that starts at `start`.
pub fn text_end(c: &Vec<char>, start: usize) -> (r: usize)
    requires
        start <= c.len(),
    ensures
        r == text_end_from(c@, start as int, start as int),
        start <= r <= c.len(),
{
    proof {
        lemma_text_end(c@, start as int, start as int);
    }
    let mut k = start;
    while k < c.len() && !is_text_stop(c, start, k)
        invariant
            start <= k <= c.len(),
            text_end_from(c@, start as int, k as int) == text_end_from(c@, start as int, start as int),
        decreases c.len() - k,
    {
        k += 1;
    }
    k
}

} // verus!
