//! Inclusion directives: their syntax, and the table of included files' contents that the
//! caller supplies.

use vstd::prelude::*;
use crate::lexer::{HoconError, SErr};
use crate::parser::seq_inclusion_kw;
use crate::text::{string_of, string_of_range, trim, trimmed};
use vstd::string::StringExecFns;

verus! {

/// The resource that an inclusion directive names.
pub enum IncludeKind {
    Url,
    Classpath,
    File,
}

/// A parsed inclusion directive. Only files are included here; `url(...)` and
/// `classpath(...)` are unsupported.
pub struct IncludeSpec {
    pub path: String,
    pub required: bool,
    pub kind: IncludeKind,
}

pub open spec fn seq_required() -> Seq<char> {
    seq!['r', 'e', 'q', 'u', 'i', 'r', 'e', 'd']
}

pub open spec fn seq_url() -> Seq<char> {
    seq!['u', 'r', 'l']
}

pub open spec fn seq_classpath() -> Seq<char> {
    seq!['c', 'l', 'a', 's', 's', 'p', 'a', 't', 'h']
}

pub open spec fn seq_file() -> Seq<char> {
    seq!['f', 'i', 'l', 'e']
}

/// `name(inner)`: the `inner` text.
pub open spec fn strip_call_spec(s: Seq<char>, name: Seq<char>) -> Option<Seq<char>> {
    let pre = name.push('(');
    if pre.len() < s.len() && s.take(pre.len() as int) == pre && s.last() == ')' {
        Some(s.subrange(pre.len() as int, s.len() - 1))
    } else {
        None
    }
}

/// The text after an optional `required(...)` and an optional `url(...)`, `classpath(...)` or
/// `file(...)` wrapper: whether it was required, the kind, and the remaining (trimmed) text.
pub open spec fn include_parts(raw: Seq<char>) -> (bool, IncludeKind, Seq<char>) {
    let s0 = trim(raw);
    let (required, s1) = match strip_call_spec(s0, seq_required()) {
        Some(inner) => (true, trim(inner)),
        None => (false, s0),
    };
    match strip_call_spec(s1, seq_url()) {
        Some(inner) => (required, IncludeKind::Url, trim(inner)),
        None => match strip_call_spec(s1, seq_classpath()) {
            Some(inner) => (required, IncludeKind::Classpath, trim(inner)),
            None => match strip_call_spec(s1, seq_file()) {
                Some(inner) => (required, IncludeKind::File, trim(inner)),
                None => (required, IncludeKind::File, s1),
            },
        },
    }
}

/// An inclusion directive's argument: a quoted path, possibly wrapped as above.
pub open spec fn include_spec_spec(raw: Seq<char>) -> Result<(Seq<char>, bool, IncludeKind), SErr> {
    let (required, kind, s) = include_parts(raw);
    if s.len() >= 2 && s[0] == '"' && s.last() == '"' {
        Ok((s.subrange(1, s.len() - 1), required, kind))
    } else {
        Err(SErr::Unsupported("unquoted "@ + seq_inclusion_kw() + ": "@ + debug_str(raw)))
    }
}

fn strip_call(s: &Vec<char>, name: &Vec<char>) -> (r: Option<Vec<char>>)
    ensures
        r matches Some(v) ==> strip_call_spec(s@, name@) == Some(v@),
        r is None ==> strip_call_spec(s@, name@) is None,
{
    let ghost pre = name@.push('(');
    let n = name.len();
    if s.len() == 0 || n >= s.len() - 1 {
        return None;
    }
    let mut k: usize = 0;
    while k < n
        invariant
            k <= n == name.len(),
            n + 1 < s.len(),
            pre == name@.push('('),
            forall|j: int| 0 <= j < k ==> s@[j] == #[trigger] name@[j],
        decreases n - k,
    {
        if s[k] != name[k] {
            assert(s@.take(pre.len() as int)[k as int] != pre[k as int]);
            return None;
        }
        k += 1;
    }
    if s[n] != '(' || s[s.len() - 1] != ')' {
        assert(s@.take(pre.len() as int)[n as int] == s@[n as int]);
        return None;
    }
    assert(s@.take(pre.len() as int) =~= pre);
    let mut inner: Vec<char> = Vec::new();
    let mut j = n + 1;
    while j < s.len() - 1
        invariant
            n + 1 <= j <= s.len() - 1,
            inner@ == s@.subrange(n + 1, j as int),
        decreases s.len() - 1 - j,
    {
        inner.push(s[j]);
        j += 1;
    }
    Some(inner)
}

/// How Rust's `Debug` formatting shows a string: between double quotes, each character escaped
/// as `char::escape_debug` escapes it (quotes and backslashes among them).
pub uninterp spec fn debug_str(s: Seq<char>) -> Seq<char>;

/// `format!("{:?}", s)`: std's `Debug` formatting of a string. The contract names the text it
/// gives ([`debug_str`]) without stating it.
#[verifier::external_body]
fn show_text(s: &String) -> (r: String)
    ensures
        r@ == debug_str(s@),
{
    format!("{:?}", s)
}

/// The error for an inclusion directive whose path is not quoted, `shown` being the directive's
/// argument as [`debug_str`] shows it.
pub fn unquoted_path_error(shown: String) -> (e: HoconError)
    ensures
        e@ == SErr::Unsupported("unquoted "@ + seq_inclusion_kw() + ": "@ + shown@),
{
    let kw = vec!['i', 'n', 'c', 'l', 'u', 'd', 'e'];
    assert(kw@ == seq_inclusion_kw());
    let mut m = crate::lexer::msg("unquoted ");
    m.append(string_of(&kw).as_str());
    m.append(": ");
    m.append(shown.as_str());
    HoconError::Unsupported(m)
}

/// Parses the argument of an inclusion directive.
pub fn parse_include_spec(raw: &Vec<char>) -> (r: Result<IncludeSpec, HoconError>)
    ensures
        r matches Ok(spec) ==> include_spec_spec(raw@) == Ok::<(Seq<char>, bool, IncludeKind), SErr>((spec.path@, spec.required, spec.kind)),
        r matches Err(e) ==> include_spec_spec(raw@) == Err::<(Seq<char>, bool, IncludeKind), SErr>(e@),
{
    let required_name = vec!['r', 'e', 'q', 'u', 'i', 'r', 'e', 'd'];
    let url_name = vec!['u', 'r', 'l'];
    let classpath_name = vec!['c', 'l', 'a', 's', 's', 'p', 'a', 't', 'h'];
    let file_name = vec!['f', 'i', 'l', 'e'];
    assert(required_name@ == seq_required());
    assert(url_name@ == seq_url());
    assert(classpath_name@ == seq_classpath());
    assert(file_name@ == seq_file());
    let mut s = trimmed(raw);
    let mut required = false;
    match strip_call(&s, &required_name) {
        Some(inner) => {
            required = true;
            s = trimmed(&inner);
        },
        None => {},
    }
    let mut kind = IncludeKind::File;
    match strip_call(&s, &url_name) {
        Some(inner) => {
            kind = IncludeKind::Url;
            s = trimmed(&inner);
        },
        None => match strip_call(&s, &classpath_name) {
            Some(inner) => {
                kind = IncludeKind::Classpath;
                s = trimmed(&inner);
            },
            None => match strip_call(&s, &file_name) {
                Some(inner) => {
                    kind = IncludeKind::File;
                    s = trimmed(&inner);
                },
                None => {},
            },
        },
    }
    assert(include_parts(raw@) == (required, kind, s@));
    if s.len() >= 2 && s[0] == '"' && s[s.len() - 1] == '"' {
        Ok(IncludeSpec { path: string_of_range(&s, 1, s.len() - 1), required, kind })
    } else {
        Err(unquoted_path_error(show_text(&string_of(raw))))
    }
}

// ---------- the table of included files ----------

/// The content of one included file, as the caller read it.
pub struct IncludeEntry {
    /// The directory that the including document resolves paths against (empty: none).
    pub base: String,
    /// The path that the directive names.
    pub path: String,
    /// The file's text, or `None` when it could not be read.
    pub content: Option<String>,
    /// The directory of the file, against which its own includes resolve.
    pub dir: String,
}

/// The model of an [`IncludeEntry`]: base, path, content, directory.
pub type SEntry = (Seq<char>, Seq<char>, Option<Seq<char>>, Seq<char>);

pub open spec fn opt_view(o: Option<String>) -> Option<Seq<char>> {
    match o {
        Some(s) => Some(s@),
        None => None,
    }
}

impl View for IncludeEntry {
    type V = SEntry;

    open spec fn view(&self) -> SEntry {
        (self.base@, self.path@, opt_view(self.content), self.dir@)
    }
}

/// Contents of the included files read so far.
pub struct IncludeTable {
    pub entries: Vec<IncludeEntry>,
}

impl View for IncludeTable {
    type V = Seq<SEntry>;

    open spec fn view(&self) -> Seq<SEntry> {
        Seq::new(self.entries.len() as nat, |i: int| self.entries@[i]@)
    }
}

/// Index of the first entry for `path` included from `base`.
pub open spec fn find_entry_from(t: Seq<SEntry>, base: Seq<char>, path: Seq<char>, i: int) -> Option<int>
    decreases t.len() - i,
{
    if 0 <= i < t.len() {
        if t[i].0 == base && t[i].1 == path {
            Some(i)
        } else {
            find_entry_from(t, base, path, i + 1)
        }
    } else {
        None
    }
}

pub proof fn lemma_find_entry_from(t: Seq<SEntry>, base: Seq<char>, path: Seq<char>, i: int)
    requires
        0 <= i,
    ensures
        find_entry_from(t, base, path, i) matches Some(k) ==> i <= k < t.len() && t[k].0 == base && t[k].1 == path,
    decreases t.len() - i,
{
    if 0 <= i < t.len() {
        lemma_find_entry_from(t, base, path, i + 1);
    }
}

impl IncludeTable {
    pub fn new() -> (t: IncludeTable)
        ensures
            t@ == Seq::<SEntry>::empty(),
    {
        let t = IncludeTable { entries: Vec::new() };
        assert(t@ =~= Seq::<SEntry>::empty());
        t
    }

    /// Records what was read for `path` included from `base`.
    pub fn add(&mut self, entry: IncludeEntry)
        ensures
            final(self)@ == old(self)@.push(entry@),
    {
        let ghost e = entry@;
        self.entries.push(entry);
        assert(self@ =~= old(self)@.push(e));
    }

    /// Index of the entry for `path` included from `base`.
    pub fn find(&self, base: &String, path: &String) -> (r: Option<usize>)
        ensures
            r matches Some(k) ==> find_entry_from(self@, base@, path@, 0) == Some(k as int) && k < self@.len(),
            r is None ==> find_entry_from(self@, base@, path@, 0) is None,
    {
        let mut i: usize = 0;
        while i < self.entries.len()
            invariant
                i <= self.entries.len(),
                find_entry_from(self@, base@, path@, i as int) == find_entry_from(
                    self@,
                    base@,
                    path@,
                    0,
                ),
            decreases self.entries.len() - i,
        {
            assert(self@[i as int] == self.entries@[i as int]@);
            if self.entries[i].base == *base && self.entries[i].path == *path {
                return Some(i);
            }
            i += 1;
        }
        None
    }
}

} // verus!
