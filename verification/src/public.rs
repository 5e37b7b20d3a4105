//! The public repository: which files are public, the hygiene that public
//! text files keep, and the local links of public Markdown files.
use vstd::prelude::*;

use unicode_normalization::UnicodeNormalization;

use crate::application::{components, has_pair};
use crate::downstream::{extension_of, file_name, name_and_extension, utf8_string};
use crate::json::replace_all;
use crate::schema::strings_view;
use crate::schema::{regex_compiles, regex_is_match, regex_match};
use crate::workspace::{join, parent, parent_of, Workspace};
use crate::text::{is_prefix, is_white, push_char, push_str, string_of, trim};
use vstd::utf8::{decode_utf8, valid_utf8};

verus! {

/// The Unicode canonical composition (NFC) of a text.
pub uninterp spec fn nfc_form(s: Seq<char>) -> Seq<char>;

/// `UnicodeNormalization::nfc` from `unicode-normalization`, collected into a
/// string: the contract names the result, the NFC form of `s`.
#[verifier::external_body]
fn nfc_text(s: &str) -> (r: String)
    ensures
        r@ == nfc_form(s@),
{
    s.nfc().collect::<String>()
}

/// A top-level directory that never holds public files.
pub open spec fn excluded_root(c: Seq<char>) -> bool {
    ||| c == ".cache"@
    ||| c == ".git"@
    ||| c == "applications"@
    ||| c == "evidence"@
    ||| c == "out"@
    ||| c == "outcomes"@
    ||| c == "private"@
    ||| c == "sources"@
    ||| c == "submissions"@
    ||| c == "target"@
    ||| c == "tmp"@
}

/// The private weaknesses note at the root (compared in NFC).
pub open spec fn is_weakness_note(parts: Seq<Seq<char>>) -> bool {
    parts.len() == 1 && nfc_form(parts[0]) == nfc_form("Schw\u{e4}chen.md"@)
}

/// Whether the file at `relative` (inside the workspace) is public: not the
/// weaknesses note at the root, not under an excluded top-level directory,
/// and not inside a `__pycache__` directory.
pub open spec fn is_public_path(relative: Seq<char>) -> bool {
    let parts = components(relative);
    &&& !is_weakness_note(parts)
    &&& !(parts.len() > 0 && excluded_root(parts[0]))
    &&& !parts.contains("__pycache__"@)
}

/// Whether `c` is an excluded top-level directory.
fn is_excluded_root(c: &str) -> (r: bool)
    ensures
        r == excluded_root(c@),
{
    crate::text::same_text(c, ".cache") || crate::text::same_text(c, ".git")
        || crate::text::same_text(c, "applications") || crate::text::same_text(c, "evidence")
        || crate::text::same_text(c, "out") || crate::text::same_text(c, "outcomes")
        || crate::text::same_text(c, "private") || crate::text::same_text(c, "sources")
        || crate::text::same_text(c, "submissions") || crate::text::same_text(c, "target")
        || crate::text::same_text(c, "tmp")
}

/// Whether the file at `relative` is public (see `is_public_path`).
pub fn is_public(relative: &str) -> (r: bool)
    ensures
        r == is_public_path(relative@),
{
    let parts = crate::application::path_components(relative);
    let ghost pv = strings_view(parts@);
    if parts.len() == 1 {
        let a = nfc_text(parts[0].as_str());
        let b = nfc_text("Schw\u{e4}chen.md");
        if crate::text::same_text(a.as_str(), b.as_str()) {
            return false;
        }
    }
    if parts.len() > 0 && is_excluded_root(parts[0].as_str()) {
        return false;
    }
    let mut i: usize = 0;
    while i < parts.len()
        invariant
            i <= parts@.len(),
            pv == strings_view(parts@),
            pv == components(relative@),
            forall|t: int| 0 <= t < i ==> pv[t] != "__pycache__"@,
        decreases parts@.len() - i,
    {
        if crate::text::same_text(parts[i].as_str(), "__pycache__") {
            assert(pv[i as int] == "__pycache__"@);
            return false;
        }
        i = i + 1;
    }
    true
}

/// The extensions of text files whose hygiene is checked.
pub open spec fn text_suffix(e: Seq<char>) -> bool {
    ||| e == "cmd"@
    ||| e == "csv"@
    ||| e == "json"@
    ||| e == "lock"@
    ||| e == "md"@
    ||| e == "ps1"@
    ||| e == "rs"@
    ||| e == "sh"@
    ||| e == "toml"@
    ||| e == "typ"@
    ||| e == "yaml"@
    ||| e == "yml"@
}

/// The names of extension-less text files whose hygiene is checked.
pub open spec fn text_name(n: Seq<char>) -> bool {
    n == ".gitattributes"@ || n == ".gitignore"@ || n == "ccvl"@ || n == "justfile"@
}

/// Whether the file at `relative` is a text file: by its extension, or by
/// its name.
pub open spec fn is_textual_path(relative: Seq<char>) -> bool {
    match file_name(relative) {
        Some(name) => (match extension_of(name) {
            Some(e) => text_suffix(e),
            None => false,
        }) || text_name(name),
        None => false,
    }
}

/// Whether the file at `relative` is a text file (see `is_textual_path`).
pub fn is_textual(relative: &str) -> (r: bool)
    ensures
        r == is_textual_path(relative@),
{
    let (name, extension) = name_and_extension(relative);
    let by_extension = match &extension {
        Some(e) => {
            let e = e.as_str();
            crate::text::same_text(e, "cmd") || crate::text::same_text(e, "csv")
                || crate::text::same_text(e, "json") || crate::text::same_text(e, "lock")
                || crate::text::same_text(e, "md") || crate::text::same_text(e, "ps1")
                || crate::text::same_text(e, "rs") || crate::text::same_text(e, "sh")
                || crate::text::same_text(e, "toml") || crate::text::same_text(e, "typ")
                || crate::text::same_text(e, "yaml") || crate::text::same_text(e, "yml")
        },
        None => false,
    };
    let by_name = match &name {
        Some(n) => {
            let n = n.as_str();
            crate::text::same_text(n, ".gitattributes") || crate::text::same_text(n, ".gitignore")
                || crate::text::same_text(n, "ccvl") || crate::text::same_text(n, "justfile")
        },
        None => false,
    };
    by_extension || by_name
}


/// Position `i` ends a line: the text ends there or a line feed follows.
pub open spec fn ends_line(t: Seq<char>, i: int) -> bool {
    i == t.len() || (0 <= i < t.len() && t[i] == '\n')
}

/// Position `i` starts a line.
pub open spec fn starts_line(t: Seq<char>, i: int) -> bool {
    i == 0 || (0 < i <= t.len() && t[i - 1] == '\n')
}

/// A space or tab ends a line (the pattern `(?m)[ \t]+$`).
pub open spec fn has_trailing_space(t: Seq<char>) -> bool {
    exists|i: int| 0 <= i < t.len() && (#[trigger] t[i] == ' ' || t[i] == '\t') && ends_line(t, i + 1)
}

/// Seven `<`, `=` or `>` start a line, followed by a space or the line's end
/// (the pattern `(?m)^(<{7}|={7}|>{7})(?: |$)`).
pub open spec fn marker_at(t: Seq<char>, i: int) -> bool {
    &&& 0 <= i
    &&& i + 7 <= t.len()
    &&& (t[i] == '<' || t[i] == '=' || t[i] == '>')
    &&& forall|j: int| 0 <= j < 7 ==> #[trigger] t[i + j] == t[i]
    &&& (ends_line(t, i + 7) || t[i + 7] == ' ')
}

/// An unresolved merge marker starts some line.
pub open spec fn has_merge_marker(t: Seq<char>) -> bool {
    exists|i: int| starts_line(t, i) && #[trigger] marker_at(t, i)
}

/// A hygiene problem of a text file.
#[derive(Clone, Copy, Debug, PartialEq, Eq, Structural)]
pub enum Hygiene {
    NotUtf8,
    MissingFinalNewline,
    CrLineEndings,
    TrailingWhitespace,
    MergeMarker,
}

/// The problems of a text file's bytes, in the order they are reported.
pub open spec fn hygiene_of(bytes: Seq<u8>) -> Seq<Hygiene> {
    if !valid_utf8(bytes) {
        seq![Hygiene::NotUtf8]
    } else {
        let t = decode_utf8(bytes);
        let a: Seq<Hygiene> = if t.len() > 0 && t.last() != '\n' {
            seq![Hygiene::MissingFinalNewline]
        } else {
            Seq::empty()
        };
        let b: Seq<Hygiene> = if t.contains('\r') {
            seq![Hygiene::CrLineEndings]
        } else {
            Seq::empty()
        };
        let c: Seq<Hygiene> = if has_trailing_space(t) {
            seq![Hygiene::TrailingWhitespace]
        } else {
            Seq::empty()
        };
        let d: Seq<Hygiene> = if has_merge_marker(t) {
            seq![Hygiene::MergeMarker]
        } else {
            Seq::empty()
        };
        a + b + c + d
    }
}

/// Whether the text contains a carriage return.
fn has_cr(t: &str) -> (r: bool)
    ensures
        r == t@.contains('\r'),
{
    let n = t.unicode_len();
    let mut i: usize = 0;
    while i < n
        invariant
            n == t@.len(),
            i <= n,
            forall|j: int| 0 <= j < i ==> t@[j] != '\r',
        decreases n - i,
    {
        if t.get_char(i) == '\r' {
            return true;
        }
        i = i + 1;
    }
    false
}

/// Whether a space or tab ends a line.
fn trailing_space(t: &str) -> (r: bool)
    ensures
        r == has_trailing_space(t@),
{
    let n = t.unicode_len();
    let mut i: usize = 0;
    while i < n
        invariant
            n == t@.len(),
            i <= n,
            forall|j: int| 0 <= j < i ==> !((#[trigger] t@[j] == ' ' || t@[j] == '\t') && ends_line(t@, j + 1)),
        decreases n - i,
    {
        let c = t.get_char(i);
        if c == ' ' || c == '\t' {
            if i + 1 == n || t.get_char(i + 1) == '\n' {
                assert((t@[i as int] == ' ' || t@[i as int] == '\t') && ends_line(t@, i + 1));
                return true;
            }
        }
        i = i + 1;
    }
    false
}

/// Whether a merge marker starts at `i`.
fn marker(t: &str, n: usize, i: usize) -> (r: bool)
    requires
        n == t@.len(),
        i <= n,
    ensures
        r == marker_at(t@, i as int),
{
    if n - i < 7 {
        return false;
    }
    let c = t.get_char(i);
    if !(c == '<' || c == '=' || c == '>') {
        return false;
    }
    let mut j: usize = 1;
    while j < 7
        invariant
            n == t@.len(),
            i + 7 <= n,
            1 <= j <= 7,
            c == t@[i as int],
            forall|k: int| 0 <= k < j ==> #[trigger] t@[i + k] == c,
        decreases 7 - j,
    {
        if t.get_char(i + j) != c {
            return false;
        }
        j = j + 1;
    }
    i + 7 == n || t.get_char(i + 7) == '\n' || t.get_char(i + 7) == ' '
}

/// Whether a merge marker starts some line.
fn merge_marker(t: &str) -> (r: bool)
    ensures
        r == has_merge_marker(t@),
{
    let n = t.unicode_len();
    let mut i: usize = 0;
    while i < n
        invariant
            n == t@.len(),
            i <= n,
            forall|j: int| 0 <= j < i ==> !(starts_line(t@, j) && #[trigger] marker_at(t@, j)),
        decreases n - i,
    {
        if (i == 0 || t.get_char(i - 1) == '\n') && marker(t, n, i) {
            return true;
        }
        i = i + 1;
    }
    proof {
        assert forall|j: int| starts_line(t@, j) implies !#[trigger] marker_at(t@, j) by {
            if j >= n {
                assert(!marker_at(t@, j));
            }
        }
    }
    false
}

/// The hygiene problems of a text file's bytes, in the order they are reported.
pub fn text_hygiene(bytes: &Vec<u8>) -> (r: Vec<Hygiene>)
    ensures
        r@ == hygiene_of(bytes@),
{
    let mut copy: Vec<u8> = Vec::new();
    let mut i: usize = 0;
    while i < bytes.len()
        invariant
            i <= bytes@.len(),
            copy@ == bytes@.subrange(0, i as int),
        decreases bytes@.len() - i,
    {
        copy.push(bytes[i]);
        i = i + 1;
    }
    assert(copy@ =~= bytes@);
    let text = match utf8_string(copy) {
        Some(t) => t,
        None => {
            return vec![Hygiene::NotUtf8];
        },
    };
    let t = text.as_str();
    let n = t.unicode_len();
    let mut out: Vec<Hygiene> = Vec::new();
    if n > 0 && t.get_char(n - 1) != '\n' {
        out.push(Hygiene::MissingFinalNewline);
    }
    if has_cr(t) {
        out.push(Hygiene::CrLineEndings);
    }
    if trailing_space(t) {
        out.push(Hygiene::TrailingWhitespace);
    }
    if merge_marker(t) {
        out.push(Hygiene::MergeMarker);
    }
    assert(out@ =~= hygiene_of(bytes@));
    out
}

/// The message of a hygiene problem of the file at `relative`.
pub open spec fn hygiene_message(relative: Seq<char>, h: Hygiene) -> Seq<char> {
    relative + match h {
        Hygiene::NotUtf8 => ": not valid UTF-8"@,
        Hygiene::MissingFinalNewline => ": missing final newline"@,
        Hygiene::CrLineEndings => ": contains CR line endings"@,
        Hygiene::TrailingWhitespace => ": trailing whitespace"@,
        Hygiene::MergeMarker => ": unresolved merge marker"@,
    }
}

/// The messages of the problems `hs` of the file at `relative`.
pub open spec fn hygiene_messages(relative: Seq<char>, hs: Seq<Hygiene>) -> Seq<Seq<char>> {
    Seq::new(hs.len(), |i: int| hygiene_message(relative, hs[i]))
}

/// The hygiene messages of the text files among `files` (path and bytes),
/// file by file.
pub open spec fn text_errors(files: Seq<(String, Vec<u8>)>) -> Seq<Seq<char>>
    decreases files.len(),
{
    if files.len() == 0 {
        Seq::empty()
    } else {
        let f = files.last();
        text_errors(files.drop_last()) + if is_textual_path(f.0@) {
            hygiene_messages(f.0@, hygiene_of(f.1@))
        } else {
            Seq::empty()
        }
    }
}

/// A list of messages joined by `, `.
pub open spec fn joined_comma(items: Seq<Seq<char>>) -> Seq<char>
    decreases items.len(),
{
    if items.len() == 0 {
        Seq::empty()
    } else if items.len() == 1 {
        items[0]
    } else {
        joined_comma(items.drop_last()) + ", "@ + items.last()
    }
}

/// Why the public repository is refused.
#[derive(Debug)]
pub enum RepositoryError {
    /// Local Markdown links whose targets are missing, each `file -> link`.
    BrokenLinks(Vec<String>),
    /// Hygiene failures of text files, each `file: problem`.
    TextHygiene(Vec<String>),
    /// The Markdown file at this path has no parent directory.
    NoParent(String),
}

impl RepositoryError {
    /// The message of the error.
    pub open spec fn text(&self) -> Seq<char> {
        match self {
            RepositoryError::BrokenLinks(items) => "broken local Markdown links: "@ + joined_comma(
                strings_view(items@),
            ),
            RepositoryError::TextHygiene(items) => "text hygiene failures: "@ + joined_comma(
                strings_view(items@),
            ),
            RepositoryError::NoParent(p) => "Markdown file has no parent: "@ + p@,
        }
    }

    /// The message of the error, as the tool prints it.
    pub fn message(&self) -> (r: String)
        ensures
            r@ == self.text(),
    {
        let (head, items) = match self {
            RepositoryError::BrokenLinks(items) => ("broken local Markdown links: ", items),
            RepositoryError::TextHygiene(items) => ("text hygiene failures: ", items),
            RepositoryError::NoParent(p) => {
                let mut out = string_of("Markdown file has no parent: ");
                push_str(&mut out, p.as_str());
                return out;
            },
        };
        let mut out = string_of(head);
        let ghost start = out@;
        let ghost v = strings_view(items@);
        let mut i: usize = 0;
        while i < items.len()
            invariant
                i <= items@.len(),
                v == strings_view(items@),
                out@ == start + joined_comma(v.subrange(0, i as int)),
            decreases items@.len() - i,
        {
            proof {
                assert(v.subrange(0, i + 1).drop_last() =~= v.subrange(0, i as int));
                if i == 0 {
                    assert(v.subrange(0, 0) =~= Seq::<Seq<char>>::empty());
                }
            }
            if i > 0 {
                push_str(&mut out, ", ");
            }
            push_str(&mut out, items[i].as_str());
            i = i + 1;
            assert(out@ =~= start + joined_comma(v.subrange(0, i as int)));
        }
        assert(v.subrange(0, items@.len() as int) =~= v);
        out
    }
}

/// `validate_text_files`: every text file among the public `files` (path
/// inside the workspace, and bytes) is UTF-8, ends with a newline, has no
/// carriage returns, no trailing white space and no merge markers; all
/// failures are reported together.
pub fn validate_text_files(files: &Vec<(String, Vec<u8>)>) -> (r: Result<(), RepositoryError>)
    ensures
        text_errors(files@).len() == 0 ==> r is Ok,
        text_errors(files@).len() > 0 ==> (r matches Err(RepositoryError::TextHygiene(items))
            && strings_view(items@) == text_errors(files@)),
{
    let mut errors: Vec<String> = Vec::new();
    let mut i: usize = 0;
    while i < files.len()
        invariant
            i <= files@.len(),
            strings_view(errors@) == text_errors(files@.subrange(0, i as int)),
        decreases files@.len() - i,
    {
        proof {
            assert(files@.subrange(0, i + 1).drop_last() =~= files@.subrange(0, i as int));
        }
        let ghost before = strings_view(errors@);
        let relative = files[i].0.as_str();
        if is_textual(relative) {
            let problems = text_hygiene(&files[i].1);
            let mut j: usize = 0;
            while j < problems.len()
                invariant
                    i < files@.len(),
                    j <= problems@.len(),
                    problems@ == hygiene_of(files@[i as int].1@),
                    relative@ == files@[i as int].0@,
                    strings_view(errors@) == before + hygiene_messages(relative@, problems@).subrange(
                        0,
                        j as int,
                    ),
                decreases problems@.len() - j,
            {
                let mut m = string_of(relative);
                match problems[j] {
                    Hygiene::NotUtf8 => push_str(&mut m, ": not valid UTF-8"),
                    Hygiene::MissingFinalNewline => push_str(&mut m, ": missing final newline"),
                    Hygiene::CrLineEndings => push_str(&mut m, ": contains CR line endings"),
                    Hygiene::TrailingWhitespace => push_str(&mut m, ": trailing whitespace"),
                    Hygiene::MergeMarker => push_str(&mut m, ": unresolved merge marker"),
                }
                assert(m@ == hygiene_message(relative@, problems@[j as int]));
                let ghost e0 = errors@;
                errors.push(m);
                assert(strings_view(errors@) =~= strings_view(e0).push(m@));
                assert(hygiene_messages(relative@, problems@).subrange(0, j + 1) =~= hygiene_messages(
                    relative@,
                    problems@,
                ).subrange(0, j as int).push(m@));
                j = j + 1;
                assert(strings_view(errors@) =~= before + hygiene_messages(relative@, problems@).subrange(
                    0,
                    j as int,
                ));
            }
            assert(hygiene_messages(relative@, problems@).subrange(0, problems@.len() as int)
                =~= hygiene_messages(relative@, problems@));
        } else {
            assert(strings_view(errors@) =~= before + Seq::<Seq<char>>::empty());
        }
        i = i + 1;
    }
    assert(files@.subrange(0, files@.len() as int) =~= files@);
    if errors.len() > 0 {
        Err(RepositoryError::TextHygiene(errors))
    } else {
        Ok(())
    }
}


/// The first index `i >= start` with `t[i] == c`.
pub open spec fn find_from(t: Seq<char>, c: char, start: int) -> Option<int>
    decreases t.len() - start,
{
    if start < 0 || start >= t.len() {
        None
    } else if t[start] == c {
        Some(start)
    } else {
        find_from(t, c, start + 1)
    }
}

/// A link `[text](destination)` whose `[` is at `q`: its destination and
/// where it ends. The text holds no `]`; the destination is not empty and
/// holds no `)`.
pub open spec fn bracket_link(t: Seq<char>, q: int) -> Option<(Seq<char>, int)> {
    if 0 <= q < t.len() && t[q] == '[' {
        match find_from(t, ']', q + 1) {
            Some(r) => if r + 1 < t.len() && t[r + 1] == '(' {
                match find_from(t, ')', r + 2) {
                    Some(e) => if e > r + 2 {
                        Some((t.subrange(r + 2, e), e + 1))
                    } else {
                        None
                    },
                    None => None,
                }
            } else {
                None
            },
            None => None,
        }
    } else {
        None
    }
}

/// A link (or image, with a leading `!`) that starts at `p`.
pub open spec fn link_at(t: Seq<char>, p: int) -> Option<(Seq<char>, int)> {
    if 0 <= p < t.len() && t[p] == '!' {
        bracket_link(t, p + 1)
    } else {
        bracket_link(t, p)
    }
}

/// The destinations of the links from `p` on, each link found at the
/// leftmost place where one starts, the search going on after it (the
/// pattern `!?\[[^]]*\]\(([^)]+)\)`).
pub open spec fn links_from(t: Seq<char>, p: int) -> Seq<Seq<char>>
    decreases t.len() - p,
{
    if p < 0 || p >= t.len() {
        Seq::empty()
    } else {
        match link_at(t, p) {
            Some((d, e)) => if p < e <= t.len() {
                seq![d] + links_from(t, e)
            } else {
                links_from(t, p + 1)
            },
            None => links_from(t, p + 1),
        }
    }
}

/// The first index `i >= start` with `t[i] == c`.
pub(crate) fn find_char_from(t: &str, n: usize, c: char, start: usize) -> (r: Option<usize>)
    requires
        n == t@.len(),
    ensures
        match find_from(t@, c, start as int) {
            Some(i) => r == Some(i as usize) && start <= i < n && t@[i] == c,
            None => r is None,
        },
    decreases n - start,
{
    if start >= n {
        return None;
    }
    if t.get_char(start) == c {
        return Some(start);
    }
    find_char_from(t, n, c, start + 1)
}

/// A link whose `[` is at `q`.
fn bracket_link_at(t: &str, n: usize, q: usize) -> (r: Option<(usize, usize)>)
    requires
        n == t@.len(),
    ensures
        match bracket_link(t@, q as int) {
            Some((d, e)) => (r matches Some((a, b)) && q < a < b < n && d == t@.subrange(a as int, b as int) && e == b + 1),
            None => r is None,
        },
{
    if q >= n || t.get_char(q) != '[' {
        return None;
    }
    let close = match find_char_from(t, n, ']', q + 1) {
        Some(r) => r,
        None => {
            return None;
        },
    };
    if !(close + 1 < n && t.get_char(close + 1) == '(') {
        return None;
    }
    let end = match find_char_from(t, n, ')', close + 2) {
        Some(e) => e,
        None => {
            return None;
        },
    };
    if end <= close + 2 {
        return None;
    }
    Some((close + 2, end))
}

/// The destinations of the links of a Markdown text, in order.
pub fn link_destinations(text: &str) -> (r: Vec<String>)
    ensures
        strings_view(r@) == links_from(text@, 0),
{
    let n = text.unicode_len();
    let mut out: Vec<String> = Vec::new();
    let mut p: usize = 0;
    while p < n
        invariant
            n == text@.len(),
            p <= n,
            strings_view(out@) + links_from(text@, p as int) == links_from(text@, 0),
        decreases n - p,
    {
        let start = if text.get_char(p) == '!' {
            p + 1
        } else {
            p
        };
        match bracket_link_at(text, n, start) {
            Some((a, b)) => {
                let ghost before = strings_view(out@);
                out.push(string_of(text.substring_char(a, b)));
                assert(strings_view(out@) =~= before.push(text@.subrange(a as int, b as int)));
                assert(strings_view(out@) + links_from(text@, b + 1) =~= before + (seq![
                    text@.subrange(a as int, b as int),
                ] + links_from(text@, b + 1)));
                p = b + 1;
            },
            None => {
                p = p + 1;
            },
        }
    }
    assert(links_from(text@, p as int) == Seq::<Seq<char>>::empty());
    assert(strings_view(out@) + Seq::<Seq<char>>::empty() =~= strings_view(out@));
    out
}

/// The index of the first white-space character of `s` from `i` on, or its length.
pub open spec fn white_from(s: Seq<char>, i: int) -> int
    decreases s.len() - i,
{
    if i < 0 || i >= s.len() {
        s.len() as int
    } else if is_white(s[i]) {
        i
    } else {
        white_from(s, i + 1)
    }
}

/// The index of the first `#` or `?` of `s` from `i` on, or its length.
pub open spec fn query_from(s: Seq<char>, i: int) -> int
    decreases s.len() - i,
{
    if i < 0 || i >= s.len() {
        s.len() as int
    } else if s[i] == '#' || s[i] == '?' {
        i
    } else {
        query_from(s, i + 1)
    }
}

/// The index of the first character of `s` from `i` on that is not `/`.
pub open spec fn slashes_from(s: Seq<char>, i: int) -> int
    decreases s.len() - i,
{
    if 0 <= i < s.len() && s[i] == '/' {
        slashes_from(s, i + 1)
    } else {
        i
    }
}

/// `s` without its leading `/`s.
pub open spec fn drop_slashes(s: Seq<char>) -> Seq<char> {
    s.subrange(slashes_from(s, 0), s.len() as int)
}

/// The destination of a link as written: trimmed, then the text inside
/// `<...>`, or else its first word.
pub open spec fn written_destination(raw: Seq<char>) -> Seq<char> {
    let d = trim(raw);
    if d.len() > 0 && d[0] == '<' && d.contains('>') {
        d.subrange(1, find_from(d, '>', 0)->0)
    } else {
        d.subrange(0, white_from(d, 0))
    }
}

/// Whether a written destination names a local file: it is not empty, not
/// an anchor and not a web or mail address.
pub open spec fn is_local(d: Seq<char>) -> bool {
    &&& d.len() > 0
    &&& !is_prefix("#"@, d)
    &&& !is_prefix("http://"@, d)
    &&& !is_prefix("https://"@, d)
    &&& !is_prefix("mailto:"@, d)
}

/// The file path of a local destination: before any `#` or `?`, with `%20`
/// read as a space.
pub open spec fn clean_destination(d: Seq<char>) -> Seq<char> {
    replace_all(d.subrange(0, query_from(d, 0)), "%20"@, " "@)
}

/// The file that a local link of the Markdown file at `md_relative` names:
/// from the workspace root when it starts with `/`, else from the file's
/// directory (`None` when that file has no parent directory).
pub open spec fn link_candidate(w: Workspace, md_relative: Seq<char>, d: Seq<char>) -> Option<Seq<char>> {
    let clean = clean_destination(d);
    if clean.len() > 0 && clean[0] == '/' {
        Some(join(w.root_view(), drop_slashes(clean)))
    } else {
        match parent_of(join(w.root_view(), md_relative)) {
            Some(dir) => Some(join(dir, clean)),
            None => None,
        }
    }
}

/// A local link to check: the file it names, and the entry to report when
/// that file is missing (`file -> destination`).
pub struct LinkCheck {
    pub candidate: String,
    pub report: String,
}

/// The local links among `raws` (link destinations of the Markdown file at
/// `md_relative`), as the checks they need.
pub open spec fn link_checks(w: Workspace, md_relative: Seq<char>, raws: Seq<Seq<char>>) -> Option<Seq<(Seq<char>, Seq<char>)>>
    decreases raws.len(),
{
    if raws.len() == 0 {
        Some(Seq::empty())
    } else {
        match link_checks(w, md_relative, raws.drop_last()) {
            None => None,
            Some(checks) => {
                let d = written_destination(raws.last());
                if !is_local(d) {
                    Some(checks)
                } else {
                    match link_candidate(w, md_relative, d) {
                        None => None,
                        Some(c) => Some(checks.push((c, md_relative + " -> "@ + d))),
                    }
                }
            },
        }
    }
}

/// The views of a list of link checks.
pub open spec fn checks_view(v: Seq<LinkCheck>) -> Seq<(Seq<char>, Seq<char>)> {
    Seq::new(v.len(), |i: int| (v[i].candidate@, v[i].report@))
}


fn white_index(s: &str, n: usize, i: usize) -> (r: usize)
    requires
        n == s@.len(),
        i <= n,
    ensures
        r == white_from(s@, i as int),
        i <= r <= n,
    decreases n - i,
{
    if i >= n || crate::text::white(s.get_char(i)) {
        i
    } else {
        white_index(s, n, i + 1)
    }
}

fn query_index(s: &str, n: usize, i: usize) -> (r: usize)
    requires
        n == s@.len(),
        i <= n,
    ensures
        r == query_from(s@, i as int),
        i <= r <= n,
    decreases n - i,
{
    if i >= n {
        return i;
    }
    let c = s.get_char(i);
    if c == '#' || c == '?' {
        i
    } else {
        query_index(s, n, i + 1)
    }
}

fn slash_index(s: &str, n: usize, i: usize) -> (r: usize)
    requires
        n == s@.len(),
        i <= n,
    ensures
        r == slashes_from(s@, i as int),
        i <= r <= n,
    decreases n - i,
{
    if i < n && s.get_char(i) == '/' {
        slash_index(s, n, i + 1)
    } else {
        i
    }
}

/// The destination of a link as written (see `written_destination`).
fn written(raw: &str) -> (r: String)
    ensures
        r@ == written_destination(raw@),
{
    let d = crate::text::trimmed(raw);
    let t = d.as_str();
    let n = t.unicode_len();
    if n > 0 && t.get_char(0) == '<' {
        match find_char_from(t, n, '>', 0) {
            Some(k) => {
                proof {
                    assert(t@[k as int] == '>');
                    assert(t@.contains('>'));
                }
                return string_of(t.substring_char(1, k));
            },
            None => {
                proof {
                    if t@.contains('>') {
                        let j = choose|j: int| 0 <= j < t@.len() && t@[j] == '>';
                        lemma_find_from_finds(t@, '>', 0, j);
                    }
                }
            },
        }
    }
    let w = white_index(t, n, 0);
    string_of(t.substring_char(0, w))
}

proof fn lemma_find_from_finds(t: Seq<char>, c: char, start: int, j: int)
    requires
        0 <= start <= j < t.len(),
        t[j] == c,
    ensures
        find_from(t, c, start) is Some,
    decreases j - start,
{
    if t[start] != c {
        lemma_find_from_finds(t, c, start + 1, j);
    }
}

/// Whether a written destination names a local file.
fn local(d: &str) -> (r: bool)
    ensures
        r == is_local(d@),
{
    d.unicode_len() > 0 && !crate::text::starts_with(d, "#") && !crate::text::starts_with(d, "http://")
        && !crate::text::starts_with(d, "https://") && !crate::text::starts_with(d, "mailto:")
}

/// Replaces every non-overlapping occurrence of `pat` in `s`, left to right.
fn replace_text(s: &str, pat: &str, rep: &str) -> (r: String)
    requires
        pat@.len() > 0,
    ensures
        r@ == replace_all(s@, pat@, rep@),
{
    let n = s.unicode_len();
    let m = pat.unicode_len();
    let mut out = String::new();
    let mut i: usize = 0;
    assert(s@.subrange(0, n as int) =~= s@);
    while i < n
        invariant
            n == s@.len(),
            m == pat@.len(),
            m > 0,
            i <= n,
            out@ + replace_all(s@.subrange(i as int, n as int), pat@, rep@) == replace_all(s@, pat@, rep@),
        decreases n - i,
    {
        let ghost rest = s@.subrange(i as int, n as int);
        let mut matched = n - i >= m;
        let mut j: usize = 0;
        while matched && j < m
            invariant
                n == s@.len(),
                m == pat@.len(),
                i < n,
                matched ==> i + m <= n,
                j <= m,
                matched ==> forall|k: int| 0 <= k < j ==> s@[i + k] == pat@[k],
                !matched ==> (n - i < m || exists|k: int| 0 <= k < j && i + k < n && s@[i + k] != pat@[k]),
            decreases m - j,
        {
            if s.get_char(i + j) != pat.get_char(j) {
                matched = false;
            }
            j = j + 1;
        }
        proof {
            if matched {
                assert(rest.subrange(0, m as int) =~= pat@);
                assert(rest.subrange(m as int, rest.len() as int) =~= s@.subrange(i + m, n as int));
            } else {
                if is_prefix(pat@, rest) {
                    assert(i + m <= n);
                    let k = choose|k: int| 0 <= k < j && i + k < n && s@[i + k] != pat@[k];
                    assert(rest.subrange(0, m as int)[k] == s@[i + k]);
                }
                assert(rest.drop_first() =~= s@.subrange(i + 1, n as int));
            }
        }
        if matched {
            let ghost before = out@;
            push_str(&mut out, rep);
            i = i + m;
            assert(out@ + replace_all(s@.subrange(i as int, n as int), pat@, rep@) =~= before + (rep@
                + replace_all(s@.subrange(i as int, n as int), pat@, rep@)));
        } else {
            let c = s.get_char(i);
            let ghost before = out@;
            push_char(&mut out, c);
            i = i + 1;
            assert(out@ + replace_all(s@.subrange(i as int, n as int), pat@, rep@) =~= before + (seq![c]
                + replace_all(s@.subrange(i as int, n as int), pat@, rep@)));
        }
    }
    assert(s@.subrange(n as int, n as int).len() == 0);
    assert(out@ + Seq::<char>::empty() =~= out@);
    out
}

/// The local links of the Markdown file at `md_relative` with text `text`:
/// for each, the file it names and the entry to report when that file is
/// missing, in order.
#[verifier::loop_isolation(false)]
pub fn markdown_link_checks(workspace: &Workspace, md_relative: &str, text: &str) -> (r: Result<
    Vec<LinkCheck>,
    RepositoryError,
>)
    ensures
        match link_checks(*workspace, md_relative@, links_from(text@, 0)) {
            Some(checks) => (r matches Ok(v) && checks_view(v@) == checks),
            None => (r matches Err(RepositoryError::NoParent(p)) && p@ == md_relative@),
        },
{
    proof {
        reveal_strlit("%20");
        reveal_strlit(" ");
    }
    let raws = link_destinations(text);
    let ghost rv = strings_view(raws@);
    let mut out: Vec<LinkCheck> = Vec::new();
    let mut i: usize = 0;
    assert(rv.subrange(0, 0) =~= Seq::<Seq<char>>::empty());
    assert(checks_view(out@) =~= Seq::<(Seq<char>, Seq<char>)>::empty());
    while i < raws.len()
        invariant
            i <= raws@.len(),
            rv == strings_view(raws@),
            rv == links_from(text@, 0),
            link_checks(*workspace, md_relative@, rv.subrange(0, i as int)) == Some(checks_view(out@)),
        decreases raws@.len() - i,
    {
        proof {
            assert(rv.subrange(0, i + 1).drop_last() =~= rv.subrange(0, i as int));
            assert(rv.subrange(0, i + 1).last() == raws@[i as int]@);
        }
        let d = written(raws[i].as_str());
        if local(d.as_str()) {
            let q = query_index(d.as_str(), d.as_str().unicode_len(), 0);
            let before_query = d.as_str().substring_char(0, q);
            let clean = replace_text(before_query, "%20", " ");
            let c = clean.as_str();
            let cn = c.unicode_len();
            let candidate = if cn > 0 && c.get_char(0) == '/' {
                let k = slash_index(c, cn, 0);
                workspace.path(c.substring_char(k, cn))
            } else {
                let file = workspace.path(md_relative);
                match parent(file.as_str()) {
                    Some(dir) => crate::workspace::join_paths(dir.as_str(), c),
                    None => {
                        proof {
                            assert(rv[i as int] == raws@[i as int]@);
                            assert(d@ == written_destination(rv[i as int]));
                            assert(clean@ == clean_destination(d@));
                            assert(link_candidate(*workspace, md_relative@, d@) is None);
                            assert(rv.subrange(0, i + 1).last() == rv[i as int]);
                            assert(link_checks(*workspace, md_relative@, rv.subrange(0, i + 1)) is None);
                            lemma_checks_settled(*workspace, md_relative@, rv, i + 1, rv.len() as int);
                            assert(rv.subrange(0, rv.len() as int) =~= rv);
                        }
                        return Err(RepositoryError::NoParent(string_of(md_relative)));
                    },
                }
            };
            let mut report = string_of(md_relative);
            push_str(&mut report, " -> ");
            push_str(&mut report, d.as_str());
            let ghost before = checks_view(out@);
            out.push(LinkCheck { candidate, report });
            assert(checks_view(out@) =~= before.push((out@.last().candidate@, out@.last().report@)));
        }
        i = i + 1;
    }
    assert(rv.subrange(0, raws@.len() as int) =~= rv);
    Ok(out)
}

proof fn lemma_checks_settled(w: Workspace, md: Seq<char>, raws: Seq<Seq<char>>, k: int, n: int)
    requires
        0 <= k <= n <= raws.len(),
        link_checks(w, md, raws.subrange(0, k)) is None,
    ensures
        link_checks(w, md, raws.subrange(0, n)) is None,
    decreases n - k,
{
    if n > k {
        lemma_checks_settled(w, md, raws, k, n - 1);
        assert(raws.subrange(0, n).drop_last() =~= raws.subrange(0, n - 1));
    }
}

/// `validate_repository`: the public repository's local Markdown links
/// resolve (`broken` lists the entries of the checks whose files are
/// missing, in order) and its text files keep their hygiene.
pub fn validate_repository(broken: &Vec<String>, text_files: &Vec<(String, Vec<u8>)>) -> (r: Result<
    (),
    RepositoryError,
>)
    ensures
        broken@.len() > 0 ==> (r matches Err(RepositoryError::BrokenLinks(items)) && strings_view(
            items@,
        ) == strings_view(broken@)),
        broken@.len() == 0 && text_errors(text_files@).len() == 0 ==> r is Ok,
        broken@.len() == 0 && text_errors(text_files@).len() > 0 ==> (r matches Err(
            RepositoryError::TextHygiene(items),
        ) && strings_view(items@) == text_errors(text_files@)),
{
    if broken.len() > 0 {
        let mut items: Vec<String> = Vec::new();
        let mut i: usize = 0;
        while i < broken.len()
            invariant
                i <= broken@.len(),
                items@.len() == i,
                forall|t: int| 0 <= t < i ==> #[trigger] items@[t]@ == broken@[t]@,
            decreases broken@.len() - i,
        {
            items.push(string_of(broken[i].as_str()));
            i = i + 1;
        }
        assert(strings_view(items@) =~= strings_view(broken@));
        return Err(RepositoryError::BrokenLinks(items));
    }
    validate_text_files(text_files)
}

// ---------------------------------------------------------------------------
// The publication boundary
// ---------------------------------------------------------------------------

/// The private downstream roots, which a public workspace does not hold.
pub open spec fn private_root_names() -> Seq<Seq<char>> {
    seq![
        "applications"@,
        "evidence"@,
        "out"@,
        "outcomes"@,
        "private"@,
        "sources"@,
        "submissions"@,
    ]
}

/// The private downstream roots, in the order in which they are checked.
pub fn private_roots() -> (r: Vec<String>)
    ensures
        strings_view(r@) == private_root_names(),
{
    let r = vec![
        string_of("applications"),
        string_of("evidence"),
        string_of("out"),
        string_of("outcomes"),
        string_of("private"),
        string_of("sources"),
        string_of("submissions"),
    ];
    assert(strings_view(r@) =~= private_root_names());
    r
}

/// The components of a path begin with `prefix`.
pub open spec fn begins_with(parts: Seq<Seq<char>>, prefix: Seq<Seq<char>>) -> bool {
    prefix.len() <= parts.len() && parts.subrange(0, prefix.len() as int) == prefix
}

/// The file lies in the private data of the workspace: opportunities,
/// targets, evidence or imports.
pub open spec fn in_workspace_data(relative: Seq<char>) -> bool {
    let parts = components(relative);
    ||| parts.len() > 0 && (parts[0] == "opportunities"@ || parts[0] == "targets"@)
    ||| begins_with(parts, seq!["cvl"@, "evidence"@])
    ||| begins_with(parts, seq!["cvl"@, "imports"@])
}

/// The files of the private data areas that a public workspace may hold:
/// their read-me files.
pub open spec fn allowed_data(relative: Seq<char>) -> bool {
    let parts = components(relative);
    ||| parts == seq!["cvl"@, "evidence"@, "README.md"@]
    ||| parts == seq!["cvl"@, "imports"@, "README.md"@]
    ||| parts == seq!["opportunities"@, "README.md"@]
    ||| parts == seq!["targets"@, "README.md"@]
}

/// Entries whose links are not reviewed: repository metadata, caches and
/// build outputs.
pub open spec fn link_exempt(relative: Seq<char>) -> bool {
    let parts = components(relative);
    begins_with(parts, seq![".git"@]) || begins_with(parts, seq![".cache"@]) || begins_with(
        parts,
        seq!["target"@],
    )
}

/// The first line of an unresolved Git LFS pointer file.
pub open spec fn lfs_pointer(bytes: Seq<u8>) -> bool {
    let p = crate::pdf::ascii("version https://git-lfs.github.com/spec/v1"@);
    p.len() <= bytes.len() && bytes.subrange(0, p.len() as int) == p
}

/// The file is scanned for secrets and private identifiers: all public files
/// but the signature image, the bundled fonts and rendered PDF outputs.
pub open spec fn scanned(relative: Seq<char>) -> bool {
    let parts = components(relative);
    let is_font = begins_with(parts, seq!["cvl"@, "shared"@, "fonts"@]);
    let is_output = (match file_name(relative) {
        Some(name) => extension_of(name) == Some("pdf"@),
        None => false,
    }) && parts.contains("output"@);
    parts != seq!["cvl"@, "cl"@, "assets"@, "signature.png"@] && !is_font && !is_output
}

/// The files that name the public identifiers themselves.
pub open spec fn declares_identifiers(relative: Seq<char>) -> bool {
    let parts = components(relative);
    parts == seq!["PUBLIC_IDENTIFIERS.md"@] || parts == seq!["scripts"@, "public_check.py"@]
}

/// The secret patterns: private keys and cloud, forge, model and chat tokens.
pub open spec fn secret_pattern() -> Seq<char> {
    "(?m)-----BEGIN (?:[A-Z ]+ )?PRIVATE KEY-----|AKIA[0-9A-Z]{16}|ASIA[0-9A-Z]{16}|github_pat_[A-Za-z0-9_]{20,}|gh[pousr]_[A-Za-z0-9]{20,}|sk-[A-Za-z0-9_-]{20,}|xox[baprs]-[A-Za-z0-9-]{10,}"@
}

/// The private workspace identifiers, written in pieces so that this file
/// does not hold them.
pub open spec fn private_pattern() -> Seq<char> {
    "/home/"@ + "richc"@ + "|julian-corbet/"@ + "applications"@ + "|BEGIN OPENSSH "@
        + "PRIVATE KEY"@
}

/// Why a workspace may not be published.
#[derive(Debug, PartialEq)]
pub enum BoundaryError {
    PrivateRoot(String),
    PrivateData(String),
    Symlink(String),
    LfsPointer(String),
    /// A pattern of the scan does not compile.
    InvalidPattern,
    Secret(String),
    PrivateIdentifier(String),
}

/// Why a workspace may not be published, as plain values.
pub enum BoundaryFault {
    PrivateRoot(Seq<char>),
    PrivateData(Seq<char>),
    Symlink(Seq<char>),
    LfsPointer(Seq<char>),
    InvalidPattern,
    Secret(Seq<char>),
    PrivateIdentifier(Seq<char>),
}

impl View for BoundaryError {
    type V = BoundaryFault;

    open spec fn view(&self) -> BoundaryFault {
        match self {
            BoundaryError::PrivateRoot(p) => BoundaryFault::PrivateRoot(p@),
            BoundaryError::PrivateData(p) => BoundaryFault::PrivateData(p@),
            BoundaryError::Symlink(p) => BoundaryFault::Symlink(p@),
            BoundaryError::LfsPointer(p) => BoundaryFault::LfsPointer(p@),
            BoundaryError::InvalidPattern => BoundaryFault::InvalidPattern,
            BoundaryError::Secret(p) => BoundaryFault::Secret(p@),
            BoundaryError::PrivateIdentifier(p) => BoundaryFault::PrivateIdentifier(p@),
        }
    }
}

/// The first of the first `n` private roots that exists.
pub open spec fn existing_root(exists: Seq<bool>, n: int) -> Option<Seq<char>>
    decreases n,
{
    if n <= 0 || n > private_root_names().len() {
        None
    } else {
        match existing_root(exists, n - 1) {
            Some(r) => Some(r),
            None => if n - 1 < exists.len() && exists[n - 1] {
                Some(private_root_names()[n - 1])
            } else {
                None
            },
        }
    }
}

/// The first of the first `n` public files that is private data.
pub open spec fn private_data(public: Seq<(Seq<char>, Seq<char>)>, n: int) -> Option<Seq<char>>
    decreases n,
{
    if n <= 0 || n > public.len() {
        None
    } else {
        match private_data(public, n - 1) {
            Some(p) => Some(p),
            None => if in_workspace_data(public[n - 1].0) && !allowed_data(public[n - 1].0) {
                Some(public[n - 1].0)
            } else {
                None
            },
        }
    }
}

/// The first of the first `n` walked entries that is an unreviewed link.
pub open spec fn first_link(walk: Seq<(Seq<char>, bool)>, n: int) -> Option<Seq<char>>
    decreases n,
{
    if n <= 0 || n > walk.len() {
        None
    } else {
        match first_link(walk, n - 1) {
            Some(p) => Some(p),
            None => if walk[n - 1].1 && !link_exempt(walk[n - 1].0) {
                Some(walk[n - 1].0)
            } else {
                None
            },
        }
    }
}

/// The first of the first `n` files that is an LFS pointer.
pub open spec fn first_pointer(files: Seq<(Seq<char>, Seq<u8>)>, n: int) -> Option<Seq<char>>
    decreases n,
{
    if n <= 0 || n > files.len() {
        None
    } else {
        match first_pointer(files, n - 1) {
            Some(p) => Some(p),
            None => if lfs_pointer(files[n - 1].1) {
                Some(files[n - 1].0)
            } else {
                None
            },
        }
    }
}

/// What the scan finds in one public file, if anything.
pub open spec fn scan_fault(relative: Seq<char>, text: Seq<char>) -> Option<BoundaryFault> {
    if !scanned(relative) {
        None
    } else if regex_is_match(secret_pattern(), text) {
        Some(BoundaryFault::Secret(relative))
    } else if !declares_identifiers(relative) && regex_is_match(private_pattern(), text) {
        Some(BoundaryFault::PrivateIdentifier(relative))
    } else {
        None
    }
}

/// What the scan finds first in the first `n` public files.
pub open spec fn first_scan_fault(public: Seq<(Seq<char>, Seq<char>)>, n: int) -> Option<BoundaryFault>
    decreases n,
{
    if n <= 0 || n > public.len() {
        None
    } else {
        match first_scan_fault(public, n - 1) {
            Some(f) => Some(f),
            None => scan_fault(public[n - 1].0, public[n - 1].1),
        }
    }
}

/// The publication boundary, checked in order: no private downstream root
/// exists (`exists` follows `private_root_names`); no public file is private
/// data other than the read-me files; no walked entry is an unreviewed link;
/// no file under `cvl` is an unresolved LFS pointer; and no scanned public
/// file matches a secret or, unless it names them, a private identifier.
pub open spec fn boundary_outcome(
    exists: Seq<bool>,
    public: Seq<(Seq<char>, Seq<char>)>,
    walk: Seq<(Seq<char>, bool)>,
    cvl_files: Seq<(Seq<char>, Seq<u8>)>,
) -> Result<(), BoundaryFault> {
    match existing_root(exists, 7) {
        Some(r) => Err(BoundaryFault::PrivateRoot(r)),
        None => match private_data(public, public.len() as int) {
            Some(p) => Err(BoundaryFault::PrivateData(p)),
            None => match first_link(walk, walk.len() as int) {
                Some(p) => Err(BoundaryFault::Symlink(p)),
                None => match first_pointer(cvl_files, cvl_files.len() as int) {
                    Some(p) => Err(BoundaryFault::LfsPointer(p)),
                    None => if !regex_compiles(secret_pattern()) || !regex_compiles(
                        private_pattern(),
                    ) {
                        Err(BoundaryFault::InvalidPattern)
                    } else {
                        match first_scan_fault(public, public.len() as int) {
                            Some(f) => Err(f),
                            None => Ok(()),
                        }
                    },
                },
            },
        },
    }
}

/// The components are exactly `want`.
fn parts_are(parts: &Vec<String>, want: &Vec<String>) -> (r: bool)
    ensures
        r == (strings_view(parts@) == strings_view(want@)),
{
    if parts.len() != want.len() {
        proof {
            if strings_view(parts@) == strings_view(want@) {
                assert(strings_view(parts@).len() == strings_view(want@).len());
            }
        }
        return false;
    }
    assert(strings_view(parts@).subrange(0, strings_view(parts@).len() as int) =~= strings_view(parts@));
    parts_begin(parts, want)
}

/// The components begin with `want`.
fn parts_begin(parts: &Vec<String>, want: &Vec<String>) -> (r: bool)
    ensures
        r == begins_with(strings_view(parts@), strings_view(want@)),
{
    if want.len() > parts.len() {
        return false;
    }
    let ghost pv = strings_view(parts@);
    let ghost wv = strings_view(want@);
    let mut i: usize = 0;
    while i < want.len()
        invariant
            want@.len() <= parts@.len(),
            i <= want@.len(),
            pv == strings_view(parts@),
            wv == strings_view(want@),
            forall|t: int| 0 <= t < i ==> pv[t] == wv[t],
        decreases want@.len() - i,
    {
        if !crate::text::same_text(parts[i].as_str(), want[i].as_str()) {
            assert(pv.subrange(0, wv.len() as int)[i as int] == pv[i as int]);
            return false;
        }
        i = i + 1;
    }
    assert(pv.subrange(0, wv.len() as int) =~= wv);
    true
}

/// The components `a`, `b`.
fn two(a: &str, b: &str) -> (r: Vec<String>)
    ensures
        strings_view(r@) == seq![a@, b@],
{
    let r = vec![string_of(a), string_of(b)];
    assert(strings_view(r@) =~= seq![a@, b@]);
    r
}

/// The components `a`, `b`, `c`.
fn three(a: &str, b: &str, c: &str) -> (r: Vec<String>)
    ensures
        strings_view(r@) == seq![a@, b@, c@],
{
    let r = vec![string_of(a), string_of(b), string_of(c)];
    assert(strings_view(r@) =~= seq![a@, b@, c@]);
    r
}

/// The single component `a`.
fn one(a: &str) -> (r: Vec<String>)
    ensures
        strings_view(r@) == seq![a@],
{
    let r = vec![string_of(a)];
    assert(strings_view(r@) =~= seq![a@]);
    r
}

/// A public file outside the private data areas, or one of their read-me
/// files.
pub fn data_allowed(relative: &str) -> (r: bool)
    ensures
        r == (!in_workspace_data(relative@) || allowed_data(relative@)),
{
    let parts = crate::application::path_components(relative);
    let in_data = (parts.len() > 0 && (crate::text::same_text(parts[0].as_str(), "opportunities")
        || crate::text::same_text(parts[0].as_str(), "targets"))) || parts_begin(
        &parts,
        &two("cvl", "evidence"),
    ) || parts_begin(&parts, &two("cvl", "imports"));
    if !in_data {
        return true;
    }
    parts_are(&parts, &three("cvl", "evidence", "README.md")) || parts_are(
        &parts,
        &three("cvl", "imports", "README.md"),
    ) || parts_are(&parts, &two("opportunities", "README.md")) || parts_are(
        &parts,
        &two("targets", "README.md"),
    )
}

/// Links under this entry are not reviewed.
pub fn exempt_from_link_review(relative: &str) -> (r: bool)
    ensures
        r == link_exempt(relative@),
{
    let parts = crate::application::path_components(relative);
    parts_begin(&parts, &one(".git")) || parts_begin(&parts, &one(".cache")) || parts_begin(
        &parts,
        &one("target"),
    )
}

/// The bytes begin an unresolved Git LFS pointer.
pub fn is_lfs_pointer(bytes: &Vec<u8>) -> (r: bool)
    ensures
        r == lfs_pointer(bytes@),
{
    crate::pdf::bytes_at(bytes, 0, "version https://git-lfs.github.com/spec/v1")
}

/// The public file is scanned for secrets and private identifiers.
#[verifier::loop_isolation(false)]
pub fn scanned_for_secrets(relative: &str) -> (r: bool)
    ensures
        r == scanned(relative@),
{
    let parts = crate::application::path_components(relative);
    let ghost pv = strings_view(parts@);
    let signature = vec![
        string_of("cvl"),
        string_of("cl"),
        string_of("assets"),
        string_of("signature.png"),
    ];
    assert(strings_view(signature@) =~= seq!["cvl"@, "cl"@, "assets"@, "signature.png"@]);
    if parts_are(&parts, &signature) {
        return false;
    }
    if parts_begin(&parts, &three("cvl", "shared", "fonts")) {
        return false;
    }
    let (_, extension) = name_and_extension(relative);
    let pdf = match &extension {
        Some(e) => crate::text::same_text(e.as_str(), "pdf"),
        None => false,
    };
    if !pdf {
        return true;
    }
    let mut i: usize = 0;
    while i < parts.len()
        invariant
            i <= parts@.len(),
            pv == strings_view(parts@),
            forall|t: int| 0 <= t < i ==> pv[t] != "output"@,
        decreases parts@.len() - i,
    {
        if crate::text::same_text(parts[i].as_str(), "output") {
            assert(pv[i as int] == "output"@);
            assert(pv.contains("output"@));
            return false;
        }
        i = i + 1;
    }
    proof {
        if pv.contains("output"@) {
            let t = choose|t: int| 0 <= t < pv.len() && pv[t] == "output"@;
            assert(pv[t] != "output"@);
        }
    }
    true
}

/// The file names the public identifiers itself.
fn declares(relative: &str) -> (r: bool)
    ensures
        r == declares_identifiers(relative@),
{
    let parts = crate::application::path_components(relative);
    parts_are(&parts, &one("PUBLIC_IDENTIFIERS.md")) || parts_are(
        &parts,
        &two("scripts", "public_check.py"),
    )
}

/// The private identifier pattern.
fn private_pattern_text() -> (r: String)
    ensures
        r@ == private_pattern(),
{
    let mut r = string_of("/home/");
    push_str(&mut r, "richc");
    push_str(&mut r, "|julian-corbet/");
    push_str(&mut r, "applications");
    push_str(&mut r, "|BEGIN OPENSSH ");
    push_str(&mut r, "PRIVATE KEY");
    r
}

/// The public files with their texts, as plain values.
pub open spec fn texts_view(v: Seq<(String, String)>) -> Seq<(Seq<char>, Seq<char>)> {
    v.map_values(|p: (String, String)| (p.0@, p.1@))
}

/// Walked entries with whether each is a symbolic link, as plain values.
pub open spec fn walk_view(v: Seq<(String, bool)>) -> Seq<(Seq<char>, bool)> {
    v.map_values(|p: (String, bool)| (p.0@, p.1))
}

/// Files with their contents, as plain values.
pub open spec fn files_view(v: Seq<(String, Vec<u8>)>) -> Seq<(Seq<char>, Seq<u8>)> {
    v.map_values(|p: (String, Vec<u8>)| (p.0@, p.1@))
}

proof fn lemma_private_data_stays(public: Seq<(Seq<char>, Seq<char>)>, k: int, m: int)
    requires
        0 < k <= m <= public.len(),
        private_data(public, k) is Some,
    ensures
        private_data(public, m) == private_data(public, k),
    decreases m - k,
{
    if m > k {
        lemma_private_data_stays(public, k, m - 1);
    }
}

proof fn lemma_first_link_stays(walk: Seq<(Seq<char>, bool)>, k: int, m: int)
    requires
        0 < k <= m <= walk.len(),
        first_link(walk, k) is Some,
    ensures
        first_link(walk, m) == first_link(walk, k),
    decreases m - k,
{
    if m > k {
        lemma_first_link_stays(walk, k, m - 1);
    }
}

proof fn lemma_first_pointer_stays(files: Seq<(Seq<char>, Seq<u8>)>, k: int, m: int)
    requires
        0 < k <= m <= files.len(),
        first_pointer(files, k) is Some,
    ensures
        first_pointer(files, m) == first_pointer(files, k),
    decreases m - k,
{
    if m > k {
        lemma_first_pointer_stays(files, k, m - 1);
    }
}

proof fn lemma_scan_fault_stays(public: Seq<(Seq<char>, Seq<char>)>, k: int, m: int)
    requires
        0 < k <= m <= public.len(),
        first_scan_fault(public, k) is Some,
    ensures
        first_scan_fault(public, m) == first_scan_fault(public, k),
    decreases m - k,
{
    if m > k {
        lemma_scan_fault_stays(public, k, m - 1);
    }
}

proof fn lemma_root_stays(exists: Seq<bool>, k: int, m: int)
    requires
        0 < k <= m <= 7,
        existing_root(exists, k) is Some,
    ensures
        existing_root(exists, m) == existing_root(exists, k),
    decreases m - k,
{
    if m > k {
        lemma_root_stays(exists, k, m - 1);
    }
}

/// `validate_boundary`: whether the workspace may be published. `exists`
/// tells, for each of `private_roots()` in order, whether it exists; `public`
/// lists the public files (relative, in order) with their text, read
/// lossily as UTF-8; `walk` lists every entry of the workspace walk
/// (relative) with whether it is a symbolic link; `cvl_files` lists the
/// files under `cvl` (relative) with their contents.
#[verifier::loop_isolation(false)]
pub fn validate_boundary(
    exists: &Vec<bool>,
    public: &Vec<(String, String)>,
    walk: &Vec<(String, bool)>,
    cvl_files: &Vec<(String, Vec<u8>)>,
) -> (r: Result<(), BoundaryError>)
    ensures
        match boundary_outcome(exists@, texts_view(public@), walk_view(walk@), files_view(cvl_files@)) {
            Ok(_) => r is Ok,
            Err(f) => r matches Err(e) && e@ == f,
        },
{
    let roots = private_roots();
    let ghost pv = texts_view(public@);
    let ghost wv = walk_view(walk@);
    let ghost fv = files_view(cvl_files@);
    let mut i: usize = 0;
    while i < 7
        invariant
            i <= 7,
            existing_root(exists@, i as int) is None,
        decreases 7 - i,
    {
        if i < exists.len() && exists[i] {
            proof {
                lemma_root_stays(exists@, i + 1, 7);
            }
            return Err(BoundaryError::PrivateRoot(string_of(roots[i].as_str())));
        }
        i = i + 1;
    }
    let mut i: usize = 0;
    while i < public.len()
        invariant
            i <= public@.len(),
            private_data(pv, i as int) is None,
        decreases public@.len() - i,
    {
        if !data_allowed(public[i].0.as_str()) {
            proof {
                assert(pv[i as int].0 == public@[i as int].0@);
                lemma_private_data_stays(pv, i + 1, pv.len() as int);
            }
            return Err(BoundaryError::PrivateData(string_of(public[i].0.as_str())));
        }
        assert(pv[i as int].0 == public@[i as int].0@);
        i = i + 1;
    }
    let mut i: usize = 0;
    while i < walk.len()
        invariant
            i <= walk@.len(),
            first_link(wv, i as int) is None,
        decreases walk@.len() - i,
    {
        assert(wv[i as int] == (walk@[i as int].0@, walk@[i as int].1));
        if walk[i].1 && !exempt_from_link_review(walk[i].0.as_str()) {
            proof {
                lemma_first_link_stays(wv, i + 1, wv.len() as int);
            }
            return Err(BoundaryError::Symlink(string_of(walk[i].0.as_str())));
        }
        i = i + 1;
    }
    let mut i: usize = 0;
    while i < cvl_files.len()
        invariant
            i <= cvl_files@.len(),
            first_pointer(fv, i as int) is None,
        decreases cvl_files@.len() - i,
    {
        assert(fv[i as int] == (cvl_files@[i as int].0@, cvl_files@[i as int].1@));
        if is_lfs_pointer(&cvl_files[i].1) {
            proof {
                lemma_first_pointer_stays(fv, i + 1, fv.len() as int);
            }
            return Err(BoundaryError::LfsPointer(string_of(cvl_files[i].0.as_str())));
        }
        i = i + 1;
    }
    let secret = string_of("(?m)-----BEGIN (?:[A-Z ]+ )?PRIVATE KEY-----|AKIA[0-9A-Z]{16}|ASIA[0-9A-Z]{16}|github_pat_[A-Za-z0-9_]{20,}|gh[pousr]_[A-Za-z0-9]{20,}|sk-[A-Za-z0-9_-]{20,}|xox[baprs]-[A-Za-z0-9-]{10,}");
    let private = private_pattern_text();
    if regex_match(secret.as_str(), "").is_none() || regex_match(private.as_str(), "").is_none() {
        return Err(BoundaryError::InvalidPattern);
    }
    let mut i: usize = 0;
    while i < public.len()
        invariant
            i <= public@.len(),
            first_scan_fault(pv, i as int) is None,
        decreases public@.len() - i,
    {
        assert(pv[i as int] == (public@[i as int].0@, public@[i as int].1@));
        let relative = public[i].0.as_str();
        let text = public[i].1.as_str();
        if scanned_for_secrets(relative) {
            match regex_match(secret.as_str(), text) {
                Some(true) => {
                    proof {
                        lemma_scan_fault_stays(pv, i + 1, pv.len() as int);
                    }
                    return Err(BoundaryError::Secret(string_of(relative)));
                },
                Some(false) => {},
                None => return Err(BoundaryError::InvalidPattern),
            }
            if !declares(relative) {
                match regex_match(private.as_str(), text) {
                    Some(true) => {
                        proof {
                            lemma_scan_fault_stays(pv, i + 1, pv.len() as int);
                        }
                        return Err(BoundaryError::PrivateIdentifier(string_of(relative)));
                    },
                    Some(false) => {},
                    None => return Err(BoundaryError::InvalidPattern),
                }
            }
        }
        i = i + 1;
    }
    Ok(())
}


/// A text file in which a space or a tab stands directly before a line
/// feed, or at the very end, is reported for trailing whitespace; and only
/// such a file is.
pub proof fn trailing_blanks_are_reported(bytes: Seq<u8>, i: int)
    ensures
        (valid_utf8(bytes) && 0 <= i < decode_utf8(bytes).len() && (decode_utf8(bytes)[i] == ' '
            || decode_utf8(bytes)[i] == '\t') && (i + 1 == decode_utf8(bytes).len() || decode_utf8(
            bytes,
        )[i + 1] == '\n')) ==> hygiene_of(bytes).contains(Hygiene::TrailingWhitespace),
        hygiene_of(bytes).contains(Hygiene::TrailingWhitespace) ==> valid_utf8(bytes) && exists|j: int|
            0 <= j < decode_utf8(bytes).len() && (#[trigger] decode_utf8(bytes)[j] == ' '
                || decode_utf8(bytes)[j] == '\t') && (j + 1 == decode_utf8(bytes).len() || decode_utf8(
                bytes,
            )[j + 1] == '\n'),
{
    if valid_utf8(bytes) {
        let t = decode_utf8(bytes);
        let a: Seq<Hygiene> = if t.len() > 0 && t.last() != '\n' {
            seq![Hygiene::MissingFinalNewline]
        } else {
            Seq::empty()
        };
        let b: Seq<Hygiene> = if t.contains('\r') {
            seq![Hygiene::CrLineEndings]
        } else {
            Seq::empty()
        };
        let c: Seq<Hygiene> = if has_trailing_space(t) {
            seq![Hygiene::TrailingWhitespace]
        } else {
            Seq::empty()
        };
        let d: Seq<Hygiene> = if has_merge_marker(t) {
            seq![Hygiene::MergeMarker]
        } else {
            Seq::empty()
        };
        let h = a + b + c + d;
        assert(h == hygiene_of(bytes));
        if 0 <= i < t.len() && (t[i] == ' ' || t[i] == '\t') && (i + 1 == t.len() || t[i + 1] == '\n') {
            assert(ends_line(t, i + 1));
            assert(has_trailing_space(t));
            assert(h[(a.len() + b.len()) as int] == Hygiene::TrailingWhitespace);
        }
        if h.contains(Hygiene::TrailingWhitespace) {
            let k = choose|k: int| 0 <= k < h.len() && h[k] == Hygiene::TrailingWhitespace;
            if !has_trailing_space(t) {
                assert(c.len() == 0);
                if k < a.len() {
                    assert(h[k] == a[k]);
                } else if k < a.len() + b.len() {
                    assert(h[k] == b[k - a.len()]);
                } else {
                    assert(h[k] == d[k - a.len() - b.len()]);
                }
            }
        }
    } else {
        assert(hygiene_of(bytes) == seq![Hygiene::NotUtf8]);
        if hygiene_of(bytes).contains(Hygiene::TrailingWhitespace) {
            let k = choose|k: int| 0 <= k < hygiene_of(bytes).len() && hygiene_of(bytes)[k] == Hygiene::TrailingWhitespace;
            assert(hygiene_of(bytes)[k] == Hygiene::NotUtf8);
        }
    }
}


proof fn lemma_concat_contains(a: Seq<Hygiene>, b: Seq<Hygiene>, c: Seq<Hygiene>, d: Seq<Hygiene>, x: Hygiene)
    ensures
        (a + b + c + d).contains(x) <==> (a.contains(x) || b.contains(x) || c.contains(x) || d.contains(x)),
{
    let h = a + b + c + d;
    if h.contains(x) {
        let k = choose|k: int| 0 <= k < h.len() && h[k] == x;
        if k < a.len() {
            assert(a[k] == x);
        } else if k < a.len() + b.len() {
            assert(b[k - a.len()] == x);
        } else if k < a.len() + b.len() + c.len() {
            assert(c[k - a.len() - b.len()] == x);
        } else {
            assert(d[k - a.len() - b.len() - c.len()] == x);
        }
    }
    if a.contains(x) {
        let k = choose|k: int| 0 <= k < a.len() && a[k] == x;
        assert(h[k] == x);
    }
    if b.contains(x) {
        let k = choose|k: int| 0 <= k < b.len() && b[k] == x;
        assert(h[a.len() + k] == x);
    }
    if c.contains(x) {
        let k = choose|k: int| 0 <= k < c.len() && c[k] == x;
        assert(h[a.len() + b.len() + k] == x);
    }
    if d.contains(x) {
        let k = choose|k: int| 0 <= k < d.len() && d[k] == x;
        assert(h[a.len() + b.len() + c.len() + k] == x);
    }
}

/// Each hygiene problem is reported exactly when the file has it: bytes
/// that are not UTF-8 (and then nothing else), a last character that is
/// not a line feed, a carriage return anywhere, and a merge marker.
pub proof fn hygiene_reports_each_problem(bytes: Seq<u8>)
    ensures
        hygiene_of(bytes).contains(Hygiene::NotUtf8) <==> !valid_utf8(bytes),
        !valid_utf8(bytes) ==> hygiene_of(bytes) == seq![Hygiene::NotUtf8],
        hygiene_of(bytes).contains(Hygiene::MissingFinalNewline) <==> (valid_utf8(bytes) && decode_utf8(
            bytes,
        ).len() > 0 && decode_utf8(bytes).last() != '\n'),
        hygiene_of(bytes).contains(Hygiene::CrLineEndings) <==> (valid_utf8(bytes) && decode_utf8(
            bytes,
        ).contains('\r')),
        hygiene_of(bytes).contains(Hygiene::MergeMarker) <==> (valid_utf8(bytes) && has_merge_marker(
            decode_utf8(bytes),
        )),
{
    if valid_utf8(bytes) {
        let t = decode_utf8(bytes);
        let a: Seq<Hygiene> = if t.len() > 0 && t.last() != '\n' {
            seq![Hygiene::MissingFinalNewline]
        } else {
            Seq::empty()
        };
        let b: Seq<Hygiene> = if t.contains('\r') {
            seq![Hygiene::CrLineEndings]
        } else {
            Seq::empty()
        };
        let c: Seq<Hygiene> = if has_trailing_space(t) {
            seq![Hygiene::TrailingWhitespace]
        } else {
            Seq::empty()
        };
        let d: Seq<Hygiene> = if has_merge_marker(t) {
            seq![Hygiene::MergeMarker]
        } else {
            Seq::empty()
        };
        assert(a + b + c + d == hygiene_of(bytes));
        lemma_concat_contains(a, b, c, d, Hygiene::NotUtf8);
        lemma_concat_contains(a, b, c, d, Hygiene::MissingFinalNewline);
        lemma_concat_contains(a, b, c, d, Hygiene::CrLineEndings);
        lemma_concat_contains(a, b, c, d, Hygiene::MergeMarker);
        if a.len() > 0 {
            assert(a[0] == Hygiene::MissingFinalNewline);
        }
        if b.len() > 0 {
            assert(b[0] == Hygiene::CrLineEndings);
        }
        if d.len() > 0 {
            assert(d[0] == Hygiene::MergeMarker);
        }
    } else {
        assert(hygiene_of(bytes)[0] == Hygiene::NotUtf8);
    }
}

} // verus!
