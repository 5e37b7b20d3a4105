//! The publication boundary of a private downstream.
//!
//! A downstream repository may differ from its public upstream only in the
//! paths that its policy owns. The policy names the upstream remote, its URL
//! and branch, and the owned path rules; a directory rule ends in `/` and owns
//! every strict descendant, any other rule owns exactly one path.
use vstd::prelude::*;

use crate::text::{contains_char, is_ascii_alnum, is_prefix, push_str, same_text, starts_with};
use vstd::utf8::{decode_utf8, valid_utf8};

verus! {

/// The policy format version that this library accepts.
pub const POLICY_VERSION: u64 = 1;

/// Where the upstream of a downstream lives.
pub struct Upstream {
    pub remote: String,
    pub url: String,
    pub branch: String,
}

/// The downstream policy document.
pub struct Policy {
    pub schema_version: u64,
    pub upstream: Upstream,
    pub allowed_paths: Vec<String>,
}

/// The field that a checked atom came from.
#[derive(Clone, Copy, Debug, PartialEq, Eq, Structural)]
pub enum AtomLabel {
    UpstreamRemote,
    UpstreamBranch,
    UpstreamRef,
}

/// Why a downstream policy or boundary was refused.
#[derive(Debug)]
pub enum DownstreamError {
    UnsupportedVersion(u64),
    EmptyAtom(AtomLabel),
    UnsupportedCharacters(AtomLabel),
    InvalidUrl,
    NoAllowedPaths,
    InvalidRule(String),
    RemoteMismatch { remote: String, actual: String, expected: String },
    NonUtf8Path,
    ForbiddenPaths(Vec<String>),
}

/// Characters that may occur in a remote, branch or reference name.
pub open spec fn is_atom_char(c: char) -> bool {
    is_ascii_alnum(c) || c == '-' || c == '.' || c == '_' || c == '/'
}

/// A remote, branch or reference name that can be handed to Git safely.
pub open spec fn is_valid_atom(s: Seq<char>) -> bool {
    &&& s.len() > 0
    &&& s[0] != '-'
    &&& forall|i: int| 0 <= i < s.len() ==> is_atom_char(#[trigger] s[i])
}

/// Some `/`-separated component of `s` is `..`.
pub open spec fn has_parent_component(s: Seq<char>) -> bool {
    exists|i: int|
        0 <= i && i + 2 <= s.len() && #[trigger] s[i] == '.' && s[i + 1] == '.' && (i == 0 || s[i
            - 1] == '/') && (i + 2 == s.len() || s[i + 2] == '/')
}

/// A path rule that stays inside the repository.
pub open spec fn is_valid_rule(s: Seq<char>) -> bool {
    &&& s.len() > 0
    &&& s[0] != '/'
    &&& s[0] != '-'
    &&& !s.contains('\\')
    &&& !has_parent_component(s)
}

/// A directory rule (ending in `/`) owns the paths below it; any other rule
/// owns exactly the path it names.
pub open spec fn rule_allows(rule: Seq<char>, path: Seq<char>) -> bool {
    if rule.len() > 0 && rule.last() == '/' {
        is_prefix(rule, path)
    } else {
        path == rule
    }
}

/// `s` without trailing separators and trailing `.` components.
pub open spec fn strip_tail(s: Seq<char>) -> Seq<char>
    decreases s.len(),
{
    if s.len() == 0 {
        s
    } else if s.last() == '/' || (s.last() == '.' && (s.len() == 1 || s[s.len() - 2] == '/')) {
        strip_tail(s.drop_last())
    } else {
        s
    }
}

/// The index where the last component of `s` begins.
pub open spec fn component_start(s: Seq<char>) -> int
    decreases s.len(),
{
    if s.len() == 0 {
        0
    } else if s.last() == '/' {
        s.len() as int
    } else {
        component_start(s.drop_last())
    }
}

/// The final component of a path, as `Path::file_name` gives it.
pub open spec fn file_name(s: Seq<char>) -> Option<Seq<char>> {
    let t = strip_tail(s);
    if t.len() == 0 {
        None
    } else {
        let name = t.subrange(component_start(t), t.len() as int);
        if name == seq!['.', '.'] {
            None
        } else {
            Some(name)
        }
    }
}

/// The index of the last `.` in `s`, if any.
pub open spec fn last_dot(s: Seq<char>) -> Option<int>
    decreases s.len(),
{
    if s.len() == 0 {
        None
    } else if s.last() == '.' {
        Some(s.len() - 1)
    } else {
        last_dot(s.drop_last())
    }
}

/// The extension of a file name, as `Path::extension` gives it: the text
/// after the last dot, unless that dot starts the name.
pub open spec fn extension_of(name: Seq<char>) -> Option<Seq<char>> {
    match last_dot(name) {
        Some(k) => if k == 0 {
            None
        } else {
            Some(name.subrange(k + 1, name.len() as int))
        },
        None => None,
    }
}

/// `e` equals `git` ignoring ASCII case.
pub open spec fn is_git_extension(e: Seq<char>) -> bool {
    &&& e.len() == 3
    &&& (e[0] == 'g' || e[0] == 'G')
    &&& (e[1] == 'i' || e[1] == 'I')
    &&& (e[2] == 't' || e[2] == 'T')
}

/// An explicit HTTPS GitHub URL whose last component ends in `.git`.
pub open spec fn is_valid_upstream_url(url: Seq<char>) -> bool {
    &&& is_prefix("https://github.com/"@, url)
    &&& match file_name(url) {
        Some(name) => match extension_of(name) {
            Some(e) => is_git_extension(e),
            None => false,
        },
        None => false,
    }
}

/// Every rule of the list is valid.
pub open spec fn all_rules_valid(rules: Seq<String>) -> bool {
    forall|i: int| 0 <= i < rules.len() ==> is_valid_rule(#[trigger] rules[i]@)
}

/// The index of the first invalid rule.
pub open spec fn first_invalid_rule(rules: Seq<String>, k: int) -> bool {
    &&& 0 <= k < rules.len()
    &&& !is_valid_rule(rules[k]@)
    &&& forall|i: int| 0 <= i < k ==> is_valid_rule(#[trigger] rules[i]@)
}

/// The policy passes every check.
pub open spec fn is_valid_policy(p: Policy) -> bool {
    &&& p.schema_version == POLICY_VERSION
    &&& is_valid_atom(p.upstream.remote@)
    &&& is_valid_atom(p.upstream.branch@)
    &&& is_valid_upstream_url(p.upstream.url@)
    &&& p.allowed_paths@.len() > 0
    &&& all_rules_valid(p.allowed_paths@)
}

/// What `validate_atom` answers for `value` under `label`.
pub open spec fn atom_verdict(label: AtomLabel, value: Seq<char>, r: Result<(), DownstreamError>) -> bool {
    &&& value.len() == 0 ==> (r matches Err(DownstreamError::EmptyAtom(l)) && l == label)
    &&& value.len() > 0 && !is_valid_atom(value) ==> (r matches Err(
        DownstreamError::UnsupportedCharacters(l),
    ) && l == label)
    &&& is_valid_atom(value) ==> r is Ok
}

/// Checks that a remote, branch or reference name is non-empty, does not
/// start with `-` and uses only ASCII letters, digits and `-._/`.
pub fn validate_atom(label: AtomLabel, value: &str) -> (r: Result<(), DownstreamError>)
    ensures
        atom_verdict(label, value@, r),
{
    let n = value.unicode_len();
    if n == 0 {
        return Err(DownstreamError::EmptyAtom(label));
    }
    if value.get_char(0) == '-' {
        return Err(DownstreamError::UnsupportedCharacters(label));
    }
    let mut i: usize = 0;
    while i < n
        invariant
            n == value@.len(),
            i <= n,
            forall|j: int| 0 <= j < i ==> is_atom_char(#[trigger] value@[j]),
        decreases n - i,
    {
        let c = value.get_char(i);
        let ok = ('a' <= c && c <= 'z') || ('A' <= c && c <= 'Z') || ('0' <= c && c <= '9') || c
            == '-' || c == '.' || c == '_' || c == '/';
        if !ok {
            return Err(DownstreamError::UnsupportedCharacters(label));
        }
        i = i + 1;
    }
    Ok(())
}

/// Checks an upstream reference name.
pub fn validate_ref(value: &str) -> (r: Result<(), DownstreamError>)
    ensures
        atom_verdict(AtomLabel::UpstreamRef, value@, r),
{
    validate_atom(AtomLabel::UpstreamRef, value)
}

/// Some component of `rule` is `..`.
fn parent_component(rule: &str) -> (r: bool)
    ensures
        r == has_parent_component(rule@),
{
    let n = rule.unicode_len();
    let mut i: usize = 0;
    while n >= 2 && i <= n - 2
        invariant
            n == rule@.len(),
            forall|j: int|
                0 <= j < i && j + 2 <= rule@.len() ==> !(#[trigger] rule@[j] == '.' && rule@[j + 1]
                    == '.' && (j == 0 || rule@[j - 1] == '/') && (j + 2 == rule@.len() || rule@[j
                    + 2] == '/')),
        decreases n - i,
    {
        if rule.get_char(i) == '.' && rule.get_char(i + 1) == '.' && (i == 0 || rule.get_char(i - 1)
            == '/') && (i + 2 == n || rule.get_char(i + 2) == '/') {
            return true;
        }
        i = i + 1;
    }
    false
}

/// Checks that an allowed-path rule is non-empty, relative, not an option,
/// free of backslashes and free of `..` components.
pub fn validate_rule(rule: &str) -> (r: Result<(), DownstreamError>)
    ensures
        r is Ok <==> is_valid_rule(rule@),
        r matches Err(e) ==> (e matches DownstreamError::InvalidRule(s) && s@ == rule@),
{
    let n = rule.unicode_len();
    let ok = n > 0 && rule.get_char(0) != '/' && rule.get_char(0) != '-' && !contains_char(
        rule,
        '\\',
    ) && !parent_component(rule);
    if ok {
        Ok(())
    } else {
        let mut s = String::new();
        push_str(&mut s, rule);
        assert(s@ =~= rule@);
        Err(DownstreamError::InvalidRule(s))
    }
}

/// `rule` owns `path`.
pub fn allows(rule: &str, path: &str) -> (r: bool)
    ensures
        r == rule_allows(rule@, path@),
{
    let n = rule.unicode_len();
    if n > 0 && rule.get_char(n - 1) == '/' {
        starts_with(path, rule)
    } else {
        crate::text::same_text(path, rule)
    }
}

proof fn lemma_strip_tail_prefix(s: Seq<char>, e: int)
    requires
        0 <= e <= s.len(),
        strip_tail(s) == strip_tail(s.subrange(0, e)),
        e > 0,
        s[e - 1] == '/' || (s[e - 1] == '.' && (e == 1 || s[e - 2] == '/')),
    ensures
        strip_tail(s) == strip_tail(s.subrange(0, e - 1)),
{
    let t = s.subrange(0, e);
    assert(t.last() == s[e - 1]);
    if e >= 2 {
        assert(t[t.len() - 2] == s[e - 2]);
    }
    assert(t.drop_last() =~= s.subrange(0, e - 1));
}

proof fn lemma_component_start_prefix(s: Seq<char>, k: int)
    requires
        0 < k <= s.len(),
        s[k - 1] != '/',
    ensures
        component_start(s.subrange(0, k)) == component_start(s.subrange(0, k - 1)),
{
    let t = s.subrange(0, k);
    assert(t.last() == s[k - 1]);
    assert(t.drop_last() =~= s.subrange(0, k - 1));
}

proof fn lemma_last_dot_prefix(s: Seq<char>, k: int)
    requires
        0 < k <= s.len(),
        s[k - 1] != '.',
    ensures
        last_dot(s.subrange(0, k)) == last_dot(s.subrange(0, k - 1)),
{
    let t = s.subrange(0, k);
    assert(t.last() == s[k - 1]);
    assert(t.drop_last() =~= s.subrange(0, k - 1));
}

/// The length of `s` once trailing separators and `.` components are gone.
fn tail_end(url: &str) -> (e: usize)
    ensures
        e <= url@.len(),
        strip_tail(url@) == url@.subrange(0, e as int),
{
    let ghost s = url@;
    let n = url.unicode_len();
    let mut e: usize = n;
    assert(s.subrange(0, n as int) =~= s);
    while e > 0 && (url.get_char(e - 1) == '/' || (url.get_char(e - 1) == '.' && (e == 1
        || url.get_char(e - 2) == '/')))
        invariant
            n == s.len(),
            s == url@,
            e <= n,
            strip_tail(s) == strip_tail(s.subrange(0, e as int)),
        decreases e,
    {
        proof {
            lemma_strip_tail_prefix(s, e as int);
        }
        e = e - 1;
    }
    proof {
        let t = s.subrange(0, e as int);
        if e > 0 {
            assert(t.last() == s[e - 1]);
            if e >= 2 {
                assert(t[t.len() - 2] == s[e - 2]);
            }
        }
        assert(strip_tail(t) == t);
    }
    e
}

/// Where the last component of the first `e` characters begins.
fn component_begin(url: &str, e: usize) -> (k: usize)
    requires
        e <= url@.len(),
    ensures
        k <= e,
        k == component_start(url@.subrange(0, e as int)),
{
    let ghost s = url@;
    let mut k: usize = e;
    while k > 0 && url.get_char(k - 1) != '/'
        invariant
            s == url@,
            k <= e <= s.len(),
            component_start(s.subrange(0, e as int)) == component_start(s.subrange(0, k as int)),
        decreases k,
    {
        proof {
            lemma_component_start_prefix(s, k as int);
        }
        k = k - 1;
    }
    proof {
        let u = s.subrange(0, k as int);
        if k > 0 {
            assert(u.last() == s[k - 1]);
        }
        assert(component_start(u) == k);
    }
    k
}

/// The position of the last `.` among the characters `k..e`, relative to `k`.
fn dot_in(url: &str, k: usize, e: usize) -> (r: Option<usize>)
    requires
        k <= e <= url@.len(),
    ensures
        r matches Some(d) ==> last_dot(url@.subrange(k as int, e as int)) == Some(d as int) && d
            < e - k,
        r is None ==> last_dot(url@.subrange(k as int, e as int)) is None,
{
    let ghost s = url@;
    let ghost name = s.subrange(k as int, e as int);
    assert(name.subrange(0, (e - k) as int) =~= name);
    let mut d: usize = e;
    while d > k && url.get_char(d - 1) != '.'
        invariant
            s == url@,
            name == s.subrange(k as int, e as int),
            k <= d <= e <= s.len(),
            last_dot(name) == last_dot(name.subrange(0, d - k)),
        decreases d,
    {
        proof {
            assert(name[d - k - 1] == s[d - 1]);
            lemma_last_dot_prefix(name, d - k);
        }
        d = d - 1;
    }
    proof {
        let v = name.subrange(0, d - k);
        if d > k {
            assert(v.last() == s[d - 1]);
        }
    }
    if d == k {
        assert(name.subrange(0, 0).len() == 0);
        None
    } else {
        Some(d - 1 - k)
    }
}

/// The final component of a path (as `Path::file_name` gives it) and that
/// name's extension (as `Path::extension` gives it).
pub fn name_and_extension(path: &str) -> (r: (Option<String>, Option<String>))
    ensures
        match file_name(path@) {
            Some(n) => (r.0 matches Some(x) && x@ == n && match extension_of(n) {
                Some(e) => (r.1 matches Some(y) && y@ == e),
                None => r.1 is None,
            }),
            None => r.0 is None && r.1 is None,
        },
{
    let ghost s = path@;
    let e = tail_end(path);
    if e == 0 {
        return (None, None);
    }
    let ghost t = s.subrange(0, e as int);
    let k = component_begin(path, e);
    let ghost name = t.subrange(k as int, e as int);
    assert(name =~= s.subrange(k as int, e as int));
    if e - k == 2 && path.get_char(k) == '.' && path.get_char(k + 1) == '.' {
        assert(name =~= seq!['.', '.']);
        return (None, None);
    }
    assert(name != seq!['.', '.']) by {
        if name == seq!['.', '.'] {
            assert(name[0] == s[k as int]);
            assert(name[1] == s[k + 1]);
        }
    }
    assert(file_name(s) == Some(name));
    let n = crate::text::string_of(path.substring_char(k, e));
    match dot_in(path, k, e) {
        None => (Some(n), None),
        Some(dot) => {
            if dot == 0 {
                return (Some(n), None);
            }
            let ghost ext = name.subrange(dot + 1, name.len() as int);
            assert(extension_of(name) == Some(ext));
            let x = crate::text::string_of(path.substring_char(k + dot + 1, e));
            assert(x@ =~= ext);
            (Some(n), Some(x))
        },
    }
}

/// Checks the upstream URL: HTTPS on GitHub, last component ending in `.git`.
pub fn valid_upstream_url(url: &str) -> (r: bool)
    ensures
        r == is_valid_upstream_url(url@),
{
    if !starts_with(url, "https://github.com/") {
        return false;
    }
    let ghost s = url@;
    let e = tail_end(url);
    if e == 0 {
        return false;
    }
    let ghost t = s.subrange(0, e as int);
    let k = component_begin(url, e);
    let ghost name = t.subrange(k as int, e as int);
    assert(name =~= s.subrange(k as int, e as int));
    if e - k == 2 && url.get_char(k) == '.' && url.get_char(k + 1) == '.' {
        assert(name =~= seq!['.', '.']);
        return false;
    }
    assert(name != seq!['.', '.']) by {
        if name == seq!['.', '.'] {
            assert(name[0] == s[k as int]);
            assert(name[1] == s[k + 1]);
        }
    }
    assert(file_name(s) == Some(name));
    match dot_in(url, k, e) {
        None => false,
        Some(dot) => {
            if dot == 0 {
                return false;
            }
            let ghost ext = name.subrange(dot + 1, name.len() as int);
            assert(extension_of(name) == Some(ext));
            if e - k - dot - 1 != 3 {
                return false;
            }
            let b = k + dot + 1;
            assert(ext[0] == s[b as int] && ext[1] == s[b + 1] && ext[2] == s[b + 2]);
            let c0 = url.get_char(b);
            let c1 = url.get_char(b + 1);
            let c2 = url.get_char(b + 2);
            (c0 == 'g' || c0 == 'G') && (c1 == 'i' || c1 == 'I') && (c2 == 't' || c2 == 'T')
        },
    }
}

/// Checks a downstream policy: the supported version, a safe remote and
/// branch, an explicit HTTPS GitHub URL ending in `.git`, and at least one
/// allowed path rule, each of them valid.
pub fn validate_policy(policy: &Policy) -> (r: Result<(), DownstreamError>)
    ensures
        r is Ok <==> is_valid_policy(*policy),
        policy.schema_version != POLICY_VERSION ==> (r matches Err(
            DownstreamError::UnsupportedVersion(v),
        ) && v == policy.schema_version),
        policy.schema_version == POLICY_VERSION && !is_valid_atom(policy.upstream.remote@)
            ==> atom_verdict(AtomLabel::UpstreamRemote, policy.upstream.remote@, r),
        policy.schema_version == POLICY_VERSION && is_valid_atom(policy.upstream.remote@)
            && !is_valid_atom(policy.upstream.branch@) ==> atom_verdict(
            AtomLabel::UpstreamBranch,
            policy.upstream.branch@,
            r,
        ),
        policy.schema_version == POLICY_VERSION && is_valid_atom(policy.upstream.remote@)
            && is_valid_atom(policy.upstream.branch@) && !is_valid_upstream_url(
            policy.upstream.url@,
        ) ==> r matches Err(DownstreamError::InvalidUrl),
        policy.schema_version == POLICY_VERSION && is_valid_atom(policy.upstream.remote@)
            && is_valid_atom(policy.upstream.branch@) && is_valid_upstream_url(policy.upstream.url@)
            && policy.allowed_paths@.len() == 0 ==> r matches Err(DownstreamError::NoAllowedPaths),
        forall|k: int|
            policy.schema_version == POLICY_VERSION && is_valid_atom(policy.upstream.remote@)
                && is_valid_atom(policy.upstream.branch@) && is_valid_upstream_url(
                policy.upstream.url@,
            ) && #[trigger] first_invalid_rule(policy.allowed_paths@, k) ==> (r matches Err(
                DownstreamError::InvalidRule(s),
            ) && s@ == policy.allowed_paths@[k]@),
{
    if policy.schema_version != POLICY_VERSION {
        return Err(DownstreamError::UnsupportedVersion(policy.schema_version));
    }
    validate_atom(AtomLabel::UpstreamRemote, policy.upstream.remote.as_str())?;
    validate_atom(AtomLabel::UpstreamBranch, policy.upstream.branch.as_str())?;
    if !valid_upstream_url(policy.upstream.url.as_str()) {
        return Err(DownstreamError::InvalidUrl);
    }
    if policy.allowed_paths.len() == 0 {
        return Err(DownstreamError::NoAllowedPaths);
    }
    let mut i: usize = 0;
    while i < policy.allowed_paths.len()
        invariant
            i <= policy.allowed_paths@.len(),
            policy.allowed_paths@.len() > 0,
            policy.schema_version == POLICY_VERSION,
            is_valid_atom(policy.upstream.remote@),
            is_valid_atom(policy.upstream.branch@),
            is_valid_upstream_url(policy.upstream.url@),
            forall|j: int| 0 <= j < i ==> is_valid_rule(#[trigger] policy.allowed_paths@[j]@),
        decreases policy.allowed_paths@.len() - i,
    {
        let checked = validate_rule(policy.allowed_paths[i].as_str());
        if checked.is_err() {
            assert(first_invalid_rule(policy.allowed_paths@, i as int));
            assert forall|k: int| #[trigger]
                first_invalid_rule(policy.allowed_paths@, k) implies k == i by {
                if k < i {
                    assert(is_valid_rule(policy.allowed_paths@[k]@));
                } else if k > i {
                    assert(is_valid_rule(policy.allowed_paths@[i as int]@));
                }
            }
            return checked;
        }
        i = i + 1;
    }
    Ok(())
}

/// The reference of the upstream branch that the policy names:
/// `refs/remotes/<remote>/<branch>`.
pub open spec fn default_ref(p: Policy) -> Seq<char> {
    "refs/remotes/"@ + p.upstream.remote@ + "/"@ + p.upstream.branch@
}

/// The reference that the boundary is measured against: the explicit one
/// when given, else the policy's upstream branch.
pub fn upstream_reference(policy: &Policy, explicit: Option<&str>) -> (r: String)
    ensures
        explicit matches Some(e) ==> r@ == e@,
        explicit is None ==> r@ == default_ref(*policy),
{
    match explicit {
        Some(e) => crate::text::string_of(e),
        None => {
            let mut r = crate::text::string_of("refs/remotes/");
            push_str(&mut r, policy.upstream.remote.as_str());
            push_str(&mut r, "/");
            push_str(&mut r, policy.upstream.branch.as_str());
            r
        },
    }
}

/// The revision expression that names the commit of a reference.
pub fn commit_of(reference: &str) -> (r: String)
    ensures
        r@ == reference@ + "^{commit}"@,
{
    let mut r = crate::text::string_of(reference);
    push_str(&mut r, "^{commit}");
    r
}

/// Checks that the remote points to the URL that the policy declares.
pub fn check_remote(policy: &Policy, actual: &str) -> (r: Result<(), DownstreamError>)
    ensures
        r is Ok <==> actual@ == policy.upstream.url@,
        r matches Err(e) ==> (e matches DownstreamError::RemoteMismatch { remote, actual: a, expected }
            && remote@ == policy.upstream.remote@ && a@ == actual@ && expected@
            == policy.upstream.url@),
{
    if same_text(actual, policy.upstream.url.as_str()) {
        Ok(())
    } else {
        Err(
            DownstreamError::RemoteMismatch {
                remote: crate::text::string_of(policy.upstream.remote.as_str()),
                actual: crate::text::string_of(actual),
                expected: crate::text::string_of(policy.upstream.url.as_str()),
            },
        )
    }
}

/// The fields of `b` separated by NUL bytes, as `split(|b| *b == 0)` yields
/// them (an empty input gives one empty field).
pub open spec fn nul_fields(b: Seq<u8>) -> Seq<Seq<u8>>
    decreases b.len(),
{
    if b.len() == 0 {
        seq![Seq::<u8>::empty()]
    } else {
        let f = nul_fields(b.drop_last());
        if b.last() == 0 {
            f.push(Seq::<u8>::empty())
        } else {
            f.update(f.len() - 1, f.last().push(b.last()))
        }
    }
}

/// The non-empty fields, decoded as UTF-8.
pub open spec fn decoded_fields(fields: Seq<Seq<u8>>) -> Seq<Seq<char>>
    decreases fields.len(),
{
    if fields.len() == 0 {
        Seq::empty()
    } else {
        let rest = decoded_fields(fields.drop_last());
        if fields.last().len() == 0 {
            rest
        } else {
            rest.push(decode_utf8(fields.last()))
        }
    }
}

/// Every non-empty field is valid UTF-8.
pub open spec fn fields_valid(fields: Seq<Seq<u8>>) -> bool {
    forall|i: int|
        0 <= i < fields.len() && (#[trigger] fields[i]).len() > 0 ==> valid_utf8(fields[i])
}

/// Decodes UTF-8 bytes into a string (`String::from_utf8`), `None` when the
/// bytes are not valid UTF-8.
#[verifier::external_body]
pub(crate) fn utf8_string(bytes: Vec<u8>) -> (r: Option<String>)
    ensures
        r is Some <==> valid_utf8(bytes@),
        r matches Some(s) ==> s@ == decode_utf8(bytes@),
{
    String::from_utf8(bytes).ok()
}

proof fn lemma_nul_fields_nonempty(b: Seq<u8>)
    ensures
        nul_fields(b).len() >= 1,
    decreases b.len(),
{
    if b.len() > 0 {
        lemma_nul_fields_nonempty(b.drop_last());
    }
}

proof fn lemma_decoded_push(fields: Seq<Seq<u8>>, x: Seq<u8>)
    ensures
        decoded_fields(fields.push(x)) == if x.len() == 0 {
            decoded_fields(fields)
        } else {
            decoded_fields(fields).push(decode_utf8(x))
        },
{
    assert(fields.push(x).drop_last() =~= fields);
}

/// The paths in NUL-separated Git output, with empty fields skipped.
pub fn changed_paths(output: &[u8]) -> (r: Result<Vec<String>, DownstreamError>)
    ensures
        r is Ok <==> fields_valid(nul_fields(output@)),
        r matches Ok(paths) ==> paths@.map_values(|p: String| p@) == decoded_fields(
            nul_fields(output@),
        ),
        r matches Err(e) ==> e is NonUtf8Path,
{
    let n = output.len();
    let mut paths: Vec<String> = Vec::new();
    let mut current: Vec<u8> = Vec::new();
    let mut i: usize = 0;
    proof {
        assert(output@.subrange(0, 0) =~= Seq::<u8>::empty());
    }
    while i < n
        invariant
            n == output@.len(),
            i <= n,
            nul_fields(output@.subrange(0, i as int)).len() >= 1,
            current@ == nul_fields(output@.subrange(0, i as int)).last(),
            fields_valid(nul_fields(output@.subrange(0, i as int)).drop_last()),
            paths@.map_values(|p: String| p@) == decoded_fields(
                nul_fields(output@.subrange(0, i as int)).drop_last(),
            ),
        decreases n - i,
    {
        let ghost before = nul_fields(output@.subrange(0, i as int));
        let b = output[i];
        proof {
            let p = output@.subrange(0, i + 1);
            assert(p.drop_last() =~= output@.subrange(0, i as int));
            assert(p.last() == b);
            lemma_nul_fields_nonempty(output@.subrange(0, i as int));
        }
        if b == 0 {
            if current.len() > 0 {
                let field = current;
                let ghost fv = field@;
                match utf8_string(field) {
                    Some(path) => {
                        paths.push(path);
                    },
                    None => {
                        proof {
                            let k = before.len() - 1;
                            assert(!valid_utf8(before[k]));
                            let fs = nul_fields(output@);
                            lemma_fields_extend(output@, i as int + 1);
                            assert(fs[k] == before[k]);
                        }
                        return Err(DownstreamError::NonUtf8Path);
                    },
                }
                proof {
                    lemma_decoded_push(before.drop_last(), fv);
                    assert(before.drop_last().push(fv) =~= before);
                    let after = nul_fields(output@.subrange(0, i + 1));
                    assert(after == before.push(Seq::<u8>::empty()));
                    assert(after.drop_last() =~= before);
                    assert(paths@.map_values(|p: String| p@) =~= decoded_fields(before.drop_last()).push(decode_utf8(fv)));
                }
            } else {
                proof {
                    lemma_decoded_push(before.drop_last(), current@);
                    assert(before.drop_last().push(current@) =~= before);
                    let after = nul_fields(output@.subrange(0, i + 1));
                    assert(after.drop_last() =~= before);
                }
            }
            current = Vec::new();
            proof {
                let after = nul_fields(output@.subrange(0, i + 1));
                assert(current@ =~= after.last());
            }
        } else {
            current.push(b);
            proof {
                let after = nul_fields(output@.subrange(0, i + 1));
                assert(after.drop_last() =~= before.drop_last());
                assert(current@ == after.last());
            }
        }
        i = i + 1;
    }
    assert(output@.subrange(0, n as int) =~= output@);
    let ghost fs = nul_fields(output@);
    if current.len() > 0 {
        let ghost fv = current@;
        match utf8_string(current) {
            Some(path) => {
                paths.push(path);
                proof {
                    lemma_decoded_push(fs.drop_last(), fv);
                    assert(fs.drop_last().push(fv) =~= fs);
                    assert(paths@.map_values(|p: String| p@) =~= decoded_fields(fs.drop_last()).push(decode_utf8(fv)));
                    assert forall|j: int| 0 <= j < fs.len() && (#[trigger] fs[j]).len() > 0 implies valid_utf8(fs[j]) by {
                        if j < fs.len() - 1 {
                            assert(fs.drop_last()[j] == fs[j]);
                        }
                    }
                }
            },
            None => {
                return Err(DownstreamError::NonUtf8Path);
            },
        }
    } else {
        proof {
            lemma_decoded_push(fs.drop_last(), current@);
            assert(fs.drop_last().push(current@) =~= fs);
            assert forall|j: int| 0 <= j < fs.len() && (#[trigger] fs[j]).len() > 0 implies valid_utf8(fs[j]) by {
                if j < fs.len() - 1 {
                    assert(fs.drop_last()[j] == fs[j]);
                }
            }
        }
    }
    Ok(paths)
}

proof fn lemma_fields_extend(b: Seq<u8>, i: int)
    requires
        0 <= i <= b.len(),
    ensures
        nul_fields(b.subrange(0, i)).len() >= 1,
        nul_fields(b).len() >= nul_fields(b.subrange(0, i)).len(),
        forall|k: int|
            0 <= k < nul_fields(b.subrange(0, i)).len() - 1 ==> #[trigger] nul_fields(b)[k]
                == nul_fields(b.subrange(0, i))[k],
    decreases b.len() - i,
{
    lemma_nul_fields_nonempty(b.subrange(0, i));
    if i < b.len() {
        lemma_fields_extend(b, i + 1);
        let p = b.subrange(0, i + 1);
        assert(p.drop_last() =~= b.subrange(0, i));
    } else {
        assert(b.subrange(0, i) =~= b);
    }
}

/// Some rule of the list owns `path`.
pub open spec fn some_rule_allows(rules: Seq<String>, path: Seq<char>) -> bool {
    exists|i: int| 0 <= i < rules.len() && rule_allows(#[trigger] rules[i]@, path)
}

/// The changed paths that no rule owns, in their original order.
pub open spec fn forbidden(rules: Seq<String>, changed: Seq<Seq<char>>) -> Seq<Seq<char>>
    decreases changed.len(),
{
    if changed.len() == 0 {
        Seq::empty()
    } else {
        let rest = forbidden(rules, changed.drop_last());
        if some_rule_allows(rules, changed.last()) {
            rest
        } else {
            rest.push(changed.last())
        }
    }
}

/// Some rule of the list owns `path`.
pub fn any_allows(rules: &Vec<String>, path: &str) -> (r: bool)
    ensures
        r == some_rule_allows(rules@, path@),
{
    let mut i: usize = 0;
    while i < rules.len()
        invariant
            i <= rules@.len(),
            forall|j: int| 0 <= j < i ==> !rule_allows(#[trigger] rules@[j]@, path@),
        decreases rules@.len() - i,
    {
        if allows(rules[i].as_str(), path) {
            return true;
        }
        i = i + 1;
    }
    false
}

/// The changed paths that the policy does not own, in order.
pub fn forbidden_paths(rules: &Vec<String>, changed: &Vec<String>) -> (r: Vec<String>)
    ensures
        r@.map_values(|p: String| p@) == forbidden(rules@, changed@.map_values(|p: String| p@)),
{
    let ghost cv = changed@.map_values(|p: String| p@);
    let mut r: Vec<String> = Vec::new();
    let mut i: usize = 0;
    while i < changed.len()
        invariant
            i <= changed@.len(),
            cv == changed@.map_values(|p: String| p@),
            r@.map_values(|p: String| p@) == forbidden(rules@, cv.subrange(0, i as int)),
        decreases changed@.len() - i,
    {
        proof {
            let p = cv.subrange(0, i + 1);
            assert(p.drop_last() =~= cv.subrange(0, i as int));
            assert(p.last() == changed@[i as int]@);
        }
        if !any_allows(rules, changed[i].as_str()) {
            let kept = crate::text::string_of(changed[i].as_str());
            r.push(kept);
            proof {
                assert(r@.map_values(|p: String| p@) =~= forbidden(rules@, cv.subrange(0, i as int)).push(changed@[i as int]@));
            }
        }
        i = i + 1;
    }
    assert(cv.subrange(0, changed@.len() as int) =~= cv);
    r
}

/// Checks that every changed path is owned by the policy; on success gives
/// the number of changed paths.
pub fn check_boundary(policy: &Policy, changed: &Vec<String>) -> (r: Result<usize, DownstreamError>)
    ensures
        r matches Ok(n) ==> n == changed@.len(),
        r is Ok <==> forbidden(policy.allowed_paths@, changed@.map_values(|p: String| p@)).len()
            == 0,
        r matches Err(e) ==> (e matches DownstreamError::ForbiddenPaths(f) && f@.map_values(
            |p: String| p@,
        ) == forbidden(policy.allowed_paths@, changed@.map_values(|p: String| p@))),
{
    let f = forbidden_paths(&policy.allowed_paths, changed);
    if f.len() == 0 {
        Ok(changed.len())
    } else {
        Err(DownstreamError::ForbiddenPaths(f))
    }
}

/// A directory rule `dir/` owns exactly the paths strictly below `dir`: never
/// `dir` itself and never a sibling that merely shares the prefix `dir`.
pub proof fn directory_rule_owns_descendants_only(dir: Seq<char>, path: Seq<char>)
    ensures
        rule_allows(dir.push('/'), path) <==> (path.len() > dir.len() && path.subrange(
            0,
            dir.len() as int,
        ) == dir && path[dir.len() as int] == '/'),
        !rule_allows(dir.push('/'), dir),
{
    let rule = dir.push('/');
    assert(rule.last() == '/');
    assert(rule.drop_last() =~= dir);
    if path.len() > dir.len() && path.subrange(0, dir.len() as int) == dir && path[dir.len() as int]
        == '/' {
        assert(path.subrange(0, rule.len() as int) =~= rule);
    }
    if rule_allows(rule, path) {
        let q = path.subrange(0, rule.len() as int);
        assert(q == rule);
        assert(q[dir.len() as int] == rule[dir.len() as int]);
        assert(q[dir.len() as int] == path[dir.len() as int]);
        assert(path.subrange(0, rule.len() as int)[dir.len() as int] == '/');
        assert(path.subrange(0, dir.len() as int) =~= path.subrange(0, rule.len() as int).drop_last());
    }
}

/// A rule that does not end in `/` owns exactly the one path it names.
pub proof fn file_rule_is_exact(rule: Seq<char>, path: Seq<char>)
    requires
        rule.len() == 0 || rule.last() != '/',
    ensures
        rule_allows(rule, path) <==> path == rule,
{
}

/// An accepted rule is relative, is not an option and never climbs out of the
/// repository through a `..` component.
pub proof fn accepted_rule_stays_inside(rule: Seq<char>)
    requires
        is_valid_rule(rule),
    ensures
        rule.len() > 0 && rule[0] != '/' && rule[0] != '-',
        !has_parent_component(rule),
        forall|i: int| 0 <= i < rule.len() ==> rule[i] != '\\',
{
    assert forall|i: int| 0 <= i < rule.len() implies rule[i] != '\\' by {
        if rule[i] == '\\' {
            assert(rule.contains('\\'));
        }
    }
}

/// The boundary holds exactly when every changed path is owned by some rule,
/// and every reported path is an unowned changed path.
pub proof fn boundary_holds_iff_every_change_is_owned(rules: Seq<String>, changed: Seq<Seq<char>>)
    ensures
        forbidden(rules, changed).len() == 0 <==> forall|i: int|
            0 <= i < changed.len() ==> some_rule_allows(rules, #[trigger] changed[i]),
        forall|j: int|
            0 <= j < forbidden(rules, changed).len() ==> !some_rule_allows(
                rules,
                #[trigger] forbidden(rules, changed)[j],
            ) && changed.contains(forbidden(rules, changed)[j]),
    decreases changed.len(),
{
    if changed.len() > 0 {
        let init = changed.drop_last();
        boundary_holds_iff_every_change_is_owned(rules, init);
        let f = forbidden(rules, changed);
        let g = forbidden(rules, init);
        assert forall|j: int| 0 <= j < f.len() implies !some_rule_allows(rules, #[trigger] f[j])
            && changed.contains(f[j]) by {
            if j < g.len() {
                assert(f[j] == g[j]);
                let k = choose|k: int| 0 <= k < init.len() && init[k] == g[j];
                assert(changed[k] == init[k]);
            } else {
                assert(f[j] == changed.last());
                assert(changed[changed.len() - 1] == changed.last());
            }
        }
        if f.len() == 0 {
            assert forall|i: int| 0 <= i < changed.len() implies some_rule_allows(
                rules,
                #[trigger] changed[i],
            ) by {
                if i < init.len() {
                    assert(init[i] == changed[i]);
                }
            }
        }
        if forall|i: int| 0 <= i < changed.len() ==> some_rule_allows(rules, #[trigger] changed[i]) {
            assert forall|i: int| 0 <= i < init.len() implies some_rule_allows(
                rules,
                #[trigger] init[i],
            ) by {
                assert(init[i] == changed[i]);
            }
            assert(some_rule_allows(rules, changed[changed.len() - 1]));
        }
    }
}

} // verus!
