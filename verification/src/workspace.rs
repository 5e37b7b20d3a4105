//! The workspace root and the paths below it.
//!
//! Paths are modelled as `/`-separated text. The workspace root is the
//! canonical directory that holds `ccvl.json`; what the file system answers
//! (the canonical form of a path, whether a file exists) is handed to these
//! functions as an argument, so that every rule about containment is checked
//! here for every possible answer.
use vstd::prelude::*;

use crate::text::{is_prefix, push_char, push_str, string_of};

verus! {

/// A ccvl workspace, identified by its canonical root directory.
#[derive(Debug)]
pub struct Workspace {
    root: String,
}

impl Workspace {
    /// A canonical root is an absolute path.
    #[verifier::type_invariant]
    spec fn root_named(self) -> bool {
        is_absolute(self.root@)
    }
}

/// An absolute path: it begins at the file system's root `/`.
pub open spec fn is_absolute(p: Seq<char>) -> bool {
    p.len() > 0 && p[0] == '/'
}

/// Why a path was refused.
#[derive(Debug)]
pub enum WorkspaceError {
    /// The path could not be resolved on disk.
    CannotResolve(String),
    /// The directory holds no `ccvl.json`.
    NotWorkspace(String),
    /// A resolved input lies outside the workspace.
    Outside(String),
    /// A path is not below the workspace root.
    NotRelative(String),
    /// No directory on the search path holds `ccvl.json`.
    NoWorkspace,
}

/// `base` joined with `rel`, as `Path::join` does: an absolute `rel`
/// replaces `base`, otherwise a separator is inserted when needed.
pub open spec fn join(base: Seq<char>, rel: Seq<char>) -> Seq<char> {
    if rel.len() > 0 && rel[0] == '/' {
        rel
    } else if base.len() == 0 || base.last() == '/' {
        base + rel
    } else {
        base + seq!['/'] + rel
    }
}

/// `root` with exactly one trailing separator.
pub open spec fn with_separator(root: Seq<char>) -> Seq<char> {
    if root.len() > 0 && root.last() == '/' {
        root
    } else {
        root.push('/')
    }
}

/// `path` is `root` or lies below it.
pub open spec fn is_within(path: Seq<char>, root: Seq<char>) -> bool {
    path == root || is_prefix(with_separator(root), path)
}

/// `path` relative to `root`, when it lies within it.
pub open spec fn relative_to(path: Seq<char>, root: Seq<char>) -> Option<Seq<char>> {
    if path == root {
        Some(Seq::empty())
    } else if is_prefix(with_separator(root), path) {
        Some(path.subrange(with_separator(root).len() as int, path.len() as int))
    } else {
        None
    }
}

/// `s` with every backslash turned into a forward slash.
pub open spec fn forward_slashes(s: Seq<char>) -> Seq<char> {
    Seq::new(s.len(), |i: int| if s[i] == '\\' { '/' } else { s[i] })
}

/// The parent of a path, as `Path::parent` gives it for paths without
/// repeated separators or `.` components.
pub open spec fn parent_of(s: Seq<char>) -> Option<Seq<char>> {
    let t = strip_slashes(s);
    if t.len() == 0 {
        None
    } else {
        let k = last_slash(t);
        if k < 0 {
            Some(Seq::empty())
        } else if k == 0 {
            Some(seq!['/'])
        } else {
            Some(strip_slashes(t.subrange(0, k)))
        }
    }
}

/// `s` without trailing separators, unless it is the root `/` itself.
pub open spec fn strip_slashes(s: Seq<char>) -> Seq<char>
    decreases s.len(),
{
    if s.len() > 1 && s.last() == '/' {
        strip_slashes(s.drop_last())
    } else if s == seq!['/'] {
        Seq::empty()
    } else {
        s
    }
}

/// The index of the last separator of `s`, or -1.
pub open spec fn last_slash(s: Seq<char>) -> int
    decreases s.len(),
{
    if s.len() == 0 {
        -1
    } else if s.last() == '/' {
        s.len() - 1
    } else {
        last_slash(s.drop_last())
    }
}

/// The ancestors of a path, nearest first, as `Path::ancestors` yields them.
pub open spec fn ancestors_of(s: Seq<char>, fuel: nat) -> Seq<Seq<char>>
    decreases fuel,
{
    if fuel == 0 {
        seq![s]
    } else {
        match parent_of(s) {
            Some(p) => seq![s] + ancestors_of(p, (fuel - 1) as nat),
            None => seq![s],
        }
    }
}

/// `rel` joined to `base`, as `Path::join` joins them.
pub fn join_paths(base: &str, rel: &str) -> (r: String)
    ensures
        r@ == join(base@, rel@),
{
    let n = rel.unicode_len();
    if n > 0 && rel.get_char(0) == '/' {
        return string_of(rel);
    }
    let m = base.unicode_len();
    let mut r = string_of(base);
    if !(m == 0 || base.get_char(m - 1) == '/') {
        push_char(&mut r, '/');
    }
    push_str(&mut r, rel);
    proof {
        if !(m == 0 || base@.last() == '/') {
            assert(r@ =~= base@ + seq!['/'] + rel@);
        }
    }
    r
}

impl Workspace {
    /// The canonical root directory (always absolute; a value that breaks
    /// the type invariant is never made, and would be seen as `/`).
    pub closed spec fn root_view(&self) -> Seq<char> {
        if is_absolute(self.root@) {
            self.root@
        } else {
            "/"@
        }
    }

    /// Opens the workspace whose root resolved to `resolved` (`None` when the
    /// given root could not be resolved; a canonical path is absolute, so one
    /// that is not counts as unresolved); `has_manifest` tells whether the
    /// resolved directory holds `ccvl.json`.
    pub fn at(root: &str, resolved: Option<String>, has_manifest: bool) -> (r: Result<
        Workspace,
        WorkspaceError,
    >)
        ensures
            r is Ok <==> (resolved matches Some(p) && is_absolute(p@) && has_manifest),
            r matches Ok(w) ==> resolved matches Some(p) && w.root_view() == p@,
            (resolved matches Some(p) ==> !is_absolute(p@)) ==> (r matches Err(
                WorkspaceError::CannotResolve(s),
            ) && s@ == root@),
            resolved matches Some(p) ==> (is_absolute(p@) && !has_manifest ==> (r matches Err(
                WorkspaceError::NotWorkspace(s),
            ) && s@ == p@)),
    {
        proof {
            reveal_strlit("/");
        }
        match resolved {
            None => Err(WorkspaceError::CannotResolve(string_of(root))),
            Some(p) => {
                let absolute = crate::text::starts_with(p.as_str(), "/");
                proof {
                    if p@.len() > 0 {
                        assert(p@.subrange(0, 1)[0] == p@[0]);
                        if p@[0] == '/' {
                            assert(p@.subrange(0, 1) =~= "/"@);
                        }
                    }
                }
                assert(absolute == is_absolute(p@));
                if !absolute {
                    Err(WorkspaceError::CannotResolve(string_of(root)))
                } else if has_manifest {
                    Ok(Workspace { root: p })
                } else {
                    Err(WorkspaceError::NotWorkspace(p))
                }
            },
        }
    }

    /// The canonical root directory.
    pub fn root(&self) -> (r: &str)
        ensures
            r@ == self.root_view(),
            r@.len() > 0,
    {
        proof {
            use_type_invariant(self);
        }
        self.root.as_str()
    }

    /// `relative` joined to the workspace root.
    pub fn path(&self, relative: &str) -> (r: String)
        ensures
            r@ == join(self.root_view(), relative@),
            relative@.len() == 0 || relative@[0] != '/' ==> relative_to(r@, self.root_view()) == Some(
                relative@,
            ),
    {
        proof {
            use_type_invariant(self);
            if relative@.len() == 0 || relative@[0] != '/' {
                path_then_relative_round_trips(self.root@, relative@);
            }
        }
        join_paths(self.root.as_str(), relative)
    }

    /// `path` lies within the workspace.
    pub fn contains(&self, path: &str) -> (r: bool)
        ensures
            r == is_within(path@, self.root_view()),
    {
        proof {
            use_type_invariant(self);
        }
        let sep = separated(self.root.as_str());
        crate::text::same_text(path, self.root.as_str()) || crate::text::starts_with(
            path,
            sep.as_str(),
        )
    }

    /// The canonical form of an input path, which must exist and lie inside
    /// the workspace. `resolved` is what resolving `self.path(value)` gave
    /// (`None` when it could not be resolved).
    pub fn existing_inside(&self, value: &str, resolved: Option<String>) -> (r: Result<
        String,
        WorkspaceError,
    >)
        ensures
            resolved is None ==> (r matches Err(WorkspaceError::CannotResolve(s)) && s@ == value@),
            resolved matches Some(p) ==> (is_within(p@, self.root_view()) ==> (r matches Ok(q)
                && q@ == p@)),
            resolved matches Some(p) ==> (!is_within(p@, self.root_view()) ==> (r matches Err(
                WorkspaceError::Outside(s),
            ) && s@ == value@)),
    {
        proof {
            use_type_invariant(self);
        }
        match resolved {
            None => Err(WorkspaceError::CannotResolve(string_of(value))),
            Some(p) => {
                if self.contains(p.as_str()) {
                    Ok(p)
                } else {
                    Err(WorkspaceError::Outside(string_of(value)))
                }
            },
        }
    }

    /// `path` relative to the workspace root.
    pub fn relative(&self, path: &str) -> (r: Result<String, WorkspaceError>)
        ensures
            relative_to(path@, self.root_view()) matches Some(q) ==> (r matches Ok(s) && s@ == q),
            relative_to(path@, self.root_view()) is None ==> (r matches Err(
                WorkspaceError::NotRelative(s),
            ) && s@ == path@),
    {
        proof {
            use_type_invariant(self);
        }
        if crate::text::same_text(path, self.root.as_str()) {
            let r = String::new();
            assert(r@ =~= Seq::<char>::empty());
            return Ok(r);
        }
        let sep = separated(self.root.as_str());
        if crate::text::starts_with(path, sep.as_str()) {
            let n = path.unicode_len();
            let k = sep.as_str().unicode_len();
            Ok(string_of(path.substring_char(k, n)))
        } else {
            Err(WorkspaceError::NotRelative(string_of(path)))
        }
    }

    /// The workspace-absolute form of an input path that Typst expects:
    /// `/` followed by the path relative to the root, with forward slashes.
    pub fn typst_path(&self, path: &str, resolved: Option<String>) -> (r: Result<
        String,
        WorkspaceError,
    >)
        ensures
            resolved is None ==> (r matches Err(WorkspaceError::CannotResolve(s)) && s@ == path@),
            resolved matches Some(p) ==> (!is_within(p@, self.root_view()) ==> (r matches Err(
                WorkspaceError::Outside(s),
            ) && s@ == path@)),
            resolved matches Some(p) ==> (is_within(p@, self.root_view()) ==> (r matches Ok(t)
                && relative_to(p@, self.root_view()) matches Some(q) && t@ == seq!['/']
                + forward_slashes(q))),
    {
        proof {
            use_type_invariant(self);
        }
        let inside = self.existing_inside(path, resolved)?;
        let relative = self.relative(inside.as_str())?;
        let mut r = String::new();
        push_char(&mut r, '/');
        let n = relative.as_str().unicode_len();
        let mut i: usize = 0;
        while i < n
            invariant
                n == relative@.len(),
                i <= n,
                r@ == seq!['/'] + forward_slashes(relative@).subrange(0, i as int),
            decreases n - i,
        {
            let c = relative.as_str().get_char(i);
            if c == '\\' {
                push_char(&mut r, '/');
            } else {
                push_char(&mut r, c);
            }
            i = i + 1;
            assert(r@ =~= seq!['/'] + forward_slashes(relative@).subrange(0, i as int));
        }
        assert(forward_slashes(relative@).subrange(0, n as int) =~= forward_slashes(relative@));
        Ok(r)
    }
}

/// `root` with exactly one trailing separator.
fn separated(root: &str) -> (r: String)
    ensures
        r@ == with_separator(root@),
{
    let n = root.unicode_len();
    let mut r = string_of(root);
    if !(n > 0 && root.get_char(n - 1) == '/') {
        push_char(&mut r, '/');
    }
    r
}

/// A command-line path: absolute paths stand as given, others are taken
/// relative to the workspace root.
pub fn resolve(workspace: &Workspace, path: &str) -> (r: String)
    ensures
        r@ == join(workspace.root_view(), path@),
{
    workspace.path(path)
}

proof fn lemma_strip_step(s: Seq<char>, e: int)
    requires
        1 < e <= s.len(),
        s[e - 1] == '/',
    ensures
        strip_slashes(s.subrange(0, e)) == strip_slashes(s.subrange(0, e - 1)),
{
    let t = s.subrange(0, e);
    assert(t.last() == s[e - 1]);
    assert(t.drop_last() =~= s.subrange(0, e - 1));
}

proof fn lemma_strip_not_root(s: Seq<char>)
    ensures
        strip_slashes(s) != seq!['/'],
    decreases s.len(),
{
    if s.len() > 1 && s.last() == '/' {
        lemma_strip_not_root(s.drop_last());
    }
}

proof fn lemma_last_slash_step(s: Seq<char>, j: int)
    requires
        0 < j <= s.len(),
        s[j - 1] != '/',
    ensures
        last_slash(s.subrange(0, j)) == last_slash(s.subrange(0, j - 1)),
{
    let t = s.subrange(0, j);
    assert(t.last() == s[j - 1]);
    assert(t.drop_last() =~= s.subrange(0, j - 1));
}

/// The end of the first `e0` characters once trailing separators are gone.
fn strip_end(s: &str, e0: usize) -> (e: usize)
    requires
        e0 <= s@.len(),
    ensures
        e <= e0,
        strip_slashes(s@.subrange(0, e0 as int)) == s@.subrange(0, e as int),
{
    let mut e = e0;
    while e > 1 && s.get_char(e - 1) == '/'
        invariant
            e <= e0 <= s@.len(),
            strip_slashes(s@.subrange(0, e0 as int)) == strip_slashes(s@.subrange(0, e as int)),
        decreases e,
    {
        proof {
            lemma_strip_step(s@, e as int);
        }
        e = e - 1;
    }
    let ghost t = s@.subrange(0, e as int);
    if e == 1 && s.get_char(0) == '/' {
        assert(t =~= seq!['/']);
        assert(s@.subrange(0, 0) =~= Seq::<char>::empty());
        return 0;
    }
    proof {
        if e > 1 {
            assert(t.last() == s@[e - 1]);
        }
        if t == seq!['/'] {
            assert(t[0] == s@[0]);
        }
    }
    e
}

/// The last separator among the first `e` characters, or `None`.
fn slash_before(s: &str, e: usize) -> (k: Option<usize>)
    requires
        e <= s@.len(),
    ensures
        k matches Some(i) ==> i < e && last_slash(s@.subrange(0, e as int)) == i && s@[i as int]
            == '/',
        k is None ==> last_slash(s@.subrange(0, e as int)) == -1,
{
    let mut j = e;
    while j > 0 && s.get_char(j - 1) != '/'
        invariant
            j <= e <= s@.len(),
            last_slash(s@.subrange(0, e as int)) == last_slash(s@.subrange(0, j as int)),
        decreases j,
    {
        proof {
            lemma_last_slash_step(s@, j as int);
        }
        j = j - 1;
    }
    if j == 0 {
        assert(s@.subrange(0, 0).len() == 0);
        None
    } else {
        assert(s@.subrange(0, j as int).last() == s@[j - 1]);
        Some(j - 1)
    }
}

/// The parent directory of a path, if it has one.
pub fn parent(s: &str) -> (r: Option<String>)
    ensures
        r is Some <==> parent_of(s@) is Some,
        r matches Some(p) ==> parent_of(s@) == Some(p@) && p@.len() < s@.len(),
{
    let n = s.unicode_len();
    assert(s@.subrange(0, n as int) =~= s@);
    let e = strip_end(s, n);
    if e == 0 {
        return None;
    }
    let ghost t = s@.subrange(0, e as int);
    match slash_before(s, e) {
        None => {
            let r = String::new();
            assert(r@ =~= Seq::<char>::empty());
            Some(r)
        },
        Some(k) => {
            if k == 0 {
                proof {
                    assert(t[0] == '/');
                    lemma_strip_not_root(s@);
                    assert(t != seq!['/']);
                    if e == 1 {
                        assert(t =~= seq!['/']);
                    }
                }
                let mut r = String::new();
                push_char(&mut r, '/');
                assert(r@ =~= seq!['/']);
                Some(r)
            } else {
                let f = strip_end(s, k);
                assert(t.subrange(0, k as int) =~= s@.subrange(0, k as int));
                Some(string_of(s.substring_char(0, f)))
            }
        },
    }
}

/// The path and its ancestors, nearest first.
pub open spec fn is_ancestor_chain(start: Seq<char>, chain: Seq<String>) -> bool {
    &&& chain.len() >= 1
    &&& chain[0]@ == start
    &&& forall|i: int| 0 <= i < chain.len() - 1 ==> parent_of(#[trigger] chain[i]@) == Some(chain[i + 1]@)
    &&& parent_of(chain.last()@) is None
}

/// The path and its ancestors, nearest first, as `Path::ancestors` yields them.
pub fn ancestors(start: &str) -> (r: Vec<String>)
    ensures
        is_ancestor_chain(start@, r@),
{
    let mut r: Vec<String> = Vec::new();
    let mut current = string_of(start);
    r.push(string_of(start));
    loop
        invariant
            r@.len() >= 1,
            r@[0]@ == start@,
            r@.last()@ == current@,
            forall|i: int| 0 <= i < r@.len() - 1 ==> parent_of(#[trigger] r@[i]@) == Some(r@[i + 1]@),
        decreases current@.len(),
    {
        match parent(current.as_str()) {
            None => {
                return r;
            },
            Some(p) => {
                let ghost before = r@;
                r.push(string_of(p.as_str()));
                proof {
                    assert forall|i: int| 0 <= i < r@.len() - 1 implies parent_of(#[trigger] r@[i]@)
                        == Some(r@[i + 1]@) by {
                        if i < before.len() - 1 {
                            assert(r@[i] == before[i] && r@[i + 1] == before[i + 1]);
                        } else {
                            assert(r@[i] == before.last());
                        }
                    }
                }
                current = p;
            },
        }
    }
}

/// The nearest ancestor of `start` that holds `ccvl.json`; `marked[i]` tells
/// whether the `i`-th entry of `ancestors(start)` does.
pub fn find_root(chain: &Vec<String>, marked: &Vec<bool>) -> (r: Option<String>)
    requires
        marked@.len() == chain@.len(),
    ensures
        r is None <==> forall|i: int| 0 <= i < marked@.len() ==> !marked@[i],
        r matches Some(p) ==> exists|i: int|
            0 <= i < chain@.len() && marked@[i] && p@ == chain@[i]@ && forall|j: int|
                0 <= j < i ==> !marked@[j],
{
    let mut i: usize = 0;
    while i < chain.len()
        invariant
            marked@.len() == chain@.len(),
            i <= chain@.len(),
            forall|j: int| 0 <= j < i ==> !marked@[j],
        decreases chain@.len() - i,
    {
        if marked[i] {
            let p = string_of(chain[i].as_str());
            assert(marked@[i as int] && p@ == chain@[i as int]@);
            return Some(p);
        }
        i = i + 1;
    }
    None
}

/// Joining a relative path to the root and taking it relative to the root
/// again gives back the relative path.
pub proof fn path_then_relative_round_trips(root: Seq<char>, rel: Seq<char>)
    requires
        root.len() > 0,
        rel.len() == 0 || rel[0] != '/',
    ensures
        relative_to(join(root, rel), root) == Some(rel),
{
    let sep = with_separator(root);
    let p = join(root, rel);
    assert(p =~= sep + rel);
    assert(p.subrange(0, sep.len() as int) =~= sep);
    assert(p.subrange(sep.len() as int, p.len() as int) =~= rel);
    if p == root {
        assert(rel.len() == 0);
    }
}

/// Whatever the file system answers, an accepted input lies within the
/// workspace, and its Typst form is workspace-absolute with forward slashes.
pub proof fn accepted_inputs_stay_inside(root: Seq<char>, resolved: Seq<char>)
    requires
        is_within(resolved, root),
    ensures
        relative_to(resolved, root) is Some,
        ({
            let t = seq!['/'] + forward_slashes(relative_to(resolved, root)->0);
            t.len() >= 1 && t[0] == '/' && forall|i: int| 0 <= i < t.len() ==> t[i] != '\\'
        }),
{
    let q = relative_to(resolved, root)->0;
    let t = seq!['/'] + forward_slashes(q);
    assert forall|i: int| 0 <= i < t.len() implies t[i] != '\\' by {
        if i > 0 {
            assert(t[i] == forward_slashes(q)[i - 1]);
        }
    }
}


/// Every workspace root is an absolute path.
pub proof fn workspace_root_is_absolute(w: Workspace)
    ensures
        is_absolute(w.root_view()),
{
    reveal_strlit("/");
}

/// `relative(path(r)) == Ok(r)`: a relative path joined to a workspace's
/// root (`Workspace::path`) and taken relative to that root again
/// (`Workspace::relative`) is the path itself.
pub proof fn relative_undoes_path(w: Workspace, r: Seq<char>)
    requires
        r.len() == 0 || r[0] != '/',
    ensures
        relative_to(join(w.root_view(), r), w.root_view()) == Some(r),
{
    workspace_root_is_absolute(w);
    path_then_relative_round_trips(w.root_view(), r);
}

} // verus!
