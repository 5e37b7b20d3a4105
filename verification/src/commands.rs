//! What the commands decide: their default inputs and outputs, and when the
//! CV watcher renders again.
use vstd::prelude::*;

use crate::application::{components, path_components};
use crate::downstream::{extension_of, file_name, name_and_extension};
use crate::pdf::{copy_bytes, push_all, sha256, sha256_of};
use crate::render::{cv_preset, preset_name, text_less, DocumentKind, DocumentSpec, RenderError};
use crate::schema::strings_view;
use crate::render::less;
use crate::text::{digits_value, push_str, same_text, string_of};
use crate::workspace::{join, Workspace};
use vstd::string::StrSliceExecFns;
use vstd::utf8::encode_utf8;

verus! {

/// The general application record of a locale, relative to the workspace.
pub fn default_application(locale: &str) -> (r: String)
    ensures
        r@ == "cvl/general/"@ + locale@ + "/application.json"@,
{
    let mut r = string_of("cvl/general/");
    push_str(&mut r, locale);
    push_str(&mut r, "/application.json");
    r
}

/// The general profile, relative to the workspace.
pub fn default_profile() -> (r: String)
    ensures
        r@ == "cvl/general/profile.json"@,
{
    string_of("cvl/general/profile.json")
}

/// The tracked output of a general CV: the preset directory of `pages`
/// pages under the locale's output directory.
pub fn cv_output(workspace: &Workspace, locale: &str, pages: usize) -> (r: Result<String, RenderError>)
    ensures
        match preset_name(pages) {
            Some(p) => r matches Ok(o) && o@ == join(
                workspace.root_view(),
                "cvl/cv/output/"@ + locale@ + "/"@ + p + "/cv.pdf"@,
            ),
            None => r matches Err(RenderError::BadPages(p)) && p == pages,
        },
{
    let preset = match cv_preset(pages) {
        Ok(p) => p,
        Err(e) => return Err(e),
    };
    let mut rel = string_of("cvl/cv/output/");
    push_str(&mut rel, locale);
    push_str(&mut rel, "/");
    push_str(&mut rel, preset);
    push_str(&mut rel, "/cv.pdf");
    Ok(workspace.path(rel.as_str()))
}

/// The tracked output of a general cover letter.
pub fn cl_output(workspace: &Workspace, locale: &str) -> (r: String)
    ensures
        r@ == join(workspace.root_view(), "cvl/cl/output/"@ + locale@ + "/cl.pdf"@),
{
    let mut rel = string_of("cvl/cl/output/");
    push_str(&mut rel, locale);
    push_str(&mut rel, "/cl.pdf");
    workspace.path(rel.as_str())
}

/// A path given to a command: an absolute path as it is, a relative one
/// inside the workspace.
pub fn resolve(workspace: &Workspace, path: &str) -> (r: String)
    ensures
        r@ == join(workspace.root_view(), path@),
        path@.len() > 0 && path@[0] == '/' ==> r@ == path@,
{
    workspace.path(path)
}

/// The watcher renders again when the digest of the sources changed.
pub fn sources_changed(previous: &Vec<u8>, current: &Vec<u8>) -> (r: bool)
    ensures
        r == (previous@ != current@),
{
    if previous.len() != current.len() {
        return true;
    }
    let mut i: usize = 0;
    while i < previous.len()
        invariant
            previous@.len() == current@.len(),
            i <= previous@.len(),
            forall|t: int| 0 <= t < i ==> previous@[t] == current@[t],
        decreases previous@.len() - i,
    {
        if previous[i] != current[i] {
            return true;
        }
        i = i + 1;
    }
    assert(previous@ =~= current@);
    false
}

/// A source that the CV watcher digests: a Typst, JSON or PNG file.
pub open spec fn is_watched(path: Seq<char>) -> bool {
    match file_name(path) {
        Some(name) => match extension_of(name) {
            Some(e) => e == "typ"@ || e == "json"@ || e == "png"@,
            None => false,
        },
        None => false,
    }
}

/// A source that the CV watcher digests.
pub fn watched(path: &str) -> (r: bool)
    ensures
        r == is_watched(path@),
{
    let (_, extension) = name_and_extension(path);
    match &extension {
        Some(e) => same_text(e.as_str(), "typ") || same_text(e.as_str(), "json") || same_text(
            e.as_str(),
            "png",
        ),
        None => false,
    }
}

/// `a` orders before `b` component by component, as paths are ordered.
pub open spec fn parts_less(a: Seq<Seq<char>>, b: Seq<Seq<char>>) -> bool
    decreases a.len(),
{
    if a.len() == 0 {
        b.len() > 0
    } else if b.len() == 0 {
        false
    } else if a[0] != b[0] {
        text_less(a[0], b[0])
    } else {
        parts_less(a.drop_first(), b.drop_first())
    }
}

/// `x` inserted into `s` before the first file whose path orders after its
/// own.
pub open spec fn insert_file(x: (Seq<char>, Seq<u8>), s: Seq<(Seq<char>, Seq<u8>)>) -> Seq<
    (Seq<char>, Seq<u8>),
>
    decreases s.len(),
{
    if s.len() == 0 {
        seq![x]
    } else if parts_less(components(x.0), components(s[0].0)) {
        seq![x] + s
    } else {
        seq![s[0]] + insert_file(x, s.drop_first())
    }
}

/// The files ordered by path; files with equal paths keep their order.
pub open spec fn sort_files(s: Seq<(Seq<char>, Seq<u8>)>) -> Seq<(Seq<char>, Seq<u8>)>
    decreases s.len(),
{
    if s.len() == 0 {
        s
    } else {
        insert_file(s.last(), sort_files(s.drop_last()))
    }
}

/// Each file as the UTF-8 bytes of its path followed by its contents.
pub open spec fn digest_input(s: Seq<(Seq<char>, Seq<u8>)>) -> Seq<u8>
    decreases s.len(),
{
    if s.len() == 0 {
        Seq::empty()
    } else {
        digest_input(s.drop_last()) + encode_utf8(s.last().0) + s.last().1
    }
}

/// The files with their paths and contents as plain values.
pub open spec fn files_view(v: Seq<(String, Vec<u8>)>) -> Seq<(Seq<char>, Seq<u8>)> {
    v.map_values(|p: (String, Vec<u8>)| (p.0@, p.1@))
}

/// The digest of the CV sources: the watched files among `files` (each
/// file under `cvl` by its path and contents), ordered by path, each
/// digested as its path and then its contents.
pub open spec fn source_digest_of(files: Seq<(Seq<char>, Seq<u8>)>) -> Seq<u8> {
    sha256_of(digest_input(sort_files(files.filter(|f: (Seq<char>, Seq<u8>)| is_watched(f.0)))))
}

/// `a` orders before `b` component by component.
fn parts_before(a: &Vec<String>, b: &Vec<String>) -> (r: bool)
    ensures
        r == parts_less(strings_view(a@), strings_view(b@)),
{
    let ghost av = strings_view(a@);
    let ghost bv = strings_view(b@);
    assert(av.subrange(0, av.len() as int) =~= av);
    assert(bv.subrange(0, bv.len() as int) =~= bv);
    let mut i: usize = 0;
    loop
        invariant
            av == strings_view(a@),
            bv == strings_view(b@),
            i <= a@.len(),
            i <= b@.len(),
            parts_less(av, bv) == parts_less(
                av.subrange(i as int, av.len() as int),
                bv.subrange(i as int, bv.len() as int),
            ),
        decreases a@.len() - i,
    {
        let ghost sa = av.subrange(i as int, av.len() as int);
        let ghost sb = bv.subrange(i as int, bv.len() as int);
        if i == a.len() {
            return i < b.len();
        }
        if i == b.len() {
            return false;
        }
        assert(sa[0] == a@[i as int]@);
        assert(sb[0] == b@[i as int]@);
        if !same_text(a[i].as_str(), b[i].as_str()) {
            return less(a[i].as_str(), b[i].as_str());
        }
        assert(sa.drop_first() =~= av.subrange(i + 1, av.len() as int));
        assert(sb.drop_first() =~= bv.subrange(i + 1, bv.len() as int));
        i = i + 1;
    }
}

proof fn lemma_insert_file_at(x: (Seq<char>, Seq<u8>), s: Seq<(Seq<char>, Seq<u8>)>, j: int)
    requires
        0 <= j <= s.len(),
        forall|t: int| 0 <= t < j ==> !parts_less(components(x.0), components(#[trigger] s[t].0)),
        j < s.len() ==> parts_less(components(x.0), components(s[j].0)),
    ensures
        insert_file(x, s) == s.insert(j, x),
    decreases j,
{
    if j == 0 {
        if s.len() == 0 {
            assert(s.insert(0, x) =~= seq![x]);
        } else {
            assert(s.insert(0, x) =~= seq![x] + s);
        }
    } else {
        assert(!parts_less(components(x.0), components(s[0].0)));
        let t = s.drop_first();
        assert forall|u: int| 0 <= u < j - 1 implies !parts_less(
            components(x.0),
            components(#[trigger] t[u].0),
        ) by {
            assert(t[u] == s[u + 1]);
        }
        lemma_insert_file_at(x, t, j - 1);
        assert(seq![s[0]] + t.insert(j - 1, x) =~= s.insert(j, x));
    }
}

/// Inserts `x` before the first file whose path orders after its own.
fn insert_source(v: &mut Vec<(String, Vec<u8>)>, x: (String, Vec<u8>))
    ensures
        files_view(final(v)@) == insert_file((x.0@, x.1@), files_view(old(v)@)),
{
    let xp = path_components(x.0.as_str());
    let mut j: usize = 0;
    while j < v.len() && !parts_before(&xp, &path_components(v[j].0.as_str()))
        invariant
            j <= v@.len(),
            strings_view(xp@) == components(x.0@),
            forall|t: int| 0 <= t < j ==> !parts_less(components(x.0@), components(#[trigger] v@[t].0@)),
        decreases v@.len() - j,
    {
        j = j + 1;
    }
    let ghost s = files_view(v@);
    proof {
        assert forall|t: int| 0 <= t < j implies !parts_less(components(x.0@), components(#[trigger] s[t].0)) by {
            assert(s[t].0 == v@[t].0@);
        }
        if j < v@.len() {
            assert(s[j as int].0 == v@[j as int].0@);
        }
        lemma_insert_file_at((x.0@, x.1@), s, j as int);
    }
    let ghost xv = (x.0@, x.1@);
    v.insert(j, x);
    assert(files_view(v@) =~= s.insert(j as int, xv));
}

/// The digest of the CV sources that the watcher compares: the watched
/// files among `files`, ordered by path, each as the UTF-8 bytes of its path
/// followed by its contents, digested with SHA-256.
pub fn source_digest(files: &Vec<(String, Vec<u8>)>) -> (r: Vec<u8>)
    ensures
        r@ == source_digest_of(files_view(files@)),
{
    let ghost fv = files_view(files@);
    let ghost pred = |f: (Seq<char>, Seq<u8>)| is_watched(f.0);
    let mut kept: Vec<(String, Vec<u8>)> = Vec::new();
    let mut i: usize = 0;
    proof {
        reveal(Seq::filter);
    }
    assert(files_view(kept@) =~= fv.take(0).filter(pred));
    while i < files.len()
        invariant
            i <= files@.len(),
            fv == files_view(files@),
            pred == (|f: (Seq<char>, Seq<u8>)| is_watched(f.0)),
            files_view(kept@) == fv.take(i as int).filter(pred),
        decreases files@.len() - i,
    {
        proof {
            assert(fv.take(i + 1).drop_last() =~= fv.take(i as int));
            assert(fv.take(i + 1).last() == (files@[i as int].0@, files@[i as int].1@));
        }
        let ghost t = fv.take(i + 1);
        proof {
            reveal(Seq::filter);
        }
        if watched(files[i].0.as_str()) {
            let ghost before = kept@;
            kept.push((string_of(files[i].0.as_str()), copy_bytes(&files[i].1)));
            assert(files_view(kept@) =~= files_view(before).push(
                (files@[i as int].0@, files@[i as int].1@),
            ));
            assert(pred(t.last()));
            assert(t.filter(pred) == t.drop_last().filter(pred).push(t.last()));
        } else {
            assert(!pred(t.last()));
            assert(t.filter(pred) == t.drop_last().filter(pred));
        }
        i = i + 1;
    }
    assert(fv.take(i as int) =~= fv);
    let ghost kv = files_view(kept@);
    let mut sorted: Vec<(String, Vec<u8>)> = Vec::new();
    let mut k: usize = 0;
    assert(files_view(sorted@) =~= sort_files(kv.take(0)));
    while k < kept.len()
        invariant
            k <= kept@.len(),
            kv == files_view(kept@),
            files_view(sorted@) == sort_files(kv.take(k as int)),
        decreases kept@.len() - k,
    {
        let x = (string_of(kept[k].0.as_str()), copy_bytes(&kept[k].1));
        insert_source(&mut sorted, x);
        proof {
            let t = kv.take(k + 1);
            assert(t.drop_last() =~= kv.take(k as int));
            assert(t.last() == (kept@[k as int].0@, kept@[k as int].1@));
        }
        k = k + 1;
    }
    assert(kv.take(k as int) =~= kv);
    let ghost sv = files_view(sorted@);
    let mut input: Vec<u8> = Vec::new();
    let mut m: usize = 0;
    assert(input@ =~= digest_input(sv.take(0)));
    while m < sorted.len()
        invariant
            m <= sorted@.len(),
            sv == files_view(sorted@),
            input@ == digest_input(sv.take(m as int)),
        decreases sorted@.len() - m,
    {
        let path = sorted[m].0.as_str().as_bytes_vec();
        push_all(&mut input, &path);
        push_all(&mut input, &sorted[m].1);
        proof {
            let t = sv.take(m + 1);
            assert(t.drop_last() =~= sv.take(m as int));
            assert(t.last() == (sorted@[m as int].0@, sorted@[m as int].1@));
        }
        m = m + 1;
    }
    assert(sv.take(m as int) =~= sv);
    sha256(&input)
}

/// `x` inserted into `s` before the first path that orders after it.
pub open spec fn insert_path(x: Seq<char>, s: Seq<Seq<char>>) -> Seq<Seq<char>>
    decreases s.len(),
{
    if s.len() == 0 {
        seq![x]
    } else if parts_less(components(x), components(s[0])) {
        seq![x] + s
    } else {
        seq![s[0]] + insert_path(x, s.drop_first())
    }
}

/// The paths ordered as paths are, component by component; equal paths keep
/// their order.
pub open spec fn sort_paths(s: Seq<Seq<char>>) -> Seq<Seq<char>>
    decreases s.len(),
{
    if s.len() == 0 {
        s
    } else {
        insert_path(s.last(), sort_paths(s.drop_last()))
    }
}

proof fn lemma_insert_path_at(x: Seq<char>, s: Seq<Seq<char>>, j: int)
    requires
        0 <= j <= s.len(),
        forall|t: int| 0 <= t < j ==> !parts_less(components(x), components(#[trigger] s[t])),
        j < s.len() ==> parts_less(components(x), components(s[j])),
    ensures
        insert_path(x, s) == s.insert(j, x),
    decreases j,
{
    if j == 0 {
        if s.len() == 0 {
            assert(s.insert(0, x) =~= seq![x]);
        } else {
            assert(s.insert(0, x) =~= seq![x] + s);
        }
    } else {
        assert(!parts_less(components(x), components(s[0])));
        let t = s.drop_first();
        assert forall|u: int| 0 <= u < j - 1 implies !parts_less(components(x), components(#[trigger] t[u])) by {
            assert(t[u] == s[u + 1]);
        }
        lemma_insert_path_at(x, t, j - 1);
        assert(seq![s[0]] + t.insert(j - 1, x) =~= s.insert(j, x));
    }
}

/// The paths ordered component by component, as a sorted list of paths.
pub fn sorted_paths(paths: &Vec<String>) -> (r: Vec<String>)
    ensures
        strings_view(r@) == sort_paths(strings_view(paths@)),
{
    let ghost pv = strings_view(paths@);
    let mut out: Vec<String> = Vec::new();
    let mut i: usize = 0;
    assert(strings_view(out@) =~= sort_paths(pv.take(0)));
    while i < paths.len()
        invariant
            i <= paths@.len(),
            pv == strings_view(paths@),
            strings_view(out@) == sort_paths(pv.take(i as int)),
        decreases paths@.len() - i,
    {
        let x = paths[i].as_str();
        let xp = path_components(x);
        let mut j: usize = 0;
        while j < out.len() && !parts_before(&xp, &path_components(out[j].as_str()))
            invariant
                j <= out@.len(),
                strings_view(xp@) == components(x@),
                forall|t: int| 0 <= t < j ==> !parts_less(components(x@), components(#[trigger] out@[t]@)),
            decreases out@.len() - j,
        {
            j = j + 1;
        }
        let ghost s = strings_view(out@);
        proof {
            assert forall|t: int| 0 <= t < j implies !parts_less(components(x@), components(#[trigger] s[t])) by {
                assert(s[t] == out@[t]@);
            }
            if j < out@.len() {
                assert(s[j as int] == out@[j as int]@);
            }
            lemma_insert_path_at(x@, s, j as int);
            let t = pv.take(i + 1);
            assert(t.drop_last() =~= pv.take(i as int));
            assert(t.last() == x@);
        }
        out.insert(j, string_of(x));
        assert(strings_view(out@) =~= s.insert(j as int, x@));
        i = i + 1;
    }
    assert(pv.take(i as int) =~= pv);
    out
}

/// The application records that the full check validates: the template,
/// the two general records and the keyed records found under
/// `opportunities/` (all relative), in path order.
pub open spec fn application_list(records: Seq<Seq<char>>) -> Seq<Seq<char>> {
    sort_paths(
        seq![
            "templates/application.json"@,
            "cvl/general/de-ch/application.json"@,
            "cvl/general/en-ch/application.json"@,
        ] + records,
    )
}

/// The application records that the full check validates, in path order.
pub fn application_candidates(records: &Vec<String>) -> (r: Vec<String>)
    ensures
        strings_view(r@) == application_list(strings_view(records@)),
{
    let mut all = vec![
        string_of("templates/application.json"),
        string_of("cvl/general/de-ch/application.json"),
        string_of("cvl/general/en-ch/application.json"),
    ];
    let ghost head = strings_view(all@);
    assert(head =~= seq![
        "templates/application.json"@,
        "cvl/general/de-ch/application.json"@,
        "cvl/general/en-ch/application.json"@,
    ]);
    let mut i: usize = 0;
    while i < records.len()
        invariant
            i <= records@.len(),
            strings_view(all@) == head + strings_view(records@).take(i as int),
        decreases records@.len() - i,
    {
        let ghost before = strings_view(all@);
        all.push(string_of(records[i].as_str()));
        assert(strings_view(all@) =~= before.push(records@[i as int]@));
        assert(strings_view(records@).take(i + 1) =~= strings_view(records@).take(i as int).push(
            records@[i as int]@,
        ));
        i = i + 1;
    }
    assert(strings_view(records@).take(i as int) =~= strings_view(records@));
    sorted_paths(&all)
}

/// Whether a keyed opportunity's stale cover letter output is removed before
/// rendering: when none of its documents is a cover letter.
pub fn drops_cover_letter(specs: &Vec<DocumentSpec>) -> (r: bool)
    ensures
        r == !(exists|i: int| 0 <= i < specs@.len() && #[trigger] specs@[i].kind == DocumentKind::CoverLetter),
{
    let mut i: usize = 0;
    while i < specs.len()
        invariant
            i <= specs@.len(),
            forall|t: int| 0 <= t < i ==> #[trigger] specs@[t].kind != DocumentKind::CoverLetter,
        decreases specs@.len() - i,
    {
        match specs[i].kind {
            DocumentKind::CoverLetter => return false,
            DocumentKind::Cv => {},
        }
        i = i + 1;
    }
    true
}

/// The digits of a `SOURCE_DATE_EPOCH` value, after an optional sign.
pub open spec fn epoch_digits(raw: Seq<char>) -> Seq<char> {
    if raw.len() > 0 && (raw[0] == '+' || raw[0] == '-') {
        raw.drop_first()
    } else {
        raw
    }
}

/// The timestamp that rendered PDFs carry, from `SOURCE_DATE_EPOCH`: an
/// integer as `i64` parses it (an optional sign, then decimal digits) that is
/// not negative. `None` where the value is refused.
pub open spec fn epoch_of(raw: Seq<char>) -> Option<i64> {
    let d = epoch_digits(raw);
    if !crate::text::all_digits(d) {
        None
    } else if raw[0] == '-' {
        if digits_value(d) == 0 {
            Some(0i64)
        } else {
            None
        }
    } else if digits_value(d) <= i64::MAX {
        Some(digits_value(d) as i64)
    } else {
        None
    }
}

/// The timestamp that rendered PDFs carry (see `epoch_of`).
pub fn source_date_epoch(raw: &str) -> (r: Option<i64>)
    ensures
        r == epoch_of(raw@),
{
    let n = raw.unicode_len();
    let mut start: usize = 0;
    let mut negative = false;
    if n > 0 {
        let c = raw.get_char(0);
        if c == '+' || c == '-' {
            start = 1;
            negative = c == '-';
        }
    }
    let ghost d = epoch_digits(raw@);
    assert(d =~= raw@.subrange(start as int, n as int));
    if start >= n {
        return None;
    }
    let mut value: u64 = 0;
    let mut overflow = false;
    let mut i: usize = start;
    while i < n
        invariant
            n == raw@.len(),
            start <= i <= n,
            start < n,
            negative == (raw@[0] == '-' && start == 1),
            d =~= raw@.subrange(start as int, n as int),
            d == epoch_digits(raw@),
            forall|t: int| start <= t < i ==> crate::text::is_digit(#[trigger] raw@[t]),
            !overflow ==> value as nat == digits_value(raw@.subrange(start as int, i as int)),
            !overflow ==> value <= i64::MAX,
            overflow ==> digits_value(raw@.subrange(start as int, i as int)) > i64::MAX,
        decreases n - i,
    {
        let c = raw.get_char(i);
        if !('0' <= c && c <= '9') {
            assert(d[i - start] == c);
            assert(!crate::text::is_digit(d[i - start]));
            assert(!crate::text::all_digits(d));
            return None;
        }
        let digit: u64 = (c as u32 - '0' as u32) as u64;
        let ghost before = raw@.subrange(start as int, i as int);
        let ghost after = raw@.subrange(start as int, i + 1);
        proof {
            assert(after.drop_last() =~= before);
            assert(digits_value(after) == digits_value(before) * 10 + digit);
        }
        if overflow {
            assert(digits_value(after) > i64::MAX) by (nonlinear_arith)
                requires
                    digits_value(after) == digits_value(before) * 10 + digit,
                    digits_value(before) > i64::MAX,
            ;
        } else if value > (0x7fff_ffff_ffff_ffffu64 - digit) / 10 {
            overflow = true;
            assert(digits_value(after) > i64::MAX) by (nonlinear_arith)
                requires
                    digits_value(after) == value * 10 + digit,
                    value > (0x7fff_ffff_ffff_ffffu64 - digit) / 10,
                    digit <= 9,
            ;
        } else {
            assert(value * 10 + digit <= i64::MAX) by (nonlinear_arith)
                requires
                    value <= (0x7fff_ffff_ffff_ffffu64 - digit) / 10,
                    digit <= 9,
            ;
            value = value * 10 + digit;
        }
        i = i + 1;
    }
    assert(raw@.subrange(start as int, n as int) =~= d);
    if overflow {
        return None;
    }
    if negative {
        if value == 0 {
            Some(0)
        } else {
            None
        }
    } else {
        Some(value as i64)
    }
}

proof fn lemma_parts_less_transitive(a: Seq<Seq<char>>, b: Seq<Seq<char>>, c: Seq<Seq<char>>)
    requires
        parts_less(a, b),
        parts_less(b, c),
    ensures
        parts_less(a, c),
    decreases a.len(),
{
    if a.len() > 0 && b.len() > 0 && c.len() > 0 {
        if a[0] != b[0] {
            if b[0] != c[0] {
                crate::render::lemma_text_less_transitive(a[0], b[0], c[0]);
                if a[0] == c[0] {
                    crate::render::lemma_text_less_total(a[0], b[0]);
                }
            }
        } else if b[0] == c[0] {
            lemma_parts_less_transitive(a.drop_first(), b.drop_first(), c.drop_first());
        }
    }
}

proof fn lemma_parts_less_irreflexive(a: Seq<Seq<char>>)
    ensures
        !parts_less(a, a),
    decreases a.len(),
{
    if a.len() > 0 {
        lemma_parts_less_irreflexive(a.drop_first());
    }
}

proof fn lemma_insert_index(x: Seq<char>, s: Seq<Seq<char>>) -> (k: int)
    ensures
        0 <= k <= s.len(),
        forall|t: int| 0 <= t < k ==> !parts_less(components(x), components(#[trigger] s[t])),
        k < s.len() ==> parts_less(components(x), components(s[k])),
        insert_path(x, s) == s.insert(k, x),
    decreases s.len(),
{
    if s.len() == 0 || parts_less(components(x), components(s[0])) {
        lemma_insert_path_at(x, s, 0);
        0
    } else {
        let t = s.drop_first();
        let k = lemma_insert_index(x, t);
        assert forall|u: int| 0 <= u < k + 1 implies !parts_less(components(x), components(#[trigger] s[u])) by {
            if u > 0 {
                assert(s[u] == t[u - 1]);
            }
        }
        if k < t.len() {
            assert(s[k + 1] == t[k]);
        }
        lemma_insert_path_at(x, s, k + 1);
        k + 1
    }
}

/// No path of the list orders before an earlier one.
pub open spec fn paths_ordered(s: Seq<Seq<char>>) -> bool {
    forall|i: int, j: int|
        0 <= i < j < s.len() ==> !parts_less(components(#[trigger] s[j]), components(#[trigger] s[i]))
}

/// Sorting paths puts them in path order and keeps every path, as often as
/// it occurs.
pub proof fn sorted_paths_are_ordered(s: Seq<Seq<char>>)
    ensures
        paths_ordered(sort_paths(s)),
        sort_paths(s).to_multiset() == s.to_multiset(),
    decreases s.len(),
{
    broadcast use vstd::seq_lib::group_to_multiset_ensures;

    if s.len() == 0 {
    } else {
        let prev = sort_paths(s.drop_last());
        sorted_paths_are_ordered(s.drop_last());
        let x = s.last();
        let k = lemma_insert_index(x, prev);
        let r = prev.insert(k, x);
        assert(sort_paths(s) == r);
        assert(s.drop_last().push(x) =~= s);
        assert forall|i: int, j: int| 0 <= i < j < r.len() implies !parts_less(
            components(#[trigger] r[j]),
            components(#[trigger] r[i]),
        ) by {
            if j < k {
                assert(r[i] == prev[i] && r[j] == prev[j]);
            } else if j == k {
                assert(r[j] == x && r[i] == prev[i]);
            } else if i == k {
                assert(r[i] == x && r[j] == prev[j - 1]);
                if j - 1 == k {
                    lemma_parts_less_irreflexive(components(prev[k]));
                }
                assert(!parts_less(components(prev[j - 1]), components(prev[k])));
                if parts_less(components(prev[j - 1]), components(x)) {
                    lemma_parts_less_transitive(components(prev[j - 1]), components(x), components(prev[k]));
                }
            } else if i < k {
                assert(r[i] == prev[i] && r[j] == prev[j - 1]);
            } else {
                assert(r[i] == prev[i - 1] && r[j] == prev[j - 1]);
            }
        }
    }
}

} // verus!
