//! Rendered PDF files: the release checks and the semantic signature.
//!
//! A document is held as the plain values that the checks read: the trailer,
//! the objects by ascending object number and generation, the pages in page
//! tree order, each page's font dictionaries and content, and the extracted
//! text layer. Stream contents are held decoded; `None` marks a stream whose
//! filters could not be decoded.
use vstd::prelude::*;

use lopdf::Object;
use sha2::Digest;

use crate::downstream::utf8_string;
use crate::text::{is_white, string_of, white};
use vstd::utf8::valid_utf8;

verus! {

/// A PDF object.
#[derive(Debug)]
pub enum PdfObject {
    Null,
    Boolean(bool),
    Integer(i64),
    /// A real number, by the bits of its `f32` value.
    Real(u32),
    Name(Vec<u8>),
    /// A string, by its bytes.
    Str(Vec<u8>),
    Array(Vec<PdfObject>),
    /// A dictionary: its entries in stored order, each key once.
    Dictionary(Vec<(Vec<u8>, PdfObject)>),
    /// A stream: its dictionary and its decoded content.
    Stream(Vec<(Vec<u8>, PdfObject)>, Option<Vec<u8>>),
    /// A reference by object number and generation.
    Reference(u32, u16),
}

/// A parsed PDF file, as the checks read it.
#[derive(Debug)]
pub struct PdfDocument {
    /// The trailer dictionary.
    pub trailer: Vec<(Vec<u8>, PdfObject)>,
    /// The objects, by ascending object number and generation.
    pub objects: Vec<(u32, u16, PdfObject)>,
    /// The object id of each page, in page tree order; page `n` is at `n - 1`.
    pub pages: Vec<(u32, u16)>,
    /// For each page, the font dictionaries of its resources in the order of
    /// their resource names, or `None` where its resources could not be read.
    pub fonts: Vec<Option<Vec<Vec<(Vec<u8>, PdfObject)>>>>,
    /// For each page, its decoded content streams, concatenated.
    pub contents: Vec<Vec<u8>>,
    /// The text layer of all pages, or `None` where extraction failed.
    pub text: Option<String>,
}

// ---------------------------------------------------------------------------
// Bytes
// ---------------------------------------------------------------------------

/// The bytes of an ASCII text.
pub open spec fn ascii(s: Seq<char>) -> Seq<u8> {
    s.map_values(|c: char| c as u8)
}

/// The `k` low bytes of `n`, most significant first.
pub open spec fn be(n: nat, k: nat) -> Seq<u8>
    decreases k,
{
    if k == 0 {
        Seq::empty()
    } else {
        be(n / 256, (k - 1) as nat).push((n % 256) as u8)
    }
}

/// A byte string preceded by its length as eight big-endian bytes.
pub open spec fn sized(v: Seq<u8>) -> Seq<u8> {
    be(v.len(), 8) + v
}

/// The two's complement bits of `v`, as an unsigned number.
pub open spec fn twos(v: i64) -> nat {
    if v >= 0 {
        v as nat
    } else {
        (v + 0x1_0000_0000_0000_0000int) as nat
    }
}

/// Appends the bytes of the ASCII text `s`.
fn push_ascii(out: &mut Vec<u8>, s: &str)
    ensures
        final(out)@ == old(out)@ + ascii(s@),
{
    let n = s.unicode_len();
    let ghost start = out@;
    let mut i: usize = 0;
    while i < n
        invariant
            n == s@.len(),
            i <= n,
            out@ == start + ascii(s@.subrange(0, i as int)),
        decreases n - i,
    {
        let c = s.get_char(i);
        out.push(c as u8);
        i = i + 1;
        assert(ascii(s@.subrange(0, i as int)) =~= ascii(s@.subrange(0, i - 1)).push(c as u8));
    }
    assert(s@.subrange(0, n as int) =~= s@);
}

/// Appends the `k` low bytes of `n`, most significant first.
fn push_be(out: &mut Vec<u8>, n: u64, k: usize)
    ensures
        final(out)@ == old(out)@ + be(n as nat, k as nat),
    decreases k,
{
    if k > 0 {
        push_be(out, n / 256, k - 1);
        out.push((n % 256) as u8);
        assert(be(n as nat, k as nat) == be((n / 256) as nat, (k - 1) as nat).push((n % 256) as u8));
    } else {
        assert(old(out)@ + be(n as nat, 0) =~= old(out)@);
    }
}

/// Appends `v` preceded by its length.
fn push_sized(out: &mut Vec<u8>, v: &Vec<u8>)
    ensures
        final(out)@ == old(out)@ + sized(v@),
{
    let ghost start = out@;
    push_be(out, v.len() as u64, 8);
    let mut i: usize = 0;
    while i < v.len()
        invariant
            i <= v@.len(),
            out@ == start + be(v@.len(), 8) + v@.subrange(0, i as int),
        decreases v@.len() - i,
    {
        out.push(v[i]);
        i = i + 1;
        assert(out@ =~= start + be(v@.len(), 8) + v@.subrange(0, i as int));
    }
    assert(v@.subrange(0, v@.len() as int) =~= v@);
    assert(out@ =~= start + sized(v@));
}

/// Appends all of `v`.
pub(crate) fn push_all(out: &mut Vec<u8>, v: &Vec<u8>)
    ensures
        final(out)@ == old(out)@ + v@,
{
    let ghost start = out@;
    let mut i: usize = 0;
    while i < v.len()
        invariant
            i <= v@.len(),
            out@ == start + v@.subrange(0, i as int),
        decreases v@.len() - i,
    {
        out.push(v[i]);
        i = i + 1;
        assert(out@ =~= start + v@.subrange(0, i as int));
    }
    assert(v@.subrange(0, v@.len() as int) =~= v@);
}

/// `k` holds the bytes of the ASCII text `s`.
pub fn key_is(k: &Vec<u8>, s: &str) -> (r: bool)
    ensures
        r == (k@ == ascii(s@)),
{
    let n = s.unicode_len();
    if k.len() != n {
        return false;
    }
    let mut i: usize = 0;
    while i < n
        invariant
            n == s@.len(),
            n == k@.len(),
            i <= n,
            forall|t: int| 0 <= t < i ==> k@[t] == ascii(s@)[t],
        decreases n - i,
    {
        if k[i] != s.get_char(i) as u8 {
            assert(ascii(s@)[i as int] == s@[i as int] as u8);
            return false;
        }
        i = i + 1;
    }
    assert(k@ =~= ascii(s@));
    true
}

// ---------------------------------------------------------------------------
// Dictionaries and objects
// ---------------------------------------------------------------------------

/// The value of the first entry of `d` under `key`.
pub open spec fn dict_get(d: Seq<(Vec<u8>, PdfObject)>, key: Seq<u8>) -> Option<PdfObject>
    decreases d.len(),
{
    if d.len() == 0 {
        None
    } else if d[0].0@ == key {
        Some(d[0].1)
    } else {
        dict_get(d.drop_first(), key)
    }
}

/// `d` has an entry under `key`.
pub open spec fn dict_has(d: Seq<(Vec<u8>, PdfObject)>, key: Seq<u8>) -> bool {
    dict_get(d, key) is Some
}

/// The value under `key`, looked up by an ASCII key.
pub fn get<'a>(d: &'a Vec<(Vec<u8>, PdfObject)>, key: &str) -> (r: Option<&'a PdfObject>)
    ensures
        match r {
            Some(v) => dict_get(d@, ascii(key@)) == Some(*v),
            None => dict_get(d@, ascii(key@)) is None,
        },
{
    assert(d@.subrange(0, d@.len() as int) =~= d@);
    let mut i: usize = 0;
    while i < d.len()
        invariant
            i <= d@.len(),
            dict_get(d@, ascii(key@)) == dict_get(d@.subrange(i as int, d@.len() as int), ascii(key@)),
        decreases d@.len() - i,
    {
        let ghost rest = d@.subrange(i as int, d@.len() as int);
        assert(rest.drop_first() =~= d@.subrange(i + 1, d@.len() as int));
        if key_is(&d[i].0, key) {
            return Some(&d[i].1);
        }
        i = i + 1;
    }
    None
}

/// `d` has an entry under the ASCII key `key`.
pub fn has_key(d: &Vec<(Vec<u8>, PdfObject)>, key: &str) -> (r: bool)
    ensures
        r == dict_has(d@, ascii(key@)),
{
    get(d, key).is_some()
}

/// The object stored under `id`.
pub open spec fn object_at(objects: Seq<(u32, u16, PdfObject)>, id: (u32, u16)) -> Option<PdfObject>
    decreases objects.len(),
{
    if objects.len() == 0 {
        None
    } else if objects[0].0 == id.0 && objects[0].1 == id.1 {
        Some(objects[0].2)
    } else {
        object_at(objects.drop_first(), id)
    }
}

/// The object stored under `id`.
pub fn stored<'a>(objects: &'a Vec<(u32, u16, PdfObject)>, id: (u32, u16)) -> (r: Option<&'a PdfObject>)
    ensures
        match r {
            Some(v) => object_at(objects@, id) == Some(*v),
            None => object_at(objects@, id) is None,
        },
{
    assert(objects@.subrange(0, objects@.len() as int) =~= objects@);
    let mut i: usize = 0;
    while i < objects.len()
        invariant
            i <= objects@.len(),
            object_at(objects@, id) == object_at(objects@.subrange(i as int, objects@.len() as int), id),
        decreases objects@.len() - i,
    {
        let ghost rest = objects@.subrange(i as int, objects@.len() as int);
        assert(rest.drop_first() =~= objects@.subrange(i + 1, objects@.len() as int));
        if objects[i].0 == id.0 && objects[i].1 == id.1 {
            return Some(&objects[i].2);
        }
        i = i + 1;
    }
    None
}

// ---------------------------------------------------------------------------
// The semantic signature
// ---------------------------------------------------------------------------

/// The first index at or after `k` that holds `<`, or the length of `s`.
pub open spec fn next_open(s: Seq<u8>, k: int) -> int
    decreases s.len() - k,
{
    if k >= s.len() || k < 0 {
        s.len() as int
    } else if s[k] == 60u8 {
        k
    } else {
        next_open(s, k + 1)
    }
}

/// Where a rendition identifier element that starts at `i` ends: the opening
/// tag, a run of characters other than `<` (valid UTF-8), and the closing
/// tag.
pub open spec fn instance_end(s: Seq<u8>, i: int) -> Option<int> {
    let open = ascii("<xmpMM:InstanceID>"@);
    let close = ascii("</xmpMM:InstanceID>"@);
    if 0 <= i && i + open.len() <= s.len() && s.subrange(i, i + open.len()) == open {
        let j = next_open(s, i + open.len());
        if j + close.len() <= s.len() && s.subrange(j, j + close.len()) == close && valid_utf8(
            s.subrange(i + open.len(), j),
        ) {
            Some(j + close.len())
        } else {
            None
        }
    } else {
        None
    }
}

/// `s` from `i` on, each rendition identifier element, leftmost first, with
/// its identifier replaced by a fixed text.
pub open spec fn normalized_from(s: Seq<u8>, i: int) -> Seq<u8>
    decreases s.len() - i,
{
    if i < 0 || i >= s.len() {
        Seq::empty()
    } else {
        match instance_end(s, i) {
            Some(e) => if i < e <= s.len() {
                ascii("<xmpMM:InstanceID>"@) + ascii("CCVL-DETERMINISTIC-INSTANCE"@) + ascii(
                    "</xmpMM:InstanceID>"@,
                ) + normalized_from(s, e)
            } else {
                Seq::empty()
            },
            None => seq![s[i]] + normalized_from(s, i + 1),
        }
    }
}

/// A stream's content with its rendition identifiers replaced.
pub open spec fn normalized(s: Seq<u8>) -> Seq<u8> {
    normalized_from(s, 0)
}

/// Stream dictionary entries that describe the encoding, not the content.
pub open spec fn encoding_key(k: Seq<u8>) -> bool {
    k == ascii("DecodeParms"@) || k == ascii("Filter"@) || k == ascii("Length"@)
}

/// The canonical bytes of an object, or `None` where a stream in it cannot
/// be decoded.
pub open spec fn code(o: PdfObject) -> Option<Seq<u8>>
    decreases o, 0int,
{
    match o {
        PdfObject::Null => Some(ascii("null"@)),
        PdfObject::Boolean(b) => Some(ascii("boolean"@).push(if b { 1u8 } else { 0u8 })),
        PdfObject::Integer(v) => Some(ascii("integer"@) + be(twos(v), 8)),
        PdfObject::Real(bits) => Some(ascii("real"@) + be(bits as nat, 4)),
        PdfObject::Name(v) => Some(ascii("name"@) + sized(v@)),
        PdfObject::Str(v) => Some(ascii("string"@) + sized(v@)),
        PdfObject::Array(items) => match codes(items@, items@.len() as int) {
            Some(c) => Some(ascii("array"@) + be(items@.len(), 8) + c),
            None => None,
        },
        PdfObject::Dictionary(d) => match entry_codes(d@, d@.len() as int, false) {
            Some(es) => Some(ascii("dictionary"@) + dict_code(es)),
            None => None,
        },
        PdfObject::Stream(d, content) => match (entry_codes(d@, d@.len() as int, true), content) {
            (Some(es), Some(body)) => Some(ascii("stream"@) + dict_code(es) + sized(normalized(body@))),
            _ => None,
        },
        PdfObject::Reference(n, g) => Some(ascii("reference"@) + be(n as nat, 4) + be(g as nat, 2)),
    }
}

/// The canonical bytes of the first `n` objects of a list, concatenated.
pub open spec fn codes(items: Seq<PdfObject>, n: int) -> Option<Seq<u8>>
    decreases items, n,
{
    if n <= 0 || n > items.len() {
        Some(Seq::empty())
    } else {
        match (codes(items, n - 1), code(items[n - 1])) {
            (Some(a), Some(b)) => Some(a + b),
            _ => None,
        }
    }
}

/// The first `n` entries of a dictionary with the canonical bytes of their
/// values, leaving out the encoding entries of a stream dictionary.
pub open spec fn entry_codes(d: Seq<(Vec<u8>, PdfObject)>, n: int, stream: bool) -> Option<
    Seq<(Seq<u8>, Seq<u8>)>,
>
    decreases d, n,
{
    if n <= 0 || n > d.len() {
        Some(Seq::empty())
    } else {
        let rest = entry_codes(d, n - 1, stream);
        if stream && encoding_key(d[n - 1].0@) {
            rest
        } else {
            match (rest, code(d[n - 1].1)) {
                (Some(r), Some(c)) => Some(r.push((d[n - 1].0@, c))),
                _ => None,
            }
        }
    }
}

/// `a` orders before `b` byte by byte.
pub open spec fn key_less(a: Seq<u8>, b: Seq<u8>) -> bool
    decreases a.len(),
{
    if a.len() == 0 {
        b.len() > 0
    } else if b.len() == 0 {
        false
    } else if a[0] != b[0] {
        a[0] < b[0]
    } else {
        key_less(a.drop_first(), b.drop_first())
    }
}

/// `x` inserted into `s` before the first entry whose key orders after its own.
pub open spec fn insert_entry(x: (Seq<u8>, Seq<u8>), s: Seq<(Seq<u8>, Seq<u8>)>) -> Seq<
    (Seq<u8>, Seq<u8>),
>
    decreases s.len(),
{
    if s.len() == 0 {
        seq![x]
    } else if key_less(x.0, s[0].0) {
        seq![x] + s
    } else {
        seq![s[0]] + insert_entry(x, s.drop_first())
    }
}

/// The entries ordered by key; entries with equal keys keep their order.
pub open spec fn sort_entries(s: Seq<(Seq<u8>, Seq<u8>)>) -> Seq<(Seq<u8>, Seq<u8>)>
    decreases s.len(),
{
    if s.len() == 0 {
        s
    } else {
        insert_entry(s.last(), sort_entries(s.drop_last()))
    }
}

/// Each entry as its sized key followed by the bytes of its value.
pub open spec fn joined(s: Seq<(Seq<u8>, Seq<u8>)>) -> Seq<u8>
    decreases s.len(),
{
    if s.len() == 0 {
        Seq::empty()
    } else {
        joined(s.drop_last()) + sized(s.last().0) + s.last().1
    }
}

/// The canonical bytes of a dictionary's kept entries: their number, then the
/// entries ordered by key.
pub open spec fn dict_code(es: Seq<(Seq<u8>, Seq<u8>)>) -> Seq<u8> {
    be(es.len(), 8) + joined(sort_entries(es))
}

/// The canonical bytes of the first document identifier of the trailer, if
/// it has one.
pub open spec fn identifier_code(trailer: Seq<(Vec<u8>, PdfObject)>) -> Option<Seq<u8>> {
    match dict_get(trailer, ascii("ID"@)) {
        Some(PdfObject::Array(items)) => if items@.len() > 0 {
            code(items@[0])
        } else {
            Some(Seq::empty())
        },
        _ => Some(Seq::empty()),
    }
}

/// The first `n` objects, each as its number, generation and canonical bytes.
pub open spec fn objects_code(objects: Seq<(u32, u16, PdfObject)>, n: int) -> Option<Seq<u8>>
    decreases n,
{
    if n <= 0 || n > objects.len() {
        Some(Seq::empty())
    } else {
        match (objects_code(objects, n - 1), code(objects[n - 1].2)) {
            (Some(a), Some(c)) => Some(
                a + be(objects[n - 1].0 as nat, 4) + be(objects[n - 1].1 as nat, 2) + c,
            ),
            _ => None,
        }
    }
}

/// What the semantic signature digests: a fixed label, the first document
/// identifier, and every object. `None` where a stream cannot be decoded.
pub open spec fn semantic_code(doc: PdfDocument) -> Option<Seq<u8>> {
    match (identifier_code(doc.trailer@), objects_code(doc.objects@, doc.objects@.len() as int)) {
        (Some(i), Some(o)) => Some(ascii("ccvl-semantic-pdf-v1"@) + i + o),
        _ => None,
    }
}

/// The entries with their keys and values taken by view.
pub open spec fn pairs_view(v: Seq<(Vec<u8>, Vec<u8>)>) -> Seq<(Seq<u8>, Seq<u8>)> {
    v.map_values(|p: (Vec<u8>, Vec<u8>)| (p.0@, p.1@))
}

/// A copy of `v`.
pub(crate) fn copy_bytes(v: &Vec<u8>) -> (r: Vec<u8>)
    ensures
        r@ == v@,
{
    let mut r: Vec<u8> = Vec::new();
    push_all(&mut r, v);
    assert(r@ =~= v@);
    r
}

/// `s` holds `lit`'s bytes from `i` on.
pub(crate) fn bytes_at(s: &Vec<u8>, i: usize, lit: &str) -> (r: bool)
    ensures
        r == (i + lit@.len() <= s@.len() && s@.subrange(i as int, i + lit@.len()) == ascii(lit@)),
{
    let n = lit.unicode_len();
    if i > s.len() || s.len() - i < n {
        return false;
    }
    let mut t: usize = 0;
    while t < n
        invariant
            n == lit@.len(),
            i + n <= s@.len(),
            s@.len() <= usize::MAX,
            t <= n,
            forall|u: int| 0 <= u < t ==> s@[i + u] == ascii(lit@)[u],
        decreases n - t,
    {
        let c = lit.get_char(t);
        assert(ascii(lit@)[t as int] == c as u8);
        if s[i + t] != c as u8 {
            assert(s@.subrange(i as int, i + n)[t as int] == s@[i + t]);
            return false;
        }
        t = t + 1;
    }
    assert(s@.subrange(i as int, i + n) =~= ascii(lit@));
    true
}

/// The first index at or after `k` that holds `<`, or the length of `s`.
fn next_open_at(s: &Vec<u8>, k: usize) -> (r: usize)
    requires
        k <= s@.len(),
    ensures
        r == next_open(s@, k as int),
        k <= r <= s@.len(),
{
    let mut j = k;
    while j < s.len()
        invariant
            k <= j <= s@.len(),
            next_open(s@, k as int) == next_open(s@, j as int),
        decreases s@.len() - j,
    {
        if s[j] == 60u8 {
            return j;
        }
        j = j + 1;
    }
    j
}

proof fn lemma_next_open(s: Seq<u8>, k: int)
    requires
        0 <= k <= s.len(),
    ensures
        k <= next_open(s, k) <= s.len(),
    decreases s.len() - k,
{
    if k < s.len() && s[k] != 60u8 {
        lemma_next_open(s, k + 1);
    }
}

/// Where a rendition identifier element that starts at `i` ends.
fn instance_end_at(s: &Vec<u8>, i: usize) -> (r: Option<usize>)
    ensures
        match instance_end(s@, i as int) {
            Some(e) => r == Some(e as usize),
            None => r is None,
        },
{
    let open = "<xmpMM:InstanceID>";
    let close = "</xmpMM:InstanceID>";
    let len = s.len();
    let a = open.unicode_len();
    let b = close.unicode_len();
    if !bytes_at(s, i, open) {
        return None;
    }
    assert(i + a <= len);
    let j = next_open_at(s, i + a);
    if !bytes_at(s, j, close) {
        return None;
    }
    assert(j + b <= len);
    proof {
        lemma_next_open(s@, i + a);
    }
    let mut identifier: Vec<u8> = Vec::new();
    let mut k: usize = i + a;
    while k < j
        invariant
            i + a <= k <= j,
            j <= s@.len(),
            identifier@ == s@.subrange(i + a, k as int),
        decreases j - k,
    {
        identifier.push(s[k]);
        assert(identifier@ =~= s@.subrange(i + a, k + 1));
        k = k + 1;
    }
    match utf8_string(identifier) {
        Some(_) => Some(j + b),
        None => None,
    }
}

/// The content with each rendition identifier replaced by a fixed text.
pub fn normalize(s: &Vec<u8>) -> (r: Vec<u8>)
    ensures
        r@ == normalized(s@),
{
    proof {
        reveal_strlit("</xmpMM:InstanceID>");
    }
    let mut out: Vec<u8> = Vec::new();
    let mut i: usize = 0;
    while i < s.len()
        invariant
            i <= s@.len(),
            out@ + normalized_from(s@, i as int) == normalized(s@),
            "</xmpMM:InstanceID>"@.len() > 0,
        decreases s@.len() - i,
    {
        match instance_end_at(s, i) {
            Some(e) => {
                proof {
                    lemma_next_open(s@, i + "<xmpMM:InstanceID>"@.len());
                }
                let ghost before = out@;
                push_ascii(&mut out, "<xmpMM:InstanceID>");
                push_ascii(&mut out, "CCVL-DETERMINISTIC-INSTANCE");
                push_ascii(&mut out, "</xmpMM:InstanceID>");
                assert(before + normalized_from(s@, i as int) =~= out@ + normalized_from(s@, e as int));
                i = e;
            },
            None => {
                let ghost before = out@;
                out.push(s[i]);
                assert(before + normalized_from(s@, i as int) =~= out@ + normalized_from(s@, i + 1));
                i = i + 1;
            },
        }
    }
    assert(out@ =~= out@ + normalized_from(s@, i as int));
    out
}

/// A byte string is one of the encoding entries of a stream dictionary.
fn is_encoding_key(k: &Vec<u8>) -> (r: bool)
    ensures
        r == encoding_key(k@),
{
    key_is(k, "DecodeParms") || key_is(k, "Filter") || key_is(k, "Length")
}

/// `a` orders before `b` byte by byte.
fn key_before(a: &Vec<u8>, b: &Vec<u8>) -> (r: bool)
    ensures
        r == key_less(a@, b@),
{
    let mut i: usize = 0;
    assert(a@.subrange(0, a@.len() as int) =~= a@);
    assert(b@.subrange(0, b@.len() as int) =~= b@);
    loop
        invariant
            i <= a@.len(),
            i <= b@.len(),
            key_less(a@, b@) == key_less(
                a@.subrange(i as int, a@.len() as int),
                b@.subrange(i as int, b@.len() as int),
            ),
        decreases a@.len() - i,
    {
        let ghost sa = a@.subrange(i as int, a@.len() as int);
        let ghost sb = b@.subrange(i as int, b@.len() as int);
        if i == a.len() {
            return i < b.len();
        }
        if i == b.len() {
            return false;
        }
        assert(sa[0] == a@[i as int]);
        assert(sb[0] == b@[i as int]);
        if a[i] != b[i] {
            return a[i] < b[i];
        }
        assert(sa.drop_first() =~= a@.subrange(i + 1, a@.len() as int));
        assert(sb.drop_first() =~= b@.subrange(i + 1, b@.len() as int));
        i = i + 1;
    }
}

proof fn lemma_insert_at(x: (Seq<u8>, Seq<u8>), s: Seq<(Seq<u8>, Seq<u8>)>, j: int)
    requires
        0 <= j <= s.len(),
        forall|t: int| 0 <= t < j ==> !key_less(x.0, #[trigger] s[t].0),
        j < s.len() ==> key_less(x.0, s[j].0),
    ensures
        insert_entry(x, s) == s.insert(j, x),
    decreases j,
{
    if j == 0 {
        if s.len() == 0 {
            assert(s.insert(0, x) =~= seq![x]);
        } else {
            assert(s.insert(0, x) =~= seq![x] + s);
        }
    } else {
        assert(!key_less(x.0, s[0].0));
        let t = s.drop_first();
        assert forall|u: int| 0 <= u < j - 1 implies !key_less(x.0, #[trigger] t[u].0) by {
            assert(t[u] == s[u + 1]);
        }
        lemma_insert_at(x, t, j - 1);
        assert(seq![s[0]] + t.insert(j - 1, x) =~= s.insert(j, x));
    }
}

/// Inserts `x` before the first entry whose key orders after its own.
fn insert_pair(v: &mut Vec<(Vec<u8>, Vec<u8>)>, x: (Vec<u8>, Vec<u8>))
    ensures
        pairs_view(final(v)@) == insert_entry((x.0@, x.1@), pairs_view(old(v)@)),
{
    let mut j: usize = 0;
    while j < v.len() && !key_before(&x.0, &v[j].0)
        invariant
            j <= v@.len(),
            forall|t: int| 0 <= t < j ==> !key_less(x.0@, #[trigger] v@[t].0@),
        decreases v@.len() - j,
    {
        j = j + 1;
    }
    let ghost s = pairs_view(v@);
    proof {
        assert forall|t: int| 0 <= t < j implies !key_less(x.0@, #[trigger] s[t].0) by {
            assert(s[t].0 == v@[t].0@);
        }
        if j < v@.len() {
            assert(s[j as int].0 == v@[j as int].0@);
        }
        lemma_insert_at((x.0@, x.1@), s, j as int);
    }
    let ghost xv = (x.0@, x.1@);
    v.insert(j, x);
    assert(pairs_view(v@) =~= s.insert(j as int, xv));
}

/// The entries ordered by key, equal keys keeping their order.
fn sorted_pairs(v: &Vec<(Vec<u8>, Vec<u8>)>) -> (r: Vec<(Vec<u8>, Vec<u8>)>)
    ensures
        pairs_view(r@) == sort_entries(pairs_view(v@)),
{
    let mut out: Vec<(Vec<u8>, Vec<u8>)> = Vec::new();
    let mut i: usize = 0;
    assert(pairs_view(out@) =~= sort_entries(pairs_view(v@).take(0)));
    while i < v.len()
        invariant
            i <= v@.len(),
            pairs_view(out@) == sort_entries(pairs_view(v@).take(i as int)),
        decreases v@.len() - i,
    {
        let k = copy_bytes(&v[i].0);
        let c = copy_bytes(&v[i].1);
        insert_pair(&mut out, (k, c));
        proof {
            let t = pairs_view(v@).take(i + 1);
            assert(t.drop_last() =~= pairs_view(v@).take(i as int));
            assert(t.last() == (v@[i as int].0@, v@[i as int].1@));
        }
        i = i + 1;
    }
    assert(pairs_view(v@).take(i as int) =~= pairs_view(v@));
    out
}

/// Appends each entry as its sized key followed by its value bytes.
fn push_joined(out: &mut Vec<u8>, v: &Vec<(Vec<u8>, Vec<u8>)>)
    ensures
        final(out)@ == old(out)@ + joined(pairs_view(v@)),
{
    let ghost start = out@;
    let mut i: usize = 0;
    assert(start + joined(pairs_view(v@).take(0)) =~= start);
    while i < v.len()
        invariant
            i <= v@.len(),
            out@ == start + joined(pairs_view(v@).take(i as int)),
        decreases v@.len() - i,
    {
        push_sized(out, &v[i].0);
        push_all(out, &v[i].1);
        proof {
            let t = pairs_view(v@).take(i + 1);
            assert(t.drop_last() =~= pairs_view(v@).take(i as int));
            assert(t.last() == (v@[i as int].0@, v@[i as int].1@));
            assert(out@ =~= start + joined(t));
        }
        i = i + 1;
    }
    assert(pairs_view(v@).take(i as int) =~= pairs_view(v@));
}

/// The two's complement bits of `v`.
fn unsigned_bits(v: i64) -> (r: u64)
    ensures
        r as nat == twos(v),
{
    if v >= 0 {
        v as u64
    } else {
        ((v - i64::MIN) as u64) + 0x8000_0000_0000_0000u64
    }
}

proof fn lemma_codes_fail(items: Seq<PdfObject>, k: int, m: int)
    requires
        0 < k <= m <= items.len(),
        codes(items, k) is None,
    ensures
        codes(items, m) is None,
    decreases m - k,
{
    if m > k {
        lemma_codes_fail(items, k, m - 1);
    }
}

proof fn lemma_entry_codes_fail(d: Seq<(Vec<u8>, PdfObject)>, k: int, m: int, stream: bool)
    requires
        0 < k <= m <= d.len(),
        entry_codes(d, k, stream) is None,
    ensures
        entry_codes(d, m, stream) is None,
    decreases m - k,
{
    if m > k {
        lemma_entry_codes_fail(d, k, m - 1, stream);
    }
}

/// The canonical bytes of an object; `None` where a stream in it cannot be
/// decoded.
pub fn encode(o: &PdfObject) -> (r: Option<Vec<u8>>)
    ensures
        match code(*o) {
            Some(c) => r matches Some(v) && v@ == c,
            None => r is None,
        },
    decreases o,
{
    let mut out: Vec<u8> = Vec::new();
    match o {
        PdfObject::Null => {
            push_ascii(&mut out, "null");
        },
        PdfObject::Boolean(b) => {
            push_ascii(&mut out, "boolean");
            out.push(if *b { 1u8 } else { 0u8 });
        },
        PdfObject::Integer(v) => {
            push_ascii(&mut out, "integer");
            push_be(&mut out, unsigned_bits(*v), 8);
        },
        PdfObject::Real(bits) => {
            push_ascii(&mut out, "real");
            push_be(&mut out, *bits as u64, 4);
        },
        PdfObject::Name(v) => {
            push_ascii(&mut out, "name");
            push_sized(&mut out, v);
        },
        PdfObject::Str(v) => {
            push_ascii(&mut out, "string");
            push_sized(&mut out, v);
        },
        PdfObject::Array(items) => {
            proof {
                assert(decreases_to!(*o => *items));
            }
            let mut body: Vec<u8> = Vec::new();
            let mut i: usize = 0;
            while i < items.len()
                invariant
                    i <= items@.len(),
                    *o == PdfObject::Array(*items),
                    codes(items@, i as int) == Some(body@),
                decreases items@.len() - i,
            {
                proof {
                    assert(decreases_to!(*items => items@));
                    assert(decreases_to!(items@ => items@[i as int]));
                }
                match encode(&items[i]) {
                    Some(c) => {
                        push_all(&mut body, &c);
                        i = i + 1;
                    },
                    None => {
                        proof {
                            lemma_codes_fail(items@, i + 1, items@.len() as int);
                        }
                        return None;
                    },
                }
            }
            push_ascii(&mut out, "array");
            push_be(&mut out, items.len() as u64, 8);
            push_all(&mut out, &body);
        },
        PdfObject::Dictionary(d) => {
            proof {
                assert(decreases_to!(*o => *d));
            }
            match encode_entries(d, false) {
                Some(es) => {
                    let sorted = sorted_pairs(&es);
                    push_ascii(&mut out, "dictionary");
                    push_be(&mut out, es.len() as u64, 8);
                    push_joined(&mut out, &sorted);
                },
                None => {
                    return None;
                },
            }
        },
        PdfObject::Stream(d, content) => {
            proof {
                assert(decreases_to!(*o => *d));
            }
            match encode_entries(d, true) {
                Some(es) => match content {
                    Some(body) => {
                        let sorted = sorted_pairs(&es);
                        push_ascii(&mut out, "stream");
                        push_be(&mut out, es.len() as u64, 8);
                        push_joined(&mut out, &sorted);
                        let n = normalize(body);
                        push_sized(&mut out, &n);
                    },
                    None => {
                        return None;
                    },
                },
                None => {
                    return None;
                },
            }
        },
        PdfObject::Reference(n, g) => {
            push_ascii(&mut out, "reference");
            push_be(&mut out, *n as u64, 4);
            push_be(&mut out, *g as u64, 2);
        },
    }
    Some(out)
}

/// The entries of a dictionary with the canonical bytes of their values,
/// leaving out the encoding entries of a stream dictionary.
fn encode_entries(d: &Vec<(Vec<u8>, PdfObject)>, stream: bool) -> (r: Option<
    Vec<(Vec<u8>, Vec<u8>)>,
>)
    ensures
        match entry_codes(d@, d@.len() as int, stream) {
            Some(es) => r matches Some(v) && pairs_view(v@) == es,
            None => r is None,
        },
    decreases d,
{
    let mut out: Vec<(Vec<u8>, Vec<u8>)> = Vec::new();
    let mut i: usize = 0;
    assert(pairs_view(out@) =~= Seq::<(Seq<u8>, Seq<u8>)>::empty());
    while i < d.len()
        invariant
            i <= d@.len(),
            entry_codes(d@, i as int, stream) == Some(pairs_view(out@)),
        decreases d@.len() - i,
    {
        proof {
            assert(decreases_to!(*d => d@));
            assert(decreases_to!(d@ => d@[i as int]));
            assert(decreases_to!(d@[i as int] => d@[i as int].1));
        }
        if stream && is_encoding_key(&d[i].0) {
            i = i + 1;
        } else {
            match encode(&d[i].1) {
                Some(c) => {
                    let k = copy_bytes(&d[i].0);
                    let ghost before = out@;
                    out.push((k, c));
                    assert(pairs_view(out@) =~= pairs_view(before).push((d@[i as int].0@, c@)));
                    i = i + 1;
                },
                None => {
                    proof {
                        lemma_entry_codes_fail(d@, i + 1, d@.len() as int, stream);
                    }
                    return None;
                },
            }
        }
    }
    Some(out)
}

proof fn lemma_objects_code_fail(objects: Seq<(u32, u16, PdfObject)>, k: int, m: int)
    requires
        0 < k <= m <= objects.len(),
        objects_code(objects, k) is None,
    ensures
        objects_code(objects, m) is None,
    decreases m - k,
{
    if m > k {
        lemma_objects_code_fail(objects, k, m - 1);
    }
}

/// The bytes that the semantic signature digests; `None` where a stream
/// cannot be decoded.
pub fn semantic_bytes(doc: &PdfDocument) -> (r: Option<Vec<u8>>)
    ensures
        match semantic_code(*doc) {
            Some(c) => r matches Some(v) && v@ == c,
            None => r is None,
        },
{
    let mut out: Vec<u8> = Vec::new();
    push_ascii(&mut out, "ccvl-semantic-pdf-v1");
    let ghost head = out@;
    match get(&doc.trailer, "ID") {
        Some(PdfObject::Array(items)) => {
            if items.len() > 0 {
                match encode(&items[0]) {
                    Some(c) => push_all(&mut out, &c),
                    None => return None,
                }
            }
        },
        _ => {},
    }
    let ghost ident = out@.subrange(head.len() as int, out@.len() as int);
    assert(identifier_code(doc.trailer@) == Some(ident));
    let ghost with_ident = out@;
    let objects = &doc.objects;
    let mut i: usize = 0;
    assert(with_ident.subrange(with_ident.len() as int, out@.len() as int) =~= Seq::<u8>::empty());
    while i < objects.len()
        invariant
            i <= objects@.len(),
            objects == &doc.objects,
            with_ident.len() <= out@.len(),
            out@.subrange(0, with_ident.len() as int) == with_ident,
            objects_code(objects@, i as int) == Some(
                out@.subrange(with_ident.len() as int, out@.len() as int),
            ),
        decreases objects@.len() - i,
    {
        let ghost before = out@;
        match encode(&objects[i].2) {
            Some(c) => {
                push_be(&mut out, objects[i].0 as u64, 4);
                push_be(&mut out, objects[i].1 as u64, 2);
                push_all(&mut out, &c);
                assert(out@.subrange(0, with_ident.len() as int) =~= with_ident);
                assert(out@.subrange(with_ident.len() as int, out@.len() as int) =~= before.subrange(
                    with_ident.len() as int,
                    before.len() as int,
                ) + be(objects@[i as int].0 as nat, 4) + be(objects@[i as int].1 as nat, 2) + c@);
                i = i + 1;
            },
            None => {
                proof {
                    lemma_objects_code_fail(objects@, i + 1, objects@.len() as int);
                }
                return None;
            },
        }
    }
    assert(out@ =~= ascii("ccvl-semantic-pdf-v1"@) + ident + out@.subrange(
        with_ident.len() as int,
        out@.len() as int,
    ));
    Some(out)
}

/// The SHA-256 digest of a byte string.
pub uninterp spec fn sha256_of(bytes: Seq<u8>) -> Seq<u8>;

/// Computes `sha2::Sha256::digest` of `bytes`. The contract names the
/// digest and states its length, 32 bytes, which the algorithm fixes.
#[verifier::external_body]
pub(crate) fn sha256(bytes: &Vec<u8>) -> (r: Vec<u8>)
    ensures
        r@ == sha256_of(bytes@),
        r@.len() == 32,
{
    sha2::Sha256::digest(bytes.as_slice()).to_vec()
}

/// Why a PDF file is refused. Pages are numbered from 1.
#[derive(Debug, PartialEq)]
pub enum PdfError {
    /// The bytes are not a PDF file that can be parsed.
    Unparsable,
    /// A stream cannot be decoded for the semantic comparison.
    UndecodableStream,
    Encrypted,
    PageCount { rendered: usize, expected: usize },
    /// The trailer names no catalog dictionary.
    NoCatalog,
    ForbiddenCatalogEntry(String),
    /// The name tree holds JavaScript or embedded files.
    ActiveContent,
    PageUnreadable(usize),
    PageAction(usize),
    NoMediaBox(usize),
    MediaBoxNotArray(usize),
    InvalidMediaBox(usize),
    MediaBoxNotNumbers(usize),
    NotA4(usize),
    FontsUnreadable(usize),
    /// A font dictionary without a `BaseFont` name.
    FontWithoutName(usize),
    /// A font that is not a subset of the bundled family.
    FallbackFont(Vec<u8>),
    FontWithoutUnicodeMap(Vec<u8>),
    NoFonts,
    NoEmbeddedFont,
    MissingImage,
    TextExtraction,
    NoTextLayer,
    MissingContact(String),
    MissingPage(u32),
}

/// Why a PDF file is refused, as plain values.
pub enum PdfFault {
    Unparsable,
    UndecodableStream,
    Encrypted,
    PageCount { rendered: nat, expected: nat },
    NoCatalog,
    ForbiddenCatalogEntry(Seq<char>),
    ActiveContent,
    PageUnreadable(nat),
    PageAction(nat),
    NoMediaBox(nat),
    MediaBoxNotArray(nat),
    InvalidMediaBox(nat),
    MediaBoxNotNumbers(nat),
    NotA4(nat),
    FontsUnreadable(nat),
    FontWithoutName(nat),
    FallbackFont(Seq<u8>),
    FontWithoutUnicodeMap(Seq<u8>),
    NoFonts,
    NoEmbeddedFont,
    MissingImage,
    TextExtraction,
    NoTextLayer,
    MissingContact(Seq<char>),
    MissingPage(nat),
}

impl View for PdfError {
    type V = PdfFault;

    open spec fn view(&self) -> PdfFault {
        match self {
            PdfError::Unparsable => PdfFault::Unparsable,
            PdfError::UndecodableStream => PdfFault::UndecodableStream,
            PdfError::Encrypted => PdfFault::Encrypted,
            PdfError::PageCount { rendered, expected } => PdfFault::PageCount {
                rendered: *rendered as nat,
                expected: *expected as nat,
            },
            PdfError::NoCatalog => PdfFault::NoCatalog,
            PdfError::ForbiddenCatalogEntry(k) => PdfFault::ForbiddenCatalogEntry(k@),
            PdfError::ActiveContent => PdfFault::ActiveContent,
            PdfError::PageUnreadable(p) => PdfFault::PageUnreadable(*p as nat),
            PdfError::PageAction(p) => PdfFault::PageAction(*p as nat),
            PdfError::NoMediaBox(p) => PdfFault::NoMediaBox(*p as nat),
            PdfError::MediaBoxNotArray(p) => PdfFault::MediaBoxNotArray(*p as nat),
            PdfError::InvalidMediaBox(p) => PdfFault::InvalidMediaBox(*p as nat),
            PdfError::MediaBoxNotNumbers(p) => PdfFault::MediaBoxNotNumbers(*p as nat),
            PdfError::NotA4(p) => PdfFault::NotA4(*p as nat),
            PdfError::FontsUnreadable(p) => PdfFault::FontsUnreadable(*p as nat),
            PdfError::FontWithoutName(p) => PdfFault::FontWithoutName(*p as nat),
            PdfError::FallbackFont(n) => PdfFault::FallbackFont(n@),
            PdfError::FontWithoutUnicodeMap(n) => PdfFault::FontWithoutUnicodeMap(n@),
            PdfError::NoFonts => PdfFault::NoFonts,
            PdfError::NoEmbeddedFont => PdfFault::NoEmbeddedFont,
            PdfError::MissingImage => PdfFault::MissingImage,
            PdfError::TextExtraction => PdfFault::TextExtraction,
            PdfError::NoTextLayer => PdfFault::NoTextLayer,
            PdfError::MissingContact(c) => PdfFault::MissingContact(c@),
            PdfError::MissingPage(p) => PdfFault::MissingPage(*p as nat),
        }
    }
}

/// The semantic signature of a document: the SHA-256 digest of its canonical
/// bytes, in which stream contents are decoded, stream encodings and
/// rendition identifiers are left out, and dictionaries are ordered by key.
pub fn semantic_signature(doc: &PdfDocument) -> (r: Result<Vec<u8>, PdfError>)
    ensures
        match semantic_code(*doc) {
            Some(c) => r matches Ok(v) && v@ == sha256_of(c),
            None => r matches Err(e) && e@ == PdfFault::UndecodableStream,
        },
{
    match semantic_bytes(doc) {
        Some(bytes) => Ok(sha256(&bytes)),
        None => Err(PdfError::UndecodableStream),
    }
}

/// The document that `lopdf` parses from `bytes`.
#[verifier::external_type_specification]
#[verifier::external_body]
pub struct ExParsedDocument(lopdf::Document);

/// An object of a document that `lopdf` parsed.
#[verifier::external_type_specification]
#[verifier::external_body]
pub struct ExParsedObject(lopdf::Object);

/// A dictionary of a document that `lopdf` parsed.
#[verifier::external_type_specification]
#[verifier::external_body]
pub struct ExParsedDictionary(lopdf::Dictionary);

/// The model of the PDF file held in `bytes`, as `lopdf` parses and reads
/// it, or `None` where `lopdf` cannot parse the bytes.
pub uninterp spec fn pdf_model(bytes: Seq<u8>) -> Option<PdfDocument>;

/// Parses `bytes` with `lopdf::Document::load_mem` and reads the parsed
/// document into the model that the checks read. The contract names the
/// result, `pdf_model` of the bytes; what `lopdf` parses and extracts is
/// not stated.
#[verifier::external_body]
pub fn load_pdf(bytes: &Vec<u8>) -> (r: Option<PdfDocument>)
    ensures
        r == pdf_model(bytes@),
{
    match lopdf::Document::load_mem(bytes.as_slice()) {
        Ok(document) => Some(document_model(&document)),
        Err(_) => None,
    }
}

/// Part of `load_pdf`: a parsed document as the model holds it, with
/// `lopdf`'s `get_pages`, `get_page_fonts`, `get_page_content` and
/// `extract_text`.
#[verifier::external_body]
fn document_model(document: &lopdf::Document) -> PdfDocument {
    let page_map = document.get_pages();
    let pages: Vec<(u32, u16)> = page_map.values().copied().collect();
    let numbers: Vec<u32> = page_map.keys().copied().collect();
    let contents = pages.iter().map(|id| document.get_page_content(*id)).collect();
    PdfDocument {
        trailer: dictionary_model(&document.trailer),
        objects: document.objects.iter().map(|((n, g), o)| (*n, *g, object_model(o))).collect(),
        fonts: fonts_model(document, &pages),
        contents,
        text: document.extract_text(&numbers).ok(),
        pages,
    }
}

/// Part of `load_pdf`: the font dictionaries of each page, by
/// `lopdf::Document::get_page_fonts`.
#[verifier::external_body]
fn fonts_model(document: &lopdf::Document, pages: &Vec<(u32, u16)>) -> Vec<Option<Vec<Vec<(Vec<u8>, PdfObject)>>>> {
    pages
        .iter()
        .map(|id| document.get_page_fonts(*id).ok().map(|f| f.values().map(|d| dictionary_model(d)).collect()))
        .collect()
}

/// Part of `load_pdf`: a dictionary's entries in stored order.
#[verifier::external_body]
fn dictionary_model(dictionary: &lopdf::Dictionary) -> Vec<(Vec<u8>, PdfObject)> {
    dictionary.iter().map(|(k, v)| (k.clone(), object_model(v))).collect()
}

/// Part of `load_pdf`: an object as the model holds it; a stream's content
/// is decoded with `lopdf::Stream::get_plain_content`.
#[verifier::external_body]
fn object_model(object: &lopdf::Object) -> PdfObject {
    match object {
        Object::Null => PdfObject::Null,
        Object::Boolean(b) => PdfObject::Boolean(*b),
        Object::Integer(i) => PdfObject::Integer(*i),
        Object::Real(r) => PdfObject::Real(r.to_bits()),
        Object::Name(v) => PdfObject::Name(v.clone()),
        Object::String(v, _) => PdfObject::Str(v.clone()),
        Object::Array(items) => PdfObject::Array(items.iter().map(object_model).collect()),
        Object::Dictionary(d) => PdfObject::Dictionary(dictionary_model(d)),
        Object::Stream(t) => PdfObject::Stream(dictionary_model(&t.dict), t.get_plain_content().ok()),
        Object::Reference((n, g)) => PdfObject::Reference(*n, *g),
    }
}

/// `verify` on the PDF file held in `bytes`: `Unparsable` where it cannot
/// be parsed, else the release checks of its model.
pub fn verify_bytes(
    bytes: &Vec<u8>,
    expected_pages: usize,
    contacts: &Vec<String>,
    require_image: bool,
    a4: &Vec<bool>,
) -> (r: Result<VerifiedPdf, PdfError>)
    ensures
        pdf_model(bytes@) is None ==> (r matches Err(e) && e@ == PdfFault::Unparsable),
        pdf_model(bytes@) matches Some(doc) ==> match verify_outcome(
            doc,
            expected_pages as nat,
            texts(contacts@),
            require_image,
            a4@,
        ) {
            Ok(_) => r matches Ok(v) && v.document() == doc,
            Err(f) => r matches Err(e) && e@ == f,
        },
{
    match load_pdf(bytes) {
        Some(doc) => verify(doc, expected_pages, contacts, require_image, a4),
        None => Err(PdfError::Unparsable),
    }
}

/// `semantic_signature` of the PDF file held in `bytes`: `Unparsable` where
/// it cannot be parsed.
pub fn signature_of_bytes(bytes: &Vec<u8>) -> (r: Result<Vec<u8>, PdfError>)
    ensures
        pdf_model(bytes@) is None ==> (r matches Err(e) && e@ == PdfFault::Unparsable),
        pdf_model(bytes@) matches Some(doc) ==> match semantic_code(doc) {
            Some(c) => r matches Ok(v) && v@ == sha256_of(c),
            None => r matches Err(e) && e@ == PdfFault::UndecodableStream,
        },
{
    match load_pdf(bytes) {
        Some(doc) => semantic_signature(&doc),
        None => Err(PdfError::Unparsable),
    }
}

// ---------------------------------------------------------------------------
// Looking objects up
// ---------------------------------------------------------------------------

/// How many references a lookup follows before it gives up.
pub const REFERENCE_HOPS: u64 = 128;

/// `o`, with references followed through `objects`; `hops` were followed
/// already. `None` where a reference names no object or the chain is longer
/// than the hop limit.
pub open spec fn follow(objects: Seq<(u32, u16, PdfObject)>, o: PdfObject, hops: int) -> Option<
    PdfObject,
>
    decreases REFERENCE_HOPS - hops,
{
    match o {
        PdfObject::Reference(n, g) => match object_at(objects, (n, g)) {
            None => None,
            Some(next) => if 0 <= hops && hops + 1 <= REFERENCE_HOPS {
                follow(objects, next, hops + 1)
            } else {
                None
            },
        },
        _ => Some(o),
    }
}

/// The object under `id`, with references followed.
pub open spec fn object_of(objects: Seq<(u32, u16, PdfObject)>, id: (u32, u16)) -> Option<PdfObject> {
    match object_at(objects, id) {
        Some(o) => follow(objects, o, 0),
        None => None,
    }
}

/// The dictionary under `id`, with references followed.
pub open spec fn dictionary_of(objects: Seq<(u32, u16, PdfObject)>, id: (u32, u16)) -> Option<
    Vec<(Vec<u8>, PdfObject)>,
> {
    match object_of(objects, id) {
        Some(PdfObject::Dictionary(d)) => Some(d),
        _ => None,
    }
}

/// The dictionary under `id`, with references followed.
pub fn dictionary<'a>(objects: &'a Vec<(u32, u16, PdfObject)>, id: (u32, u16)) -> (r: Option<
    &'a Vec<(Vec<u8>, PdfObject)>,
>)
    ensures
        match r {
            Some(d) => dictionary_of(objects@, id) == Some(*d),
            None => dictionary_of(objects@, id) is None,
        },
{
    let mut o = match stored(objects, id) {
        Some(o) => o,
        None => return None,
    };
    let mut hops: u64 = 0;
    loop
        invariant
            hops <= REFERENCE_HOPS,
            object_of(objects@, id) == follow(objects@, *o, hops as int),
        decreases REFERENCE_HOPS - hops,
    {
        match o {
            PdfObject::Reference(n, g) => {
                match stored(objects, (*n, *g)) {
                    Some(next) => {
                        if hops + 1 > REFERENCE_HOPS {
                            return None;
                        }
                        o = next;
                        hops = hops + 1;
                    },
                    None => return None,
                }
            },
            PdfObject::Dictionary(d) => return Some(d),
            _ => return None,
        }
    }
}

/// The catalog: the dictionary that the trailer's `Root` names.
pub open spec fn catalog_of(doc: PdfDocument) -> Option<Vec<(Vec<u8>, PdfObject)>> {
    match dict_get(doc.trailer@, ascii("Root"@)) {
        Some(PdfObject::Reference(n, g)) => dictionary_of(doc.objects@, (n, g)),
        _ => None,
    }
}

/// The dictionary under `key` in `d`, held there or referenced.
pub open spec fn dictionary_in(
    objects: Seq<(u32, u16, PdfObject)>,
    d: Seq<(Vec<u8>, PdfObject)>,
    key: Seq<u8>,
) -> Option<Vec<(Vec<u8>, PdfObject)>> {
    match dict_get(d, key) {
        Some(PdfObject::Dictionary(e)) => Some(e),
        Some(PdfObject::Reference(n, g)) => dictionary_of(objects, (n, g)),
        _ => None,
    }
}

/// The value under `key` in the dictionary `id` or, where it has none, in
/// the nearest ancestor through `Parent` references that has one. At most
/// `fuel` dictionaries are visited.
pub open spec fn inherited(
    objects: Seq<(u32, u16, PdfObject)>,
    id: (u32, u16),
    key: Seq<u8>,
    fuel: nat,
) -> Option<PdfObject>
    decreases fuel,
{
    if fuel == 0 {
        None
    } else {
        match dictionary_of(objects, id) {
            None => None,
            Some(d) => match dict_get(d@, key) {
                Some(v) => Some(v),
                None => match dict_get(d@, ascii("Parent"@)) {
                    Some(PdfObject::Reference(n, g)) => inherited(
                        objects,
                        (n, g),
                        key,
                        (fuel - 1) as nat,
                    ),
                    _ => None,
                },
            },
        }
    }
}

/// The value that a page inherits under `key`. Every visited dictionary is
/// an object of the document, so a chain that would visit more dictionaries
/// than there are objects meets a missing object or runs in a cycle, and
/// finds no value either way.
pub open spec fn page_value(doc: PdfDocument, id: (u32, u16), key: Seq<u8>) -> Option<PdfObject> {
    inherited(doc.objects@, id, key, doc.objects@.len())
}

/// The value that the dictionary `id` inherits under `key`.
pub fn inherited_value<'a>(doc: &'a PdfDocument, id: (u32, u16), key: &str) -> (r: Option<
    &'a PdfObject,
>)
    ensures
        match r {
            Some(v) => page_value(*doc, id, ascii(key@)) == Some(*v),
            None => page_value(*doc, id, ascii(key@)) is None,
        },
{
    let objects = &doc.objects;
    let mut fuel: usize = objects.len();
    let mut at = id;
    loop
        invariant
            objects == &doc.objects,
            page_value(*doc, id, ascii(key@)) == inherited(objects@, at, ascii(key@), fuel as nat),
        decreases fuel,
    {
        if fuel == 0 {
            return None;
        }
        let d = match dictionary(objects, at) {
            Some(d) => d,
            None => return None,
        };
        match get(d, key) {
            Some(v) => return Some(v),
            None => {},
        }
        match get(d, "Parent") {
            Some(PdfObject::Reference(n, g)) => {
                at = (*n, *g);
                fuel = fuel - 1;
            },
            _ => return None,
        }
    }
}

// ---------------------------------------------------------------------------
// The release checks
// ---------------------------------------------------------------------------

/// The object is a number: an integer or a real.
pub open spec fn is_number(o: PdfObject) -> bool {
    o is Integer || o is Real
}

/// One of the styles of the bundled font family.
pub open spec fn bundled_style(t: Seq<u8>) -> bool {
    t == ascii("Bold"@) || t == ascii("Italic"@) || t == ascii("Medium"@) || t == ascii("Regular"@)
}

/// A subset of the bundled family: six capital letters, `+`, `Archivo-` and
/// a style, and nothing more.
pub open spec fn bundled_font_name(n: Seq<u8>) -> bool {
    &&& n.len() >= 15
    &&& forall|k: int| 0 <= k < 6 ==> 65 <= #[trigger] n[k] <= 90
    &&& n[6] == 43u8
    &&& n.subrange(7, 15) == ascii("Archivo-"@)
    &&& bundled_style(n.subrange(15, n.len() as int))
}

/// What is wrong with a font dictionary of page `page`.
pub open spec fn font_fault(f: Seq<(Vec<u8>, PdfObject)>, page: nat) -> Option<PdfFault> {
    match dict_get(f, ascii("BaseFont"@)) {
        Some(PdfObject::Name(n)) => if !bundled_font_name(n@) {
            Some(PdfFault::FallbackFont(n@))
        } else if !dict_has(f, ascii("ToUnicode"@)) {
            Some(PdfFault::FontWithoutUnicodeMap(n@))
        } else {
            None
        },
        _ => Some(PdfFault::FontWithoutName(page)),
    }
}

/// The first fault among the first `n` fonts of page `page`.
pub open spec fn fonts_fault(fonts: Seq<Vec<(Vec<u8>, PdfObject)>>, n: int, page: nat) -> Option<
    PdfFault,
>
    decreases n,
{
    if n <= 0 || n > fonts.len() {
        None
    } else {
        match fonts_fault(fonts, n - 1, page) {
            Some(f) => Some(f),
            None => font_fault(fonts[n - 1]@, page),
        }
    }
}

/// The fonts of the page at index `i`.
pub open spec fn page_fonts(doc: PdfDocument, i: int) -> Option<Vec<Vec<(Vec<u8>, PdfObject)>>> {
    if 0 <= i < doc.fonts@.len() {
        doc.fonts@[i]
    } else {
        None
    }
}

/// The page at index `i` measures A4, as the caller judged its MediaBox.
pub open spec fn flag(a4: Seq<bool>, i: int) -> bool {
    0 <= i < a4.len() && a4[i]
}

/// What is wrong with the page at index `i`.
pub open spec fn page_fault(doc: PdfDocument, i: int, a4: Seq<bool>) -> Option<PdfFault> {
    let number = (i + 1) as nat;
    let id = doc.pages@[i];
    match dictionary_of(doc.objects@, id) {
        None => Some(PdfFault::PageUnreadable(number)),
        Some(page) => if dict_has(page@, ascii("AA"@)) {
            Some(PdfFault::PageAction(number))
        } else {
            match page_value(doc, id, ascii("MediaBox"@)) {
                None => Some(PdfFault::NoMediaBox(number)),
                Some(PdfObject::Array(media)) => if media@.len() != 4 {
                    Some(PdfFault::InvalidMediaBox(number))
                } else if !(is_number(media@[0]) && is_number(media@[1]) && is_number(media@[2])
                    && is_number(media@[3])) {
                    Some(PdfFault::MediaBoxNotNumbers(number))
                } else if !flag(a4, i) {
                    Some(PdfFault::NotA4(number))
                } else {
                    match page_fonts(doc, i) {
                        None => Some(PdfFault::FontsUnreadable(number)),
                        Some(fonts) => fonts_fault(fonts@, fonts@.len() as int, number),
                    }
                },
                Some(_) => Some(PdfFault::MediaBoxNotArray(number)),
            }
        },
    }
}

/// The first fault among the first `n` pages.
pub open spec fn pages_fault(doc: PdfDocument, a4: Seq<bool>, n: int) -> Option<PdfFault>
    decreases n,
{
    if n <= 0 || n > doc.pages@.len() {
        None
    } else {
        match pages_fault(doc, a4, n - 1) {
            Some(f) => Some(f),
            None => page_fault(doc, n - 1, a4),
        }
    }
}

/// How many fonts the first `n` pages use.
pub open spec fn font_total(doc: PdfDocument, n: int) -> nat
    decreases n,
{
    if n <= 0 {
        0
    } else {
        font_total(doc, n - 1) + match page_fonts(doc, n - 1) {
            Some(fonts) => fonts@.len(),
            None => 0,
        }
    }
}

/// The dictionary of a dictionary or stream object.
pub open spec fn object_dictionary(o: PdfObject) -> Option<Vec<(Vec<u8>, PdfObject)>> {
    match o {
        PdfObject::Dictionary(d) => Some(d),
        PdfObject::Stream(d, _) => Some(d),
        _ => None,
    }
}

/// The object describes an embedded font program.
pub open spec fn carries_font_program(o: PdfObject) -> bool {
    match object_dictionary(o) {
        Some(d) => dict_has(d@, ascii("FontFile"@)) || dict_has(d@, ascii("FontFile2"@)) || dict_has(
            d@,
            ascii("FontFile3"@),
        ),
        None => false,
    }
}

/// The object is an image.
pub open spec fn is_image(o: PdfObject) -> bool {
    match object_dictionary(o) {
        Some(d) => dict_get(d@, ascii("Subtype"@)) matches Some(PdfObject::Name(n)) && n@ == ascii(
            "Image"@,
        ),
        None => false,
    }
}

/// The characters of `s` that are not white space.
pub open spec fn non_white(s: Seq<char>) -> nat
    decreases s.len(),
{
    if s.len() == 0 {
        0
    } else {
        non_white(s.drop_last()) + if is_white(s.last()) { 0nat } else { 1nat }
    }
}

/// `p` occurs in `s`.
pub open spec fn has_part(s: Seq<char>, p: Seq<char>) -> bool {
    exists|i: int| 0 <= i <= s.len() - p.len() && #[trigger] s.subrange(i, i + p.len()) == p
}

/// The first of the first `n` contacts that the text lacks.
pub open spec fn missing_contact(text: Seq<char>, contacts: Seq<Seq<char>>, n: int) -> Option<Seq<char>>
    decreases n,
{
    if n <= 0 || n > contacts.len() {
        None
    } else {
        match missing_contact(text, contacts, n - 1) {
            Some(c) => Some(c),
            None => if has_part(text, contacts[n - 1]) {
                None
            } else {
                Some(contacts[n - 1])
            },
        }
    }
}

/// The name tree holds JavaScript or embedded files.
pub open spec fn active_names(doc: PdfDocument, catalog: Vec<(Vec<u8>, PdfObject)>) -> bool {
    match dictionary_in(doc.objects@, catalog@, ascii("Names"@)) {
        Some(names) => dict_has(names@, ascii("JavaScript"@)) || dict_has(
            names@,
            ascii("EmbeddedFiles"@),
        ),
        None => false,
    }
}

/// The texts of a list of strings.
pub open spec fn texts(v: Seq<String>) -> Seq<Seq<char>> {
    v.map_values(|c: String| c@)
}

/// What the release checks conclude of a rendered file that should have
/// `expected` pages and carry each contact text; `a4` tells, page by page,
/// whether its MediaBox measures A4.
pub open spec fn verify_outcome(
    doc: PdfDocument,
    expected: nat,
    contacts: Seq<Seq<char>>,
    require_image: bool,
    a4: Seq<bool>,
) -> Result<(), PdfFault> {
    let n = doc.pages@.len() as int;
    if dict_has(doc.trailer@, ascii("Encrypt"@)) {
        Err(PdfFault::Encrypted)
    } else if n != expected {
        Err(PdfFault::PageCount { rendered: n as nat, expected })
    } else {
        match catalog_of(doc) {
            None => Err(PdfFault::NoCatalog),
            Some(catalog) => if dict_has(catalog@, ascii("AcroForm"@)) {
                Err(PdfFault::ForbiddenCatalogEntry("AcroForm"@))
            } else if dict_has(catalog@, ascii("OpenAction"@)) {
                Err(PdfFault::ForbiddenCatalogEntry("OpenAction"@))
            } else if dict_has(catalog@, ascii("AA"@)) {
                Err(PdfFault::ForbiddenCatalogEntry("AA"@))
            } else if active_names(doc, catalog) {
                Err(PdfFault::ActiveContent)
            } else {
                match pages_fault(doc, a4, n) {
                    Some(f) => Err(f),
                    None => if font_total(doc, n) == 0 {
                        Err(PdfFault::NoFonts)
                    } else if !(exists|k: int|
                        0 <= k < doc.objects@.len() && carries_font_program(
                            #[trigger] doc.objects@[k].2,
                        )) {
                        Err(PdfFault::NoEmbeddedFont)
                    } else if require_image && !(exists|k: int|
                        0 <= k < doc.objects@.len() && is_image(#[trigger] doc.objects@[k].2)) {
                        Err(PdfFault::MissingImage)
                    } else {
                        match doc.text {
                            None => Err(PdfFault::TextExtraction),
                            Some(t) => if non_white(t@) < 100 {
                                Err(PdfFault::NoTextLayer)
                            } else {
                                match missing_contact(t@, contacts, contacts.len() as int) {
                                    Some(c) => Err(PdfFault::MissingContact(c)),
                                    None => Ok(()),
                                }
                            },
                        }
                    },
                }
            },
        }
    }
}

/// `n` holds the bytes of `lit` from `at` to its end.
fn tail_is(n: &Vec<u8>, at: usize, lit: &str) -> (r: bool)
    requires
        at <= n@.len(),
    ensures
        r == (n@.subrange(at as int, n@.len() as int) == ascii(lit@)),
{
    let m = lit.unicode_len();
    if n.len() - at != m {
        proof {
            if n@.subrange(at as int, n@.len() as int) == ascii(lit@) {
                assert(ascii(lit@).len() == m);
            }
        }
        return false;
    }
    bytes_at(n, at, lit)
}

/// The name is a subset of the bundled family.
fn bundled_font(n: &Vec<u8>) -> (r: bool)
    ensures
        r == bundled_font_name(n@),
{
    proof {
        reveal_strlit("Archivo-");
    }
    if n.len() < 15 {
        return false;
    }
    let mut k: usize = 0;
    while k < 6
        invariant
            k <= 6,
            n@.len() >= 15,
            forall|t: int| 0 <= t < k ==> 65 <= #[trigger] n@[t] <= 90,
        decreases 6 - k,
    {
        if n[k] < 65 || n[k] > 90 {
            return false;
        }
        k = k + 1;
    }
    if n[6] != 43u8 {
        return false;
    }
    if !bytes_at(n, 7, "Archivo-") {
        return false;
    }
    tail_is(n, 15, "Bold") || tail_is(n, 15, "Italic") || tail_is(n, 15, "Medium") || tail_is(
        n,
        15,
        "Regular",
    )
}

/// What is wrong with a font dictionary of page `page`.
fn font_check(f: &Vec<(Vec<u8>, PdfObject)>, page: usize) -> (r: Option<PdfError>)
    ensures
        match font_fault(f@, page as nat) {
            Some(x) => r matches Some(e) && e@ == x,
            None => r is None,
        },
{
    match get(f, "BaseFont") {
        Some(PdfObject::Name(n)) => {
            if !bundled_font(n) {
                Some(PdfError::FallbackFont(copy_bytes(n)))
            } else if !has_key(f, "ToUnicode") {
                Some(PdfError::FontWithoutUnicodeMap(copy_bytes(n)))
            } else {
                None
            }
        },
        _ => Some(PdfError::FontWithoutName(page)),
    }
}

/// The object is a number.
fn number_object(o: &PdfObject) -> (r: bool)
    ensures
        r == is_number(*o),
{
    match o {
        PdfObject::Integer(_) => true,
        PdfObject::Real(_) => true,
        _ => false,
    }
}

/// The MediaBox array that the page at index `i` inherits, if it has one.
pub fn media_box(doc: &PdfDocument, i: usize) -> (r: Option<&Vec<PdfObject>>)
    ensures
        match r {
            Some(m) => i < doc.pages@.len() && page_value(*doc, doc.pages@[i as int], ascii("MediaBox"@))
                == Some(PdfObject::Array(*m)),
            None => i >= doc.pages@.len() || !(page_value(
                *doc,
                doc.pages@[i as int],
                ascii("MediaBox"@),
            ) matches Some(PdfObject::Array(_))),
        },
{
    if i >= doc.pages.len() {
        return None;
    }
    match inherited_value(doc, doc.pages[i], "MediaBox") {
        Some(PdfObject::Array(m)) => Some(m),
        _ => None,
    }
}

proof fn lemma_fonts_fault_stays(fonts: Seq<Vec<(Vec<u8>, PdfObject)>>, k: int, m: int, page: nat)
    requires
        0 < k <= m <= fonts.len(),
        fonts_fault(fonts, k, page) is Some,
    ensures
        fonts_fault(fonts, m, page) == fonts_fault(fonts, k, page),
    decreases m - k,
{
    if m > k {
        lemma_fonts_fault_stays(fonts, k, m - 1, page);
    }
}

proof fn lemma_pages_fault_stays(doc: PdfDocument, a4: Seq<bool>, k: int, m: int)
    requires
        0 < k <= m <= doc.pages@.len(),
        pages_fault(doc, a4, k) is Some,
    ensures
        pages_fault(doc, a4, m) == pages_fault(doc, a4, k),
    decreases m - k,
{
    if m > k {
        lemma_pages_fault_stays(doc, a4, k, m - 1);
    }
}

proof fn lemma_missing_contact_stays(text: Seq<char>, contacts: Seq<Seq<char>>, k: int, m: int)
    requires
        0 < k <= m <= contacts.len(),
        missing_contact(text, contacts, k) is Some,
    ensures
        missing_contact(text, contacts, m) == missing_contact(text, contacts, k),
    decreases m - k,
{
    if m > k {
        lemma_missing_contact_stays(text, contacts, k, m - 1);
    }
}

/// What is wrong with the page at index `i`.
#[verifier::loop_isolation(false)]
fn page_check(doc: &PdfDocument, i: usize, a4: &Vec<bool>) -> (r: Option<PdfError>)
    requires
        i < doc.pages@.len(),
    ensures
        match page_fault(*doc, i as int, a4@) {
            Some(f) => r matches Some(e) && e@ == f,
            None => r is None,
        },
{
    let len = doc.pages.len();
    let number = i + 1;
    let id = doc.pages[i];
    let page = match dictionary(&doc.objects, id) {
        Some(p) => p,
        None => return Some(PdfError::PageUnreadable(number)),
    };
    if has_key(page, "AA") {
        return Some(PdfError::PageAction(number));
    }
    let media = match inherited_value(doc, id, "MediaBox") {
        None => return Some(PdfError::NoMediaBox(number)),
        Some(PdfObject::Array(m)) => m,
        Some(_) => return Some(PdfError::MediaBoxNotArray(number)),
    };
    if media.len() != 4 {
        return Some(PdfError::InvalidMediaBox(number));
    }
    if !(number_object(&media[0]) && number_object(&media[1]) && number_object(&media[2])
        && number_object(&media[3])) {
        return Some(PdfError::MediaBoxNotNumbers(number));
    }
    if !(i < a4.len() && a4[i]) {
        return Some(PdfError::NotA4(number));
    }
    if i >= doc.fonts.len() {
        return Some(PdfError::FontsUnreadable(number));
    }
    match &doc.fonts[i] {
        None => Some(PdfError::FontsUnreadable(number)),
        Some(fonts) => {
            let mut k: usize = 0;
            while k < fonts.len()
                invariant
                    k <= fonts@.len(),
                    fonts_fault(fonts@, k as int, number as nat) is None,
                decreases fonts@.len() - k,
            {
                match font_check(&fonts[k], number) {
                    Some(e) => {
                        proof {
                            lemma_fonts_fault_stays(fonts@, k + 1, fonts@.len() as int, number as nat);
                        }
                        return Some(e);
                    },
                    None => {
                        k = k + 1;
                    },
                }
            }
            None
        },
    }
}

/// How many characters of `s` are not white space.
fn non_white_count(s: &str) -> (r: usize)
    ensures
        r == non_white(s@),
{
    let n = s.unicode_len();
    let mut count: usize = 0;
    let mut i: usize = 0;
    assert(s@.subrange(0, 0) =~= Seq::<char>::empty());
    while i < n
        invariant
            n == s@.len(),
            i <= n,
            count <= i,
            count == non_white(s@.subrange(0, i as int)),
        decreases n - i,
    {
        let c = s.get_char(i);
        assert(s@.subrange(0, i + 1).drop_last() =~= s@.subrange(0, i as int));
        if !white(c) {
            count = count + 1;
        }
        i = i + 1;
    }
    assert(s@.subrange(0, n as int) =~= s@);
    count
}

/// `p` occurs in `s` at `i`.
fn part_at(s: &str, p: &str, i: usize, m: usize, n: usize) -> (r: bool)
    requires
        m == p@.len(),
        n == s@.len(),
        i + m <= n,
    ensures
        r == (s@.subrange(i as int, i + m) == p@),
{
    let mut k: usize = 0;
    while k < m
        invariant
            m == p@.len(),
            n == s@.len(),
            i + m <= n,
            k <= m,
            forall|t: int| 0 <= t < k ==> s@[i + t] == p@[t],
        decreases m - k,
    {
        if s.get_char(i + k) != p.get_char(k) {
            assert(s@.subrange(i as int, i + m)[k as int] == s@[i + k]);
            return false;
        }
        k = k + 1;
    }
    assert(s@.subrange(i as int, i + m) =~= p@);
    true
}

/// `p` occurs in `s`.
pub fn contains_text(s: &str, p: &str) -> (r: bool)
    ensures
        r == has_part(s@, p@),
{
    let n = s.unicode_len();
    let m = p.unicode_len();
    if m > n {
        return false;
    }
    let mut i: usize = 0;
    loop
        invariant
            n == s@.len(),
            m == p@.len(),
            m <= n,
            i <= n - m,
            forall|j: int| 0 <= j < i ==> #[trigger] s@.subrange(j, j + m) != p@,
        decreases n - m - i,
    {
        if part_at(s, p, i, m, n) {
            return true;
        }
        if i == n - m {
            return false;
        }
        i = i + 1;
    }
}

/// What the release checks find wrong with a rendered file, if anything.
#[verifier::loop_isolation(false)]
fn check_document(
    doc: &PdfDocument,
    expected_pages: usize,
    contacts: &Vec<String>,
    require_image: bool,
    a4: &Vec<bool>,
) -> (r: Option<PdfError>)
    ensures
        match verify_outcome(*doc, expected_pages as nat, texts(contacts@), require_image, a4@) {
            Ok(_) => r is None,
            Err(f) => r matches Some(e) && e@ == f,
        },
{
    if has_key(&doc.trailer, "Encrypt") {
        return Some(PdfError::Encrypted);
    }
    let n = doc.pages.len();
    if n != expected_pages {
        return Some(PdfError::PageCount { rendered: n, expected: expected_pages });
    }
    let catalog = match get(&doc.trailer, "Root") {
        Some(PdfObject::Reference(num, g)) => match dictionary(&doc.objects, (*num, *g)) {
            Some(d) => d,
            None => return Some(PdfError::NoCatalog),
        },
        _ => return Some(PdfError::NoCatalog),
    };
    if has_key(catalog, "AcroForm") {
        return Some(PdfError::ForbiddenCatalogEntry(string_of("AcroForm")));
    }
    if has_key(catalog, "OpenAction") {
        return Some(PdfError::ForbiddenCatalogEntry(string_of("OpenAction")));
    }
    if has_key(catalog, "AA") {
        return Some(PdfError::ForbiddenCatalogEntry(string_of("AA")));
    }
    let names = match get(catalog, "Names") {
        Some(PdfObject::Dictionary(e)) => Some(e),
        Some(PdfObject::Reference(num, g)) => dictionary(&doc.objects, (*num, *g)),
        _ => None,
    };
    match names {
        Some(names) => {
            if has_key(names, "JavaScript") || has_key(names, "EmbeddedFiles") {
                return Some(PdfError::ActiveContent);
            }
        },
        None => {},
    }
    let mut seen = false;
    let mut i: usize = 0;
    while i < n
        invariant
            n == doc.pages@.len(),
            i <= n,
            pages_fault(*doc, a4@, i as int) is None,
            seen == (font_total(*doc, i as int) > 0),
        decreases n - i,
    {
        match page_check(doc, i, a4) {
            Some(e) => {
                proof {
                    lemma_pages_fault_stays(*doc, a4@, i + 1, n as int);
                }
                return Some(e);
            },
            None => {},
        }
        match &doc.fonts[i] {
            Some(fonts) => {
                seen = seen || fonts.len() > 0;
            },
            None => {},
        }
        i = i + 1;
    }
    if !seen {
        return Some(PdfError::NoFonts);
    }
    let objects = &doc.objects;
    let mut k: usize = 0;
    let mut program = false;
    while k < objects.len() && !program
        invariant
            objects == &doc.objects,
            k <= objects@.len(),
            program ==> 0 < k && carries_font_program(objects@[k - 1].2),
            !program ==> forall|t: int| 0 <= t < k ==> !carries_font_program(#[trigger] objects@[t].2),
        decreases objects@.len() - k,
    {
        program = match &objects[k].2 {
            PdfObject::Dictionary(d) => has_key(d, "FontFile") || has_key(d, "FontFile2") || has_key(
                d,
                "FontFile3",
            ),
            PdfObject::Stream(d, _) => has_key(d, "FontFile") || has_key(d, "FontFile2") || has_key(
                d,
                "FontFile3",
            ),
            _ => false,
        };
        k = k + 1;
    }
    if !program {
        return Some(PdfError::NoEmbeddedFont);
    }
    if require_image {
        let mut k: usize = 0;
        let mut image = false;
        while k < objects.len() && !image
            invariant
                objects == &doc.objects,
                k <= objects@.len(),
                image ==> 0 < k && is_image(objects@[k - 1].2),
                !image ==> forall|t: int| 0 <= t < k ==> !is_image(#[trigger] objects@[t].2),
            decreases objects@.len() - k,
        {
            let d = match &objects[k].2 {
                PdfObject::Dictionary(d) => Some(d),
                PdfObject::Stream(d, _) => Some(d),
                _ => None,
            };
            image = match d {
                Some(d) => match get(d, "Subtype") {
                    Some(PdfObject::Name(v)) => key_is(v, "Image"),
                    _ => false,
                },
                None => false,
            };
            k = k + 1;
        }
        if !image {
            return Some(PdfError::MissingImage);
        }
    }
    let text = match &doc.text {
        Some(t) => t,
        None => return Some(PdfError::TextExtraction),
    };
    if non_white_count(text.as_str()) < 100 {
        return Some(PdfError::NoTextLayer);
    }
    let mut c: usize = 0;
    while c < contacts.len()
        invariant
            c <= contacts@.len(),
            missing_contact(text@, texts(contacts@), c as int) is None,
        decreases contacts@.len() - c,
    {
        if !contains_text(text.as_str(), contacts[c].as_str()) {
            proof {
                assert(texts(contacts@)[c as int] == contacts@[c as int]@);
                lemma_missing_contact_stays(text@, texts(contacts@), c + 1, contacts@.len() as int);
            }
            return Some(PdfError::MissingContact(string_of(contacts[c].as_str())));
        }
        c = c + 1;
    }
    None
}

/// A rendered file that passed the release checks.
pub struct VerifiedPdf {
    document: PdfDocument,
}

impl VerifiedPdf {
    /// The checked document.
    pub closed spec fn document(self) -> PdfDocument {
        self.document
    }

    /// The decoded content of page `page`, counted from 1, if it has one.
    pub open spec fn page_bytes(self, page: u32) -> Option<Seq<u8>> {
        if 1 <= page <= self.document().pages@.len() && page - 1 < self.document().contents@.len() {
            Some(self.document().contents@[page - 1]@)
        } else {
            None
        }
    }

    /// The decoded content of page `page`, counted from 1.
    pub fn page_content(&self, page: u32) -> (r: Result<Vec<u8>, PdfError>)
        ensures
            match r {
                Ok(v) => 1 <= page <= self.document().pages@.len() && page - 1
                    < self.document().contents@.len() && v@ == self.document().contents@[page - 1]@,
                Err(e) => e@ == PdfFault::MissingPage(page as nat) && !(1 <= page
                    <= self.document().pages@.len() && page - 1 < self.document().contents@.len()),
            },
    {
        let i = page as usize;
        if page == 0 || i > self.document.pages.len() || i > self.document.contents.len() {
            return Err(PdfError::MissingPage(page));
        }
        Ok(copy_bytes(&self.document.contents[i - 1]))
    }
}

/// Runs the release checks on a rendered file that should have
/// `expected_pages` pages and carry each of `contacts` as text; `a4` tells,
/// page by page, whether the page's MediaBox measures A4 within 0.2 pt.
pub fn verify(
    doc: PdfDocument,
    expected_pages: usize,
    contacts: &Vec<String>,
    require_image: bool,
    a4: &Vec<bool>,
) -> (r: Result<VerifiedPdf, PdfError>)
    ensures
        match verify_outcome(doc, expected_pages as nat, texts(contacts@), require_image, a4@) {
            Ok(_) => r matches Ok(v) && v.document() == doc,
            Err(f) => r matches Err(e) && e@ == f,
        },
{
    match check_document(&doc, expected_pages, contacts, require_image, a4) {
        Some(e) => Err(e),
        None => Ok(VerifiedPdf { document: doc }),
    }
}

proof fn lemma_entry_codes_prefix(d1: Seq<(Vec<u8>, PdfObject)>, d2: Seq<(Vec<u8>, PdfObject)>, n: int, stream: bool)
    requires
        0 <= n <= d1.len(),
        n <= d2.len(),
        forall|t: int| 0 <= t < n ==> d1[t] == d2[t],
    ensures
        entry_codes(d1, n, stream) == entry_codes(d2, n, stream),
    decreases n,
{
    if n > 0 {
        lemma_entry_codes_prefix(d1, d2, n - 1, stream);
        assert(d1[n - 1] == d2[n - 1]);
    }
}

proof fn lemma_encoding_entry_skipped(
    d: Seq<(Vec<u8>, PdfObject)>,
    k: int,
    entry: (Vec<u8>, PdfObject),
    n: int,
)
    requires
        0 <= k <= d.len(),
        encoding_key(entry.0@),
        k < n <= d.len() + 1,
    ensures
        entry_codes(d.insert(k, entry), n, true) == entry_codes(d, n - 1, true),
    decreases n,
{
    let e = d.insert(k, entry);
    if n == k + 1 {
        assert(e[k] == entry);
        lemma_entry_codes_prefix(e, d, k, true);
    } else {
        lemma_encoding_entry_skipped(d, k, entry, n - 1);
        assert(e[n - 1] == d[n - 2]);
    }
}

/// An entry that describes a stream's encoding (`DecodeParms`, `Filter` or
/// `Length`) is not content: adding one anywhere to a stream's dictionary
/// leaves the stream's canonical bytes as they were.
pub proof fn stream_encoding_is_not_content(
    d: Vec<(Vec<u8>, PdfObject)>,
    e: Vec<(Vec<u8>, PdfObject)>,
    k: int,
    entry: (Vec<u8>, PdfObject),
    content: Option<Vec<u8>>,
)
    requires
        0 <= k <= d@.len(),
        encoding_key(entry.0@),
        e@ == d@.insert(k, entry),
    ensures
        code(PdfObject::Stream(e, content)) == code(PdfObject::Stream(d, content)),
{
    lemma_encoding_entry_skipped(d@, k, entry, d@.len() as int + 1);
}

proof fn lemma_tags()
    ensures
        ascii("<xmpMM:InstanceID>"@).len() == 18,
        ascii("</xmpMM:InstanceID>"@).len() == 19,
        ascii("<xmpMM:InstanceID>"@)[0] == 60u8,
        ascii("</xmpMM:InstanceID>"@)[0] == 60u8,
        ascii("<xmpMM:InstanceID>"@)[1] != ascii("</xmpMM:InstanceID>"@)[1],
        forall|t: int| 1 <= t < 18 ==> #[trigger] ascii("<xmpMM:InstanceID>"@)[t] != 60u8,
        forall|t: int| 1 <= t < 19 ==> #[trigger] ascii("</xmpMM:InstanceID>"@)[t] != 60u8,
{
    reveal_strlit("<xmpMM:InstanceID>");
    reveal_strlit("</xmpMM:InstanceID>");
    let o = ascii("<xmpMM:InstanceID>"@);
    let c = ascii("</xmpMM:InstanceID>"@);
    assert(o[0] == ('<' as u8));
    assert(('<' as u8) == 60u8);
    assert forall|t: int| 1 <= t < 18 implies #[trigger] o[t] != 60u8 by {
        assert(o[t] == "<xmpMM:InstanceID>"@[t] as u8);
    }
    assert forall|t: int| 1 <= t < 19 implies #[trigger] c[t] != 60u8 by {
        assert(c[t] == "</xmpMM:InstanceID>"@[t] as u8);
    }
}

proof fn lemma_shift_next_open(s1: Seq<u8>, k1: int, s2: Seq<u8>, k2: int)
    requires
        0 <= k1 <= s1.len(),
        0 <= k2 <= s2.len(),
        s1.subrange(k1, s1.len() as int) == s2.subrange(k2, s2.len() as int),
    ensures
        next_open(s1, k1) - k1 == next_open(s2, k2) - k2,
    decreases s1.len() - k1,
{
    let t1 = s1.subrange(k1, s1.len() as int);
    let t2 = s2.subrange(k2, s2.len() as int);
    assert(t1.len() == t2.len());
    if k1 < s1.len() {
        assert(t1[0] == s1[k1] && t2[0] == s2[k2]);
        if s1[k1] != 60u8 {
            assert(s1.subrange(k1 + 1, s1.len() as int) =~= t1.drop_first());
            assert(s2.subrange(k2 + 1, s2.len() as int) =~= t2.drop_first());
            lemma_shift_next_open(s1, k1 + 1, s2, k2 + 1);
        }
    }
}

proof fn lemma_window(s1: Seq<u8>, i1: int, s2: Seq<u8>, i2: int, a: int, b: int)
    requires
        0 <= i1 <= s1.len(),
        0 <= i2 <= s2.len(),
        s1.subrange(i1, s1.len() as int) == s2.subrange(i2, s2.len() as int),
        0 <= a <= b <= s1.len() - i1,
    ensures
        s1.subrange(i1 + a, i1 + b) == s2.subrange(i2 + a, i2 + b),
{
    let t1 = s1.subrange(i1, s1.len() as int);
    let t2 = s2.subrange(i2, s2.len() as int);
    assert(t1 == t2);
    assert(t1.len() == s1.len() - i1);
    assert(t2.len() == s2.len() - i2);
    assert(s1.subrange(i1 + a, i1 + b) =~= t1.subrange(a, b));
    assert(s2.subrange(i2 + a, i2 + b) =~= t2.subrange(a, b));
}

proof fn lemma_shift_instance_end(s1: Seq<u8>, i1: int, s2: Seq<u8>, i2: int)
    requires
        0 <= i1 <= s1.len(),
        0 <= i2 <= s2.len(),
        s1.subrange(i1, s1.len() as int) == s2.subrange(i2, s2.len() as int),
    ensures
        match instance_end(s1, i1) {
            Some(e) => instance_end(s2, i2) == Some(e - i1 + i2),
            None => instance_end(s2, i2) is None,
        },
{
    lemma_tags();
    let n1 = s1.len() - i1;
    let t1 = s1.subrange(i1, s1.len() as int);
    let t2 = s2.subrange(i2, s2.len() as int);
    assert(t1 == t2);
    assert(t1.len() == n1);
    assert(t2.len() == s2.len() - i2);
    if 18 <= n1 {
        lemma_window(s1, i1, s2, i2, 0, 18);
        if s1.subrange(i1, i1 + 18) == ascii("<xmpMM:InstanceID>"@) {
            lemma_window(s1, i1, s2, i2, 18, n1);
            assert(s1.subrange(i1 + 18, s1.len() as int) =~= s1.subrange(i1 + 18, i1 + n1));
            assert(s2.subrange(i2 + 18, s2.len() as int) =~= s2.subrange(i2 + 18, i2 + n1));
            lemma_shift_next_open(s1, i1 + 18, s2, i2 + 18);
            lemma_next_open(s1, i1 + 18);
            lemma_next_open(s2, i2 + 18);
            let j1 = next_open(s1, i1 + 18);
            if j1 + 19 <= s1.len() {
                lemma_window(s1, i1, s2, i2, j1 - i1, j1 - i1 + 19);
            }
            lemma_window(s1, i1, s2, i2, 18, j1 - i1);
        }
    }
}

/// The rendition identifier normalisation of a text depends only on the
/// text from the given position on.
proof fn lemma_shift_normalized(s1: Seq<u8>, i1: int, s2: Seq<u8>, i2: int)
    requires
        0 <= i1 <= s1.len(),
        0 <= i2 <= s2.len(),
        s1.subrange(i1, s1.len() as int) == s2.subrange(i2, s2.len() as int),
    ensures
        normalized_from(s1, i1) == normalized_from(s2, i2),
    decreases s1.len() - i1,
{
    let t1 = s1.subrange(i1, s1.len() as int);
    let t2 = s2.subrange(i2, s2.len() as int);
    assert(t1 == t2);
    assert(t1.len() == s1.len() - i1);
    assert(t2.len() == s2.len() - i2);
    if i1 < s1.len() {
        lemma_shift_instance_end(s1, i1, s2, i2);
        match instance_end(s1, i1) {
            Some(e) => {
                if i1 < e <= s1.len() {
                    lemma_window(s1, i1, s2, i2, e - i1, s1.len() - i1);
                    assert(s1.subrange(e, s1.len() as int) =~= s1.subrange(i1 + (e - i1), i1 + (s1.len() - i1)));
                    assert(s2.subrange(e - i1 + i2, s2.len() as int) =~= s2.subrange(i2 + (e - i1), i2 + (s1.len() - i1)));
                    lemma_shift_normalized(s1, e, s2, e - i1 + i2);
                }
            },
            None => {
                lemma_window(s1, i1, s2, i2, 0, 1);
                assert(s1[i1] == s1.subrange(i1, i1 + 1)[0]);
                assert(s2[i2] == s2.subrange(i2, i2 + 1)[0]);
                lemma_window(s1, i1, s2, i2, 1, s1.len() - i1);
                assert(s1.subrange(i1 + 1, s1.len() as int) =~= s1.subrange(i1 + 1, i1 + (s1.len() - i1)));
                assert(s2.subrange(i2 + 1, s2.len() as int) =~= s2.subrange(i2 + 1, i2 + (s1.len() - i1)));
                lemma_shift_normalized(s1, i1 + 1, s2, i2 + 1);
            },
        }
    }
}


proof fn lemma_next_open_agree(s1: Seq<u8>, s2: Seq<u8>, k: int, m: int)
    requires
        0 <= k <= m,
        m < s1.len(),
        m < s2.len(),
        forall|t: int| 0 <= t <= m ==> s1[t] == s2[t],
        s1[m] == 60u8,
    ensures
        next_open(s1, k) == next_open(s2, k),
        next_open(s1, k) <= m,
    decreases m - k,
{
    if s1[k] != 60u8 {
        lemma_next_open_agree(s1, s2, k + 1, m);
    }
}

/// A rendition identifier element that starts before an opening tag at `m`
/// ends at or before `m`, and is found alike in two texts that agree up to
/// the end of that tag.
proof fn lemma_instance_before(s1: Seq<u8>, s2: Seq<u8>, m: int, p: int)
    requires
        0 <= p < m,
        m + 18 <= s1.len(),
        m + 18 <= s2.len(),
        forall|t: int| 0 <= t < m + 18 ==> s1[t] == s2[t],
        s1.subrange(m, m + 18) == ascii("<xmpMM:InstanceID>"@),
    ensures
        instance_end(s1, p) == instance_end(s2, p),
        instance_end(s1, p) matches Some(e) ==> e <= m,
{
    lemma_tags();
    let open = ascii("<xmpMM:InstanceID>"@);
    let close = ascii("</xmpMM:InstanceID>"@);
    assert(s1[m] == open[0]);
    assert(s1[m + 1] == open[1]);
    if p + 18 > m {
        assert(s1.subrange(p, p + 18)[m - p] == s1[m]);
        assert(s2.subrange(p, p + 18)[m - p] == s2[m]);
        assert(open[m - p] != 60u8);
        assert(s1.subrange(p, p + 18) != open);
        assert(s2.subrange(p, p + 18) != open);
    } else {
        assert(s1.subrange(p, p + 18) =~= s2.subrange(p, p + 18));
        lemma_next_open_agree(s1, s2, p + 18, m);
        lemma_next_open(s1, p + 18);
        let j = next_open(s1, p + 18);
        if j == m {
            if j + 19 <= s1.len() {
                assert(s1.subrange(j, j + 19)[1] == s1[m + 1]);
                assert(s1.subrange(j, j + 19) != close);
            }
            if j + 19 <= s2.len() {
                assert(s2.subrange(j, j + 19)[1] == s2[m + 1]);
                assert(s2.subrange(j, j + 19) != close);
            }
        } else if j + 19 > m {
            assert(s1.subrange(j, j + 19)[m - j] == s1[m]);
            assert(s2.subrange(j, j + 19)[m - j] == s2[m]);
            assert(close[m - j] != 60u8);
            assert(s1.subrange(j, j + 19) != close);
            assert(s2.subrange(j, j + 19) != close);
        } else {
            assert(s1.subrange(j, j + 19) =~= s2.subrange(j, j + 19));
            assert(s1.subrange(p + 18, j) =~= s2.subrange(p + 18, j));
        }
    }
}

/// Two texts that agree up to the end of an opening tag at `m`, and whose
/// normalisations from `m` on agree, have the same normalisation from any
/// earlier position.
proof fn lemma_normalized_before(s1: Seq<u8>, s2: Seq<u8>, m: int, i: int)
    requires
        0 <= i <= m,
        m + 18 <= s1.len(),
        m + 18 <= s2.len(),
        forall|t: int| 0 <= t < m + 18 ==> s1[t] == s2[t],
        s1.subrange(m, m + 18) == ascii("<xmpMM:InstanceID>"@),
        normalized_from(s1, m) == normalized_from(s2, m),
    ensures
        normalized_from(s1, i) == normalized_from(s2, i),
    decreases m - i,
{
    if i < m {
        lemma_instance_before(s1, s2, m, i);
        match instance_end(s1, i) {
            Some(e) => {
                if i < e {
                    lemma_normalized_before(s1, s2, m, e);
                }
            },
            None => {
                lemma_normalized_before(s1, s2, m, i + 1);
            },
        }
    }
}

proof fn lemma_skip_to_open(s: Seq<u8>, k: int, n: int)
    requires
        0 <= k,
        0 <= n,
        k + n <= s.len(),
        forall|t: int| k <= t < k + n ==> s[t] != 60u8,
    ensures
        next_open(s, k) == next_open(s, k + n),
    decreases n,
{
    if n > 0 {
        lemma_skip_to_open(s, k + 1, n - 1);
    }
}

/// Normalisation of a text that holds a rendition identifier element with
/// identifier `x` right after the prefix `a`.
proof fn lemma_element_normalized(a: Seq<u8>, x: Seq<u8>, b: Seq<u8>)
    requires
        !x.contains(60u8),
        valid_utf8(x),
    ensures
        ({
            let s = a + ascii("<xmpMM:InstanceID>"@) + x + ascii("</xmpMM:InstanceID>"@) + b;
            let m = a.len() as int;
            let e = m + 18 + x.len() + 19;
            &&& e + b.len() == s.len()
            &&& s.subrange(e, s.len() as int) == b
            &&& normalized_from(s, m) == ascii("<xmpMM:InstanceID>"@) + ascii(
                "CCVL-DETERMINISTIC-INSTANCE"@,
            ) + ascii("</xmpMM:InstanceID>"@) + normalized_from(s, e)
        }),
{
    lemma_tags();
    let open = ascii("<xmpMM:InstanceID>"@);
    let close = ascii("</xmpMM:InstanceID>"@);
    let s = a + open + x + close + b;
    let m = a.len() as int;
    let k = m + 18;
    let j = k + x.len();
    let e = j + 19;
    assert(s.subrange(m, m + 18) =~= open);
    assert(s.subrange(j, j + 19) =~= close);
    assert(s.subrange(e, s.len() as int) =~= b);
    assert(s.subrange(k, j) =~= x);
    assert forall|t: int| k <= t < j implies s[t] != 60u8 by {
        assert(s[t] == x[t - k]);
        if x[t - k] == 60u8 {
            assert(x.contains(60u8));
        }
    }
    lemma_skip_to_open(s, k, x.len() as int);
    assert(s[j] == close[0]);
    assert(next_open(s, j) == j);
    assert(instance_end(s, m) == Some(e));
}

/// A rendition identifier is not content: two streams that differ only in
/// the identifier inside one `xmpMM:InstanceID` element (an identifier of
/// characters other than `<`, in valid UTF-8) have the same canonical bytes.
pub proof fn rendition_identifier_is_not_content(
    d: Vec<(Vec<u8>, PdfObject)>,
    c1: Vec<u8>,
    c2: Vec<u8>,
    a: Seq<u8>,
    x1: Seq<u8>,
    x2: Seq<u8>,
    b: Seq<u8>,
)
    requires
        !x1.contains(60u8),
        !x2.contains(60u8),
        valid_utf8(x1),
        valid_utf8(x2),
        c1@ == a + ascii("<xmpMM:InstanceID>"@) + x1 + ascii("</xmpMM:InstanceID>"@) + b,
        c2@ == a + ascii("<xmpMM:InstanceID>"@) + x2 + ascii("</xmpMM:InstanceID>"@) + b,
    ensures
        code(PdfObject::Stream(d, Some(c1))) == code(PdfObject::Stream(d, Some(c2))),
{
    lemma_tags();
    let s1 = c1@;
    let s2 = c2@;
    let m = a.len() as int;
    lemma_element_normalized(a, x1, b);
    lemma_element_normalized(a, x2, b);
    let e1 = m + 18 + x1.len() + 19;
    let e2 = m + 18 + x2.len() + 19;
    lemma_shift_normalized(s1, e1, s2, e2);
    assert forall|t: int| 0 <= t < m + 18 implies s1[t] == s2[t] by {
        if t < m {
            assert(s1[t] == a[t] && s2[t] == a[t]);
        } else {
            assert(s1[t] == ascii("<xmpMM:InstanceID>"@)[t - m]);
            assert(s2[t] == ascii("<xmpMM:InstanceID>"@)[t - m]);
        }
    }
    assert(s1.subrange(m, m + 18) =~= ascii("<xmpMM:InstanceID>"@));
    lemma_normalized_before(s1, s2, m, 0);
}


proof fn lemma_objects_code_agree(o1: Seq<(u32, u16, PdfObject)>, o2: Seq<(u32, u16, PdfObject)>, n: int)
    requires
        o1.len() == o2.len(),
        n <= o1.len(),
        forall|t: int|
            0 <= t < o1.len() ==> (#[trigger] o1[t]).0 == o2[t].0 && o1[t].1 == o2[t].1 && code(o1[t].2)
                == code(o2[t].2),
    ensures
        objects_code(o1, n) == objects_code(o2, n),
    decreases n,
{
    if n > 0 {
        lemma_objects_code_agree(o1, o2, n - 1);
        assert(o1[n - 1].0 == o2[n - 1].0);
    }
}

/// A rendition identifier is not document content: two documents that
/// differ only in the identifier inside one `xmpMM:InstanceID` element of
/// one stream have the same canonical bytes, so the same semantic signature.
pub proof fn rendition_identifier_leaves_the_signature(
    d1: PdfDocument,
    d2: PdfDocument,
    k: int,
    d: Vec<(Vec<u8>, PdfObject)>,
    c1: Vec<u8>,
    c2: Vec<u8>,
    a: Seq<u8>,
    x1: Seq<u8>,
    x2: Seq<u8>,
    b: Seq<u8>,
)
    requires
        d1.trailer@ == d2.trailer@,
        d1.objects@.len() == d2.objects@.len(),
        0 <= k < d1.objects@.len(),
        forall|t: int| 0 <= t < d1.objects@.len() && t != k ==> #[trigger] d1.objects@[t] == d2.objects@[t],
        d1.objects@[k].0 == d2.objects@[k].0,
        d1.objects@[k].1 == d2.objects@[k].1,
        d1.objects@[k].2 == PdfObject::Stream(d, Some(c1)),
        d2.objects@[k].2 == PdfObject::Stream(d, Some(c2)),
        !x1.contains(60u8),
        !x2.contains(60u8),
        valid_utf8(x1),
        valid_utf8(x2),
        c1@ == a + ascii("<xmpMM:InstanceID>"@) + x1 + ascii("</xmpMM:InstanceID>"@) + b,
        c2@ == a + ascii("<xmpMM:InstanceID>"@) + x2 + ascii("</xmpMM:InstanceID>"@) + b,
    ensures
        semantic_code(d1) == semantic_code(d2),
{
    rendition_identifier_is_not_content(d, c1, c2, a, x1, x2, b);
    let o1 = d1.objects@;
    let o2 = d2.objects@;
    assert forall|t: int| 0 <= t < o1.len() implies (#[trigger] o1[t]).0 == o2[t].0 && o1[t].1 == o2[t].1
        && code(o1[t].2) == code(o2[t].2) by {
        if t != k {
            assert(o1[t] == o2[t]);
        }
    }
    lemma_objects_code_agree(o1, o2, o1.len() as int);
}

} // verus!
