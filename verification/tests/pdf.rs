use ccvl::check::changed_page;
use ccvl::pdf::{
    contains_text, key_is, media_box, normalize, semantic_bytes, semantic_signature, verify,
    PdfDocument, PdfError, PdfObject,
};

fn name(s: &str) -> PdfObject {
    PdfObject::Name(s.as_bytes().to_vec())
}

fn dict(entries: Vec<(&str, PdfObject)>) -> Vec<(Vec<u8>, PdfObject)> {
    entries.into_iter().map(|(k, v)| (k.as_bytes().to_vec(), v)).collect()
}

fn real_value(v: f32) -> PdfObject {
    PdfObject::Real(v.to_bits())
}

const METADATA: &str = "<x:xmpmeta><dc:language>de-CH</dc:language>\
<xmpMM:InstanceID>uuid:1111-2222</xmpMM:InstanceID></x:xmpmeta>";

fn document(metadata: &str, second_id: &str) -> PdfDocument {
    let objects = vec![
        (1, 0, PdfObject::Dictionary(dict(vec![("Type", name("Catalog")), ("Pages", PdfObject::Reference(2, 0))]))),
        (
            2,
            0,
            PdfObject::Dictionary(dict(vec![
                ("Type", name("Pages")),
                ("Kids", PdfObject::Array(vec![PdfObject::Reference(3, 0)])),
                ("Count", PdfObject::Integer(1)),
                (
                    "MediaBox",
                    PdfObject::Array(vec![PdfObject::Integer(0), PdfObject::Integer(0), real_value(595.2756), real_value(841.8898)]),
                ),
            ])),
        ),
        (3, 0, PdfObject::Dictionary(dict(vec![("Type", name("Page")), ("Parent", PdfObject::Reference(2, 0))]))),
        (4, 0, PdfObject::Dictionary(dict(vec![("Type", name("FontDescriptor")), ("FontFile2", PdfObject::Reference(5, 0))]))),
        (
            5,
            0,
            PdfObject::Stream(
                dict(vec![("Length", PdfObject::Integer(3)), ("Filter", name("FlateDecode"))]),
                Some(vec![1, 2, 3]),
            ),
        ),
        (
            6,
            0,
            PdfObject::Stream(
                dict(vec![("Type", name("Metadata")), ("Subtype", name("XML"))]),
                Some(metadata.as_bytes().to_vec()),
            ),
        ),
    ];
    let font = dict(vec![
        ("BaseFont", name("ABCDEF+Archivo-Regular")),
        ("ToUnicode", PdfObject::Reference(7, 0)),
    ]);
    let mut text = String::from("Jane Doe jane@example.invalid Phone ");
    for _ in 0..30 {
        text.push_str("word ");
    }
    PdfDocument {
        trailer: dict(vec![
            ("Root", PdfObject::Reference(1, 0)),
            (
                "ID",
                PdfObject::Array(vec![
                    PdfObject::Str(b"first".to_vec()),
                    PdfObject::Str(second_id.as_bytes().to_vec()),
                ]),
            ),
        ]),
        objects,
        pages: vec![(3, 0)],
        fonts: vec![Some(vec![font])],
        contents: vec![b"BT (Jane) Tj ET".to_vec()],
        text: Some(text),
    }
}

fn contacts() -> Vec<String> {
    vec!["Jane Doe".to_string(), "jane@example.invalid".to_string()]
}

#[test]
fn rendition_identifier_is_not_document_content() {
    let original = document(METADATA, "second");
    let changed = document(&METADATA.replace("uuid:1111-2222", "AAAAAAAAAAAAAAAAAAAAAA=="), "AAAAAAAAAAAAAAAAAAAAAA==");
    assert_eq!(semantic_signature(&original).unwrap(), semantic_signature(&changed).unwrap());
}

#[test]
fn metadata_change_is_detected() {
    let original = document(METADATA, "second");
    let changed = document(&METADATA.replacen("<dc:language>", "<dc:languagf>", 1), "second");
    assert_ne!(semantic_signature(&original).unwrap(), semantic_signature(&changed).unwrap());
}

#[test]
fn first_document_identifier_is_content() {
    let original = document(METADATA, "second");
    let mut changed = document(METADATA, "second");
    changed.trailer[1].1 =
        PdfObject::Array(vec![PdfObject::Str(b"other".to_vec()), PdfObject::Str(b"second".to_vec())]);
    assert_ne!(semantic_signature(&original).unwrap(), semantic_signature(&changed).unwrap());
}

#[test]
fn stream_encoding_and_key_order_are_not_content() {
    let original = document(METADATA, "second");
    let mut changed = document(METADATA, "second");
    changed.objects[4].2 = PdfObject::Stream(
        dict(vec![("Filter", name("ASCIIHexDecode")), ("Length", PdfObject::Integer(7))]),
        Some(vec![1, 2, 3]),
    );
    changed.objects[0].2 =
        PdfObject::Dictionary(dict(vec![("Pages", PdfObject::Reference(2, 0)), ("Type", name("Catalog"))]));
    assert_eq!(semantic_signature(&original).unwrap(), semantic_signature(&changed).unwrap());
}

#[test]
fn undecodable_stream_has_no_signature() {
    let mut doc = document(METADATA, "second");
    doc.objects[5].2 = PdfObject::Stream(dict(vec![]), None);
    assert_eq!(semantic_signature(&doc), Err(PdfError::UndecodableStream));
}

#[test]
fn empty_document_digests_the_label() {
    let doc = PdfDocument { trailer: vec![], objects: vec![], pages: vec![], fonts: vec![], contents: vec![], text: None };
    assert_eq!(semantic_bytes(&doc).unwrap(), b"ccvl-semantic-pdf-v1".to_vec());
    let digest = semantic_signature(&doc).unwrap();
    let hex: String = digest.iter().map(|b| format!("{b:02x}")).collect();
    assert_eq!(hex, "623dd9d49b1e5fa9c5aa9e5a8801f5e352540f41d6f916ac640b265d0934fb7b");
}

#[test]
fn object_bytes_are_tagged_and_sized() {
    let doc = PdfDocument {
        trailer: vec![],
        objects: vec![(1, 2, PdfObject::Name(b"A".to_vec())), (3, 0, PdfObject::Integer(-1))],
        pages: vec![],
        fonts: vec![],
        contents: vec![],
        text: None,
    };
    let mut expected = b"ccvl-semantic-pdf-v1".to_vec();
    expected.extend_from_slice(&[0, 0, 0, 1, 0, 2]);
    expected.extend_from_slice(b"name");
    expected.extend_from_slice(&[0, 0, 0, 0, 0, 0, 0, 1, b'A']);
    expected.extend_from_slice(&[0, 0, 0, 3, 0, 0]);
    expected.extend_from_slice(b"integer");
    expected.extend_from_slice(&[255; 8]);
    assert_eq!(semantic_bytes(&doc).unwrap(), expected);
}

#[test]
fn rendition_identifiers_are_replaced() {
    let input = b"a<xmpMM:InstanceID>xyz</xmpMM:InstanceID>b<xmpMM:InstanceID>q<r</xmpMM:InstanceID>".to_vec();
    let expected =
        b"a<xmpMM:InstanceID>CCVL-DETERMINISTIC-INSTANCE</xmpMM:InstanceID>b<xmpMM:InstanceID>q<r</xmpMM:InstanceID>"
            .to_vec();
    assert_eq!(normalize(&input), expected);
}

#[test]
fn conforming_document_is_verified() {
    let verified = verify(document(METADATA, "second"), 1, &contacts(), false, &vec![true]);
    let verified = verified.unwrap();
    assert_eq!(verified.page_content(1).unwrap(), b"BT (Jane) Tj ET".to_vec());
    assert!(matches!(verified.page_content(2), Err(PdfError::MissingPage(2))));
    assert!(matches!(verified.page_content(0), Err(PdfError::MissingPage(0))));
}

#[test]
fn page_count_is_checked() {
    let result = verify(document(METADATA, "second"), 2, &contacts(), false, &vec![true]);
    assert_eq!(result.err(), Some(PdfError::PageCount { rendered: 1, expected: 2 }));
}

#[test]
fn encrypted_document_is_rejected() {
    let mut doc = document(METADATA, "second");
    doc.trailer.push((b"Encrypt".to_vec(), PdfObject::Reference(9, 0)));
    assert_eq!(verify(doc, 1, &contacts(), false, &vec![true]).err(), Some(PdfError::Encrypted));
}

#[test]
fn catalog_actions_are_forbidden() {
    let mut doc = document(METADATA, "second");
    doc.objects[0].2 = PdfObject::Dictionary(dict(vec![("OpenAction", PdfObject::Null), ("AA", PdfObject::Null)]));
    assert_eq!(
        verify(doc, 1, &contacts(), false, &vec![true]).err(),
        Some(PdfError::ForbiddenCatalogEntry("OpenAction".to_string()))
    );
}

#[test]
fn javascript_names_are_forbidden() {
    let mut doc = document(METADATA, "second");
    doc.objects[0].2 = PdfObject::Dictionary(dict(vec![("Names", PdfObject::Reference(8, 0))]));
    doc.objects.push((8, 0, PdfObject::Dictionary(dict(vec![("JavaScript", PdfObject::Null)]))));
    assert_eq!(verify(doc, 1, &contacts(), false, &vec![true]).err(), Some(PdfError::ActiveContent));
}

#[test]
fn missing_catalog_is_rejected() {
    let mut doc = document(METADATA, "second");
    doc.trailer[0].1 = PdfObject::Reference(42, 0);
    assert_eq!(verify(doc, 1, &contacts(), false, &vec![true]).err(), Some(PdfError::NoCatalog));
}

#[test]
fn media_box_is_inherited_and_judged() {
    let doc = document(METADATA, "second");
    assert_eq!(media_box(&doc, 0).map(|m| m.len()), Some(4));
    assert!(media_box(&doc, 1).is_none());
    assert_eq!(verify(doc, 1, &contacts(), false, &vec![false]).err(), Some(PdfError::NotA4(1)));
}

#[test]
fn missing_media_box_is_rejected() {
    let mut doc = document(METADATA, "second");
    doc.objects[1].2 = PdfObject::Dictionary(dict(vec![("Type", name("Pages"))]));
    assert_eq!(verify(doc, 1, &contacts(), false, &vec![true]).err(), Some(PdfError::NoMediaBox(1)));
}

#[test]
fn cyclic_page_tree_has_no_media_box() {
    let mut doc = document(METADATA, "second");
    doc.objects[1].2 = PdfObject::Dictionary(dict(vec![("Parent", PdfObject::Reference(3, 0))]));
    assert_eq!(verify(doc, 1, &contacts(), false, &vec![true]).err(), Some(PdfError::NoMediaBox(1)));
}

#[test]
fn fallback_font_is_rejected() {
    let mut doc = document(METADATA, "second");
    doc.fonts[0] = Some(vec![dict(vec![("BaseFont", name("Helvetica")), ("ToUnicode", PdfObject::Null)])]);
    assert_eq!(
        verify(doc, 1, &contacts(), false, &vec![true]).err(),
        Some(PdfError::FallbackFont(b"Helvetica".to_vec()))
    );
}

#[test]
fn font_without_unicode_map_is_rejected() {
    let mut doc = document(METADATA, "second");
    doc.fonts[0] = Some(vec![dict(vec![("BaseFont", name("ABCDEF+Archivo-Bold"))])]);
    assert_eq!(
        verify(doc, 1, &contacts(), false, &vec![true]).err(),
        Some(PdfError::FontWithoutUnicodeMap(b"ABCDEF+Archivo-Bold".to_vec()))
    );
}

#[test]
fn unsubsetted_font_is_rejected() {
    let mut doc = document(METADATA, "second");
    doc.fonts[0] = Some(vec![dict(vec![("BaseFont", name("abcdef+Archivo-Bold")), ("ToUnicode", PdfObject::Null)])]);
    assert_eq!(
        verify(doc, 1, &contacts(), false, &vec![true]).err(),
        Some(PdfError::FallbackFont(b"abcdef+Archivo-Bold".to_vec()))
    );
}

#[test]
fn document_without_fonts_is_rejected() {
    let mut doc = document(METADATA, "second");
    doc.fonts[0] = Some(vec![]);
    assert_eq!(verify(doc, 1, &contacts(), false, &vec![true]).err(), Some(PdfError::NoFonts));
}

#[test]
fn embedded_font_program_is_required() {
    let mut doc = document(METADATA, "second");
    doc.objects[3].2 = PdfObject::Dictionary(dict(vec![("Type", name("FontDescriptor"))]));
    assert_eq!(verify(doc, 1, &contacts(), false, &vec![true]).err(), Some(PdfError::NoEmbeddedFont));
}

#[test]
fn signature_image_is_required_where_asked() {
    let doc = document(METADATA, "second");
    assert_eq!(verify(doc, 1, &contacts(), true, &vec![true]).err(), Some(PdfError::MissingImage));
    let mut doc = document(METADATA, "second");
    doc.objects.push((9, 0, PdfObject::Stream(dict(vec![("Subtype", name("Image"))]), Some(vec![]))));
    assert!(verify(doc, 1, &contacts(), true, &vec![true]).is_ok());
}

#[test]
fn text_layer_is_required() {
    let mut doc = document(METADATA, "second");
    doc.text = Some("Jane Doe jane@example.invalid".to_string());
    assert_eq!(verify(doc, 1, &contacts(), false, &vec![true]).err(), Some(PdfError::NoTextLayer));
    let mut doc = document(METADATA, "second");
    doc.text = None;
    assert_eq!(verify(doc, 1, &contacts(), false, &vec![true]).err(), Some(PdfError::TextExtraction));
}

#[test]
fn contact_text_is_required() {
    let doc = document(METADATA, "second");
    let contacts = vec!["Jane Doe".to_string(), "+41 00 000 00 00".to_string()];
    assert_eq!(
        verify(doc, 1, &contacts, false, &vec![true]).err(),
        Some(PdfError::MissingContact("+41 00 000 00 00".to_string()))
    );
}

#[test]
fn text_search_and_keys() {
    assert!(contains_text("abcdef", "cde"));
    assert!(contains_text("abc", ""));
    assert!(!contains_text("abc", "abcd"));
    assert!(!contains_text("abc", "ac"));
    assert!(key_is(&b"Root".to_vec(), "Root"));
    assert!(!key_is(&b"Roots".to_vec(), "Root"));
}

fn verified(content: &[u8]) -> ccvl::pdf::VerifiedPdf {
    let mut doc = document(METADATA, "second");
    doc.contents = vec![content.to_vec()];
    verify(doc, 1, &contacts(), false, &vec![true]).unwrap()
}

#[test]
fn shared_pages_are_compared_across_presets() {
    let same = changed_page(&verified(b"one"), &verified(b"one"), &verified(b"one"));
    assert!(matches!(same, Err(PdfError::MissingPage(2))));
    let changed = changed_page(&verified(b"one"), &verified(b"one"), &verified(b"two"));
    assert_eq!(changed.unwrap(), Some(1));
}

fn pdf_file(language: &str) -> Vec<u8> {
    let mut doc = lopdf::Document::with_version("1.5");
    let pages_id = doc.new_object_id();
    let mut page = lopdf::Dictionary::new();
    page.set("Type", lopdf::Object::Name(b"Page".to_vec()));
    page.set("Parent", lopdf::Object::Reference(pages_id));
    let page_id = doc.add_object(lopdf::Object::Dictionary(page));
    let mut pages = lopdf::Dictionary::new();
    pages.set("Type", lopdf::Object::Name(b"Pages".to_vec()));
    pages.set("Kids", lopdf::Object::Array(vec![lopdf::Object::Reference(page_id)]));
    pages.set("Count", lopdf::Object::Integer(1));
    doc.objects.insert(pages_id, lopdf::Object::Dictionary(pages));
    let mut info = lopdf::Dictionary::new();
    info.set("Lang", lopdf::Object::string_literal(language));
    let info_id = doc.add_object(lopdf::Object::Dictionary(info));
    let mut catalog = lopdf::Dictionary::new();
    catalog.set("Type", lopdf::Object::Name(b"Catalog".to_vec()));
    catalog.set("Pages", lopdf::Object::Reference(pages_id));
    let catalog_id = doc.add_object(lopdf::Object::Dictionary(catalog));
    doc.trailer.set("Root", lopdf::Object::Reference(catalog_id));
    doc.trailer.set("Info", lopdf::Object::Reference(info_id));
    let mut bytes = Vec::new();
    doc.save_to(&mut bytes).unwrap();
    bytes
}

#[test]
fn unparsable_bytes_are_rejected() {
    let bytes = b"definitely not a PDF file".to_vec();
    assert!(ccvl::pdf::load_pdf(&bytes).is_none());
    assert_eq!(ccvl::pdf::signature_of_bytes(&bytes), Err(PdfError::Unparsable));
    assert!(matches!(
        ccvl::pdf::verify_bytes(&bytes, 1, &vec![], false, &vec![true]),
        Err(PdfError::Unparsable)
    ));
}

#[test]
fn parsed_file_carries_its_pages_and_objects() {
    let bytes = pdf_file("de-CH");
    let document = ccvl::pdf::load_pdf(&bytes).unwrap();
    assert_eq!(document.pages.len(), 1);
    assert!(document.objects.len() >= 4);
    assert_eq!(document.fonts.len(), 1);
    assert_eq!(
        ccvl::pdf::signature_of_bytes(&bytes).unwrap(),
        semantic_signature(&document).unwrap()
    );
}

#[test]
fn parsed_content_change_changes_the_signature() {
    let a = ccvl::pdf::signature_of_bytes(&pdf_file("de-CH")).unwrap();
    let b = ccvl::pdf::signature_of_bytes(&pdf_file("en-CH")).unwrap();
    assert_eq!(a.len(), 32);
    assert_ne!(a, b);
}

#[test]
fn parsed_file_without_fonts_fails_the_release_checks() {
    let bytes = pdf_file("de-CH");
    let result = ccvl::pdf::verify_bytes(&bytes, 1, &vec![], false, &vec![true]);
    assert!(matches!(result, Err(e) if e != PdfError::Unparsable));
}

#[test]
fn identifiers_that_are_not_utf8_are_kept() {
    let mut bytes = b"<xmpMM:InstanceID>".to_vec();
    bytes.push(0xff);
    bytes.extend_from_slice(b"</xmpMM:InstanceID>");
    assert_eq!(normalize(&bytes), bytes);
    let valid = "<xmpMM:InstanceID>é1</xmpMM:InstanceID>".as_bytes().to_vec();
    assert_eq!(
        normalize(&valid),
        b"<xmpMM:InstanceID>CCVL-DETERMINISTIC-INSTANCE</xmpMM:InstanceID>".to_vec()
    );
}
