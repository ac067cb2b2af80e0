use base64::Engine;

use pdfmerge::codec::{build, str_to_vec, MergeRequest};
use pdfmerge::merge::MergeError;

/// Builds the bytes of a one-page document whose page carries a MediaBox of
/// the given width, so the page can be recognized after a merge.
fn make_pdf(width: i64) -> Vec<u8> {
    let mut doc = lopdf::Document::with_version("1.5");
    let pages_id = doc.new_object_id();
    let mut page_dict = lopdf::Dictionary::new();
    page_dict.set("Type", lopdf::Object::Name(b"Page".to_vec()));
    page_dict.set("Parent", lopdf::Object::Reference(pages_id));
    page_dict.set(
        "MediaBox",
        lopdf::Object::Array(vec![
            lopdf::Object::Integer(0),
            lopdf::Object::Integer(0),
            lopdf::Object::Integer(width),
            lopdf::Object::Integer(800),
        ]),
    );
    let page_id = doc.add_object(lopdf::Object::Dictionary(page_dict));
    let mut pages_dict = lopdf::Dictionary::new();
    pages_dict.set("Type", lopdf::Object::Name(b"Pages".to_vec()));
    pages_dict.set(
        "Kids",
        lopdf::Object::Array(vec![lopdf::Object::Reference(page_id)]),
    );
    pages_dict.set("Count", lopdf::Object::Integer(1));
    doc.objects
        .insert(pages_id, lopdf::Object::Dictionary(pages_dict));
    let mut cat = lopdf::Dictionary::new();
    cat.set("Type", lopdf::Object::Name(b"Catalog".to_vec()));
    cat.set("Pages", lopdf::Object::Reference(pages_id));
    let cat_id = doc.add_object(lopdf::Object::Dictionary(cat));
    doc.trailer.set("Root", cat_id);
    let mut bytes = Vec::new();
    doc.save_to(&mut bytes).unwrap();
    bytes
}

fn b64(bytes: &[u8]) -> String {
    base64::engine::general_purpose::STANDARD.encode(bytes)
}

#[test]
fn get_merged_with_empty_list_input() {
    assert!(build(MergeRequest::default()).is_err());
}

#[test]
fn get_merged_with_bad_list_input() {
    assert!(build(MergeRequest::new(vec![String::from("foo"), String::from("bar")])).is_err());
}

#[test]
fn get_merged_with_good_list_input() {
    let files = vec![b64(&make_pdf(100)), b64(&make_pdf(200))];
    let merge_request = MergeRequest::new(files);
    assert!(build(merge_request).is_ok());
}

#[test]
fn empty_list_yields_empty_input_error() {
    assert_eq!(
        build(MergeRequest::new(Vec::new())).unwrap_err(),
        MergeError::EmptyInput
    );
}

#[test]
fn undecodable_entries_are_dropped_then_empty_input() {
    let req = MergeRequest::new(vec![String::from("!!!"), String::from("%%")]);
    assert_eq!(build(req).unwrap_err(), MergeError::EmptyInput);
}

#[test]
fn document_without_pages_root_is_rejected() {
    let mut doc = lopdf::Document::with_version("1.5");
    let mut page_dict = lopdf::Dictionary::new();
    page_dict.set("Type", lopdf::Object::Name(b"Page".to_vec()));
    let page_id = doc.add_object(lopdf::Object::Dictionary(page_dict));
    let mut cat = lopdf::Dictionary::new();
    cat.set("Type", lopdf::Object::Name(b"Catalog".to_vec()));
    cat.set("Pages", lopdf::Object::Reference(page_id));
    let cat_id = doc.add_object(lopdf::Object::Dictionary(cat));
    doc.trailer.set("Root", cat_id);
    let mut bytes = Vec::new();
    doc.save_to(&mut bytes).unwrap();
    let req = MergeRequest::new(vec![b64(&bytes)]);
    assert_eq!(build(req).unwrap_err(), MergeError::MissingPageRoot);
}

#[test]
fn document_without_catalog_is_rejected() {
    let mut doc = lopdf::Document::with_version("1.5");
    let mut pages_dict = lopdf::Dictionary::new();
    pages_dict.set("Type", lopdf::Object::Name(b"Pages".to_vec()));
    pages_dict.set("Kids", lopdf::Object::Array(Vec::new()));
    pages_dict.set("Count", lopdf::Object::Integer(0));
    let pages_id = doc.add_object(lopdf::Object::Dictionary(pages_dict));
    doc.trailer.set("Root", pages_id);
    let mut bytes = Vec::new();
    doc.save_to(&mut bytes).unwrap();
    let req = MergeRequest::new(vec![b64(&bytes)]);
    assert_eq!(build(req).unwrap_err(), MergeError::MissingCatalog);
}

fn page_widths(doc: &lopdf::Document) -> Vec<i64> {
    let mut widths = Vec::new();
    for (_, page_id) in doc.get_pages() {
        let page = doc.get_dictionary(page_id).unwrap();
        let mb = page.get(b"MediaBox").unwrap().as_array().unwrap();
        widths.push(mb[2].as_i64().unwrap());
    }
    widths
}

#[test]
fn three_documents_merge_in_order_with_bookmarks() {
    let req = MergeRequest::new(vec![
        b64(&make_pdf(100)),
        b64(&make_pdf(200)),
        b64(&make_pdf(300)),
    ]);
    let out = build(req).unwrap();
    let doc = lopdf::Document::load_mem(&out).unwrap();
    assert_eq!(page_widths(&doc), vec![100, 200, 300]);

    let root_id = doc.trailer.get(b"Root").unwrap().as_reference().unwrap();
    let cat = doc.get_dictionary(root_id).unwrap();
    assert_eq!(cat.get(b"Type").unwrap().as_name().unwrap(), b"Catalog");
    let pages_id = cat.get(b"Pages").unwrap().as_reference().unwrap();
    let pages = doc.get_dictionary(pages_id).unwrap();
    assert_eq!(pages.get(b"Type").unwrap().as_name().unwrap(), b"Pages");
    assert_eq!(pages.get(b"Count").unwrap().as_i64().unwrap(), 3);
    assert_eq!(pages.get(b"Kids").unwrap().as_array().unwrap().len(), 3);

    let outlines_id = cat.get(b"Outlines").unwrap().as_reference().unwrap();
    let outline_root = doc.get_dictionary(outlines_id).unwrap();
    assert_eq!(outline_root.get(b"Count").unwrap().as_i64().unwrap(), 3);
    let mut item_id = outline_root.get(b"First").unwrap().as_reference().unwrap();
    let mut titles: Vec<Vec<u8>> = Vec::new();
    let mut first_page_ids: Vec<(u32, u16)> = Vec::new();
    loop {
        let item = doc.get_dictionary(item_id).unwrap();
        titles.push(item.get(b"Title").unwrap().as_str().unwrap().to_vec());
        let dest = item.get(b"Dest").unwrap().as_array().unwrap();
        first_page_ids.push(dest[0].as_reference().unwrap());
        match item.get(b"Next") {
            Ok(next) => item_id = next.as_reference().unwrap(),
            Err(_) => break,
        }
    }
    assert_eq!(
        titles,
        vec![b"Page_1".to_vec(), b"Page_2".to_vec(), b"Page_3".to_vec()]
    );
    // each bookmark targets that document's (single, hence first) page
    let page_ids: Vec<(u32, u16)> = doc.get_pages().values().cloned().collect();
    assert_eq!(first_page_ids, page_ids);
}

#[test]
fn every_output_page_is_parented_to_the_merged_pages_root() {
    let req = MergeRequest::new(vec![b64(&make_pdf(100)), b64(&make_pdf(200))]);
    let out = build(req).unwrap();
    let doc = lopdf::Document::load_mem(&out).unwrap();
    let root_id = doc.trailer.get(b"Root").unwrap().as_reference().unwrap();
    let cat = doc.get_dictionary(root_id).unwrap();
    let pages_id = cat.get(b"Pages").unwrap().as_reference().unwrap();
    for (_, page_id) in doc.get_pages() {
        let page = doc.get_dictionary(page_id).unwrap();
        assert_eq!(
            page.get(b"Parent").unwrap().as_reference().unwrap(),
            pages_id
        );
    }
}

#[test]
fn round_trip_preserves_page_count_and_order() {
    let req = MergeRequest::new(vec![
        b64(&make_pdf(300)),
        b64(&make_pdf(100)),
        b64(&make_pdf(200)),
        b64(&make_pdf(400)),
    ]);
    let out = build(req).unwrap();
    let doc = lopdf::Document::load_mem(&out).unwrap();
    assert_eq!(page_widths(&doc), vec![300, 100, 200, 400]);
    let root_id = doc.trailer.get(b"Root").unwrap().as_reference().unwrap();
    let cat = doc.get_dictionary(root_id).unwrap();
    let pages_id = cat.get(b"Pages").unwrap().as_reference().unwrap();
    let pages = doc.get_dictionary(pages_id).unwrap();
    assert_eq!(pages.get(b"Count").unwrap().as_i64().unwrap(), 4);
}

#[test]
fn later_pages_dictionary_overwrites_earlier_fields() {
    // two documents whose page-tree roots carry a conflicting field
    let mut files = Vec::new();
    for rotate in [90i64, 180] {
        let mut doc = lopdf::Document::with_version("1.5");
        let pages_id = doc.new_object_id();
        let mut page_dict = lopdf::Dictionary::new();
        page_dict.set("Type", lopdf::Object::Name(b"Page".to_vec()));
        page_dict.set("Parent", lopdf::Object::Reference(pages_id));
        let page_id = doc.add_object(lopdf::Object::Dictionary(page_dict));
        let mut pages_dict = lopdf::Dictionary::new();
        pages_dict.set("Type", lopdf::Object::Name(b"Pages".to_vec()));
        pages_dict.set(
            "Kids",
            lopdf::Object::Array(vec![lopdf::Object::Reference(page_id)]),
        );
        pages_dict.set("Count", lopdf::Object::Integer(1));
        pages_dict.set("Rotate", lopdf::Object::Integer(rotate));
        doc.objects
            .insert(pages_id, lopdf::Object::Dictionary(pages_dict));
        let mut cat = lopdf::Dictionary::new();
        cat.set("Type", lopdf::Object::Name(b"Catalog".to_vec()));
        cat.set("Pages", lopdf::Object::Reference(pages_id));
        let cat_id = doc.add_object(lopdf::Object::Dictionary(cat));
        doc.trailer.set("Root", cat_id);
        let mut bytes = Vec::new();
        doc.save_to(&mut bytes).unwrap();
        files.push(b64(&bytes));
    }
    let out = build(MergeRequest::new(files)).unwrap();
    let doc = lopdf::Document::load_mem(&out).unwrap();
    let root_id = doc.trailer.get(b"Root").unwrap().as_reference().unwrap();
    let cat = doc.get_dictionary(root_id).unwrap();
    let pages_id = cat.get(b"Pages").unwrap().as_reference().unwrap();
    let pages = doc.get_dictionary(pages_id).unwrap();
    assert_eq!(pages.get(b"Rotate").unwrap().as_i64().unwrap(), 180);
}

#[test]
fn str_to_vec_decodes_standard_base64() {
    assert_eq!(str_to_vec("aGVsbG8=").unwrap(), b"hello".to_vec());
    assert!(str_to_vec("not base64!").is_err());
}

#[test]
fn merging_without_pages_leaves_the_outline_out() {
    // a document whose page tree is empty: the merge succeeds with zero
    // pages and attaches no outline to the catalog
    let mut doc = lopdf::Document::with_version("1.5");
    let mut pages_dict = lopdf::Dictionary::new();
    pages_dict.set("Type", lopdf::Object::Name(b"Pages".to_vec()));
    pages_dict.set("Kids", lopdf::Object::Array(Vec::new()));
    pages_dict.set("Count", lopdf::Object::Integer(0));
    let pages_id = doc.add_object(lopdf::Object::Dictionary(pages_dict));
    let mut cat = lopdf::Dictionary::new();
    cat.set("Type", lopdf::Object::Name(b"Catalog".to_vec()));
    cat.set("Pages", lopdf::Object::Reference(pages_id));
    let cat_id = doc.add_object(lopdf::Object::Dictionary(cat));
    doc.trailer.set("Root", cat_id);
    let mut bytes = Vec::new();
    doc.save_to(&mut bytes).unwrap();
    let out = build(MergeRequest::new(vec![b64(&bytes)])).unwrap();
    let merged = lopdf::Document::load_mem(&out).unwrap();
    let root_id = merged.trailer.get(b"Root").unwrap().as_reference().unwrap();
    let cat = merged.get_dictionary(root_id).unwrap();
    assert!(cat.get(b"Outlines").is_err());
    let pages_id = cat.get(b"Pages").unwrap().as_reference().unwrap();
    let pages = merged.get_dictionary(pages_id).unwrap();
    assert_eq!(pages.get(b"Count").unwrap().as_i64().unwrap(), 0);
}
