//! The boundary with the outside world: the transport encoding of request
//! payloads and the document codec that parses raw bytes into a graph and
//! serializes a graph back. Both are outside collaborators; the merge is
//! verified against the narrow contracts stated here.

use vstd::prelude::*;

use base64::Engine;
use lopdf::Object as PdfObj;
use lopdf::Stream as PdfStream;
use lopdf::StringFormat as PdfStrFmt;

use crate::graph::DocGraph;
use crate::merge::{
    any_doc_typed, docs_fit, merge, MergeError,
};
use crate::model::{Dict, DictEntry, Obj, ObjId, Tag};

verus! {

/// What the standard base64 decoding yields for a given text, if anything:
/// the result depends on the text alone.
pub uninterp spec fn b64_decoded(s: Seq<char>) -> Option<Seq<u8>>;

/// What the document codec parses a given byte string into, if anything:
/// the result depends on the bytes alone.
pub uninterp spec fn pdf_graph(b: Seq<u8>) -> Option<DocGraph>;

/// What the document codec serializes a given graph into: the result
/// depends on the graph alone.
pub uninterp spec fn encoded_of(g: DocGraph) -> Seq<u8>;

/// Relies on base64's standard-alphabet engine: decoding is a function of
/// the input text alone, succeeding or failing with it.
#[verifier::external_body]
pub fn str_to_vec(input_b64: &str) -> (r: Result<Vec<u8>, base64::DecodeError>)
    ensures
        (r is Ok) == (b64_decoded(input_b64@) is Some),
        r is Ok ==> r->Ok_0@ == b64_decoded(input_b64@)->Some_0,
{
    base64::engine::general_purpose::STANDARD.decode(input_b64)
}

/// The outside error for a text that is not valid base64.
#[verifier::external_type_specification]
#[verifier::external_body]
pub struct ExDecodeError(base64::DecodeError);

/// The outside codec's object representation.
#[verifier::external_type_specification]
#[verifier::external_body]
pub struct ExLopdfObject(lopdf::Object);

/// The outside codec's dictionary representation.
#[verifier::external_type_specification]
#[verifier::external_body]
pub struct ExLopdfDictionary(lopdf::Dictionary);

/// Relies on the standard library's formatting: the codec's real number
/// becomes its decimal text; any other variant is out of this helper's
/// scope and maps to the null object.
#[verifier::external_body]
fn text_real(o: &PdfObj) -> Obj {
    match o {
        PdfObj::Real(x) => Obj::Real(format!("{}", x).into_bytes()),
        _ => Obj::Null,
    }
}

/// Relies on matching `lopdf::Object`'s variants, moving each field into
/// the library's form.
#[verifier::external_body]
fn obj_of_lopdf(o: &PdfObj) -> Obj {
    match o {
        PdfObj::Null => Obj::Null,
        PdfObj::Boolean(b) => Obj::Boolean(*b),
        PdfObj::Integer(x) => Obj::Integer(*x),
        PdfObj::Real(_) => text_real(o),
        PdfObj::Name(n) => Obj::Name(n.clone()),
        PdfObj::String(s, _) => Obj::Text(s.clone()),
        PdfObj::Array(a) => Obj::Array(a.iter().map(obj_of_lopdf).collect()),
        PdfObj::Dictionary(d) => Obj::Dict(dict_of_lopdf(d)),
        PdfObj::Stream(s) => Obj::Stream(dict_of_lopdf(&s.dict), s.content.clone()),
        PdfObj::Reference(id) => Obj::Ref(ObjId { num: id.0, gen: id.1 }),
    }
}

/// Relies on `lopdf::Dictionary::iter`: each name/object entry is moved
/// into the library's form, in the dictionary's own order.
#[verifier::external_body]
fn dict_of_lopdf(d: &lopdf::Dictionary) -> Dict {
    let mut entries: Vec<DictEntry> = Vec::new();
    for (k, v) in d.iter() {
        entries.push(DictEntry { name: k.clone(), value: obj_of_lopdf(v) });
    }
    Dict { entries }
}

/// Relies on `lopdf::Document::load_mem`: parsing is a function of the
/// bytes alone, and a parsed document's object table, trailer and highest
/// identifier are converted entry for entry into the library's graph form.
#[verifier::external_body]
fn load_document(bytes: &Vec<u8>) -> (r: Option<DocGraph>)
    ensures
        (r is Some) == (pdf_graph(bytes@) is Some),
        r is Some ==> r->Some_0 == pdf_graph(bytes@)->Some_0,
{
    let d = lopdf::Document::load_mem(bytes.as_slice()).ok()?;
    let mut objects: Vec<(ObjId, Obj)> = Vec::new();
    for (id, o) in d.objects.iter() {
        objects.push((ObjId { num: id.0, gen: id.1 }, obj_of_lopdf(o)));
    }
    Some(DocGraph { objects, trailer: dict_of_lopdf(&d.trailer), max_id: d.max_id })
}

/// Relies on the standard library's number parsing: the decimal text of a
/// real number becomes the codec's number form again.
#[verifier::external_body]
fn pdf_real(v: &Vec<u8>) -> PdfObj {
    PdfObj::Real(core::str::from_utf8(v).unwrap_or("0").trim().parse().unwrap_or_default())
}

/// Relies on constructing `lopdf::Object` variants, moving each field of
/// the library's form back out. The codec's stream constructor recomputes
/// the dictionary's `Length` entry from the content handed over.
#[verifier::external_body]
fn lopdf_of_obj(o: &Obj) -> PdfObj {
    match o {
        Obj::Null => PdfObj::Null,
        Obj::Boolean(b) => PdfObj::Boolean(*b),
        Obj::Integer(x) => PdfObj::Integer(*x),
        Obj::Real(v) => pdf_real(v),
        Obj::Text(v) => PdfObj::String(v.clone(), PdfStrFmt::Literal),
        Obj::Name(v) => PdfObj::Name(v.clone()),
        Obj::Array(a) => PdfObj::Array(a.iter().map(lopdf_of_obj).collect()),
        Obj::Dict(d) => PdfObj::Dictionary(lopdf_of_dict(d)),
        Obj::Stream(d, b) => PdfObj::Stream(PdfStream::new(lopdf_of_dict(d), b.clone())),
        Obj::Ref(id) => PdfObj::Reference((id.num, id.gen)),
    }
}

/// Relies on `lopdf::Dictionary::set`: each entry of the library's
/// dictionary is moved back out, in order. The codec's dictionary keeps one
/// entry per name, so of entries sharing a name the last one written wins,
/// where the library's own lookup would have taken the first; the library
/// never produces such duplicates.
#[verifier::external_body]
fn lopdf_of_dict(d: &Dict) -> lopdf::Dictionary {
    let mut out = lopdf::Dictionary::new();
    for e in d.entries.iter() {
        out.set(e.name.clone(), lopdf_of_obj(&e.value));
    }
    out
}

/// Relies on `lopdf::Document::save_to`: a graph rebuilt object for object
/// serializes to bytes, and the bytes are a function of the graph alone
/// (the writer walks the object table in identifier order and stamps no
/// time, identity or random material); writing into a byte vector does not
/// fail. The writer computes the successor of the highest identifier, so a
/// graph at the very top of the identifier space is excluded.
#[verifier::external_body]
pub fn encode_document(g: &DocGraph) -> (r: Vec<u8>)
    requires
        g.max_id < u32::MAX,
    ensures
        r@ == encoded_of(*g),
{
    let mut d = lopdf::Document::with_version("1.5");
    for (id, o) in g.objects.iter() {
        d.objects.insert((id.num, id.gen), lopdf_of_obj(o));
    }
    d.trailer = lopdf_of_dict(&g.trailer);
    d.max_id = g.max_id;
    let mut out: Vec<u8> = Vec::new();
    let _ = d.save_to(&mut out);
    out
}

/// A request to merge documents: an ordered list of base64-encoded files.
#[derive(Debug, Default)]
pub struct MergeRequest {
    files: Vec<String>,
}

impl MergeRequest {
    /// The files of the request, as text.
    pub closed spec fn files_spec(&self) -> Seq<String> {
        self.files@
    }

    /// A request over the given base64-encoded files.
    pub fn new(files: Vec<String>) -> (r: Self)
        ensures
            r.files_spec() == files@,
    {
        Self { files }
    }
}

/// The graphs that survive decoding: each file that is valid base64 and
/// parses as a document contributes its graph, in file order; the rest are
/// dropped.
pub open spec fn decoded_graphs(files: Seq<String>) -> Seq<DocGraph>
    decreases files.len(),
{
    if files.len() == 0 {
        Seq::empty()
    } else {
        let rest = decoded_graphs(files.drop_last());
        match b64_decoded(files.last()@) {
            Some(bytes) => match pdf_graph(bytes) {
                Some(g) => rest.push(g),
                None => rest,
            },
            None => rest,
        }
    }
}

impl MergeError {
    /// A short human-readable message for the failure.
    pub fn message(&self) -> (r: String)
        ensures
            self is EmptyInput ==> r@ == "empty file list"@,
            self is MissingPageRoot ==> r@ == "root page not found"@,
            self is MissingCatalog ==> r@ == "root catalog not found"@,
            self is TooLarge ==> r@ == "documents exceed the identifier space"@,
    {
        let s = match self {
            MergeError::EmptyInput => "empty file list",
            MergeError::MissingPageRoot => "root page not found",
            MergeError::MissingCatalog => "root catalog not found",
            MergeError::TooLarge => "documents exceed the identifier space",
        };
        proof {
            reveal_strlit("empty file list");
            reveal_strlit("root page not found");
            reveal_strlit("root catalog not found");
            reveal_strlit("documents exceed the identifier space");
        }
        s.to_string()
    }
}

/// Decodes every file of the request, drops the ones that do not decode,
/// merges what is left, and serializes the merged graph. The merge's own
/// failure conditions are reported over the documents that survived
/// decoding: no survivors at all is `EmptyInput`.
pub fn build(merge_request: MergeRequest) -> (r: Result<Vec<u8>, MergeError>)
    ensures
        ({
            let gs = decoded_graphs(merge_request.files_spec());
            &&& (gs.len() == 0) == (r == Err::<Vec<u8>, MergeError>(MergeError::EmptyInput))
            &&& (gs.len() > 0 && !docs_fit(gs)) == (r == Err::<Vec<u8>, MergeError>(
                MergeError::TooLarge,
            ))
            &&& (gs.len() > 0 && docs_fit(gs) && !any_doc_typed(gs, Tag::Pages)) == (r
                == Err::<Vec<u8>, MergeError>(MergeError::MissingPageRoot))
            &&& (gs.len() > 0 && docs_fit(gs) && any_doc_typed(gs, Tag::Pages)
                && !any_doc_typed(gs, Tag::Catalog)) == (r == Err::<Vec<u8>, MergeError>(
                MergeError::MissingCatalog,
            ))
            &&& (r is Ok) == (gs.len() > 0 && docs_fit(gs) && any_doc_typed(gs, Tag::Pages)
                && any_doc_typed(gs, Tag::Catalog))
            &&& (r is Ok ==> exists|g: DocGraph|
                #[trigger] crate::merge::merged_wf(gs, g) && r->Ok_0@ == encoded_of(g))
        }),
{
    let MergeRequest { files } = merge_request;
    let ghost files0 = files@;
    let mut docs: Vec<DocGraph> = Vec::new();
    let mut rem = files;
    proof {
        assert(files0.take(0) =~= Seq::<String>::empty());
    }
    while rem.len() > 0
        invariant
            rem@.len() <= files0.len(),
            rem@ == files0.subrange(files0.len() - rem@.len(), files0.len() as int),
            docs@ == decoded_graphs(files0.take(files0.len() - rem@.len())),
        decreases rem@.len(),
    {
        let ghost p = files0.len() - rem@.len();
        let s = rem.remove(0);
        proof {
            assert(s == files0[p]);
            assert(rem@ =~= files0.subrange(p + 1, files0.len() as int));
            assert(files0.take(p + 1).drop_last() =~= files0.take(p));
            assert(files0.take(p + 1).last() == files0[p]);
        }
        match str_to_vec(s.as_str()) {
            Ok(bytes) => {
                match load_document(&bytes) {
                    Some(g) => {
                        docs.push(g);
                    },
                    None => {},
                }
            },
            Err(_) => {},
        }
    }
    proof {
        assert(files0.take(files0.len() as int) =~= files0);
    }
    match merge(docs) {
        Ok(g) => {
            let bytes = encode_document(&g);
            proof {
                assert(crate::merge::merged_wf(decoded_graphs(files0), g));
                assert(bytes@ == encoded_of(g));
            }
            Ok(bytes)
        },
        Err(e) => Err(e),
    }
}

} // verus!
