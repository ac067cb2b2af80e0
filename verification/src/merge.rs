//! The merge pipeline: classifying the renumbered objects of every input
//! document by role, folding the page-tree and catalog fragments into one,
//! synthesizing an outline, and closing identifier gaps.

use vstd::prelude::*;

use crate::model::{
    dget, has_type, tag_bytes, type_from_entries, type_name_of, Dict, DictEntry, Obj, ObjId, Tag,
};
use crate::graph::{
    ids_of, lemma_rw_type, new_id, renumber_graph, rw_arr, rw_entries, rw_image, rw_obj,
    rw_twice, DocGraph,
};

verus! {

/// Why a merge failed: no input at all, no page-tree root anywhere, no
/// catalog anywhere, or a combined object count beyond the identifier space.
#[derive(Clone, Copy, Debug, PartialEq, Eq, Structural)]
pub enum MergeError {
    EmptyInput,
    MissingPageRoot,
    MissingCatalog,
    TooLarge,
}

/// One collected page: which source document it came from, its identifier
/// after renumbering, and the object itself.
pub struct PageRecord {
    pub doc_index: usize,
    pub id: ObjId,
    pub obj: Obj,
}

/// The collector's state: objects passed through verbatim, pages in
/// collection order, the anchor catalog, and the accumulated page-tree root.
pub struct Collected {
    pub passthrough: Vec<(ObjId, Obj)>,
    pub pages: Vec<PageRecord>,
    pub catalog_id: Option<ObjId>,
    pub catalog_dict: Dict,
    pub pages_root_id: Option<ObjId>,
    pub pages_root_dict: Dict,
}

/// Objects of these declared types are handled specially by the collector;
/// everything else passes through verbatim.
pub open spec fn is_special(o: Obj) -> bool {
    has_type(o, Tag::Catalog) || has_type(o, Tag::Pages) || has_type(o, Tag::Page)
        || has_type(o, Tag::Outlines) || has_type(o, Tag::Outline)
}

/// The dictionary of a dictionary or stream object.
pub open spec fn dict_struct(o: Obj) -> Dict {
    match o {
        Obj::Dict(d) => d,
        Obj::Stream(d, _) => d,
        _ => o->Dict_0,
    }
}

/// The subsequence of a table that passes through the collector unchanged.
pub open spec fn passthru_of(os: Seq<(ObjId, Obj)>) -> Seq<(ObjId, Obj)>
    decreases os.len(),
{
    if os.len() == 0 {
        Seq::empty()
    } else {
        let rest = passthru_of(os.drop_last());
        if !is_special(os.last().1) {
            rest.push(os.last())
        } else {
            rest
        }
    }
}

/// The pages of a table, in table order, tagged with their source document.
pub open spec fn pages_of(os: Seq<(ObjId, Obj)>, di: usize) -> Seq<PageRecord>
    decreases os.len(),
{
    if os.len() == 0 {
        Seq::empty()
    } else {
        let rest = pages_of(os.drop_last(), di);
        if has_type(os.last().1, Tag::Page) {
            rest.push(PageRecord { doc_index: di, id: os.last().0, obj: os.last().1 })
        } else {
            rest
        }
    }
}

/// The first object of a table that declares the given type, as an
/// identifier/dictionary pair.
pub open spec fn first_typed(os: Seq<(ObjId, Obj)>, t: Tag) -> Option<(ObjId, Dict)>
    decreases os.len(),
{
    if os.len() == 0 {
        None
    } else {
        let rest = first_typed(os.drop_last(), t);
        if rest is Some {
            rest
        } else if has_type(os.last().1, t) {
            Some((os.last().0, dict_struct(os.last().1)))
        } else {
            None
        }
    }
}

/// The binding a name receives when a table's page-tree-root dictionaries
/// are folded in encounter order, a later candidate's field overwriting an
/// earlier one's: the value from the last Pages-typed object that binds the
/// name, if any does.
pub open spec fn pages_fold_binding(os: Seq<(ObjId, Obj)>, n: Seq<u8>) -> Option<Obj>
    decreases os.len(),
{
    if os.len() == 0 {
        None
    } else if has_type(os.last().1, Tag::Pages) && dget(dict_struct(os.last().1)@, n) is Some {
        dget(dict_struct(os.last().1)@, n)
    } else {
        pages_fold_binding(os.drop_last(), n)
    }
}

/// A table without a Pages-typed object binds nothing in the fold.
pub proof fn lemma_pages_fold_none(os: Seq<(ObjId, Obj)>)
    requires
        forall|j: int| 0 <= j < os.len() ==> !has_type((#[trigger] os[j]).1, Tag::Pages),
    ensures
        forall|n: Seq<u8>| pages_fold_binding(os, n) is None,
    decreases os.len(),
{
    if os.len() > 0 {
        assert forall|j: int| 0 <= j < os.drop_last().len() implies !has_type(
            (#[trigger] os.drop_last()[j]).1,
            Tag::Pages,
        ) by {
            assert(os.drop_last()[j] == os[j]);
        }
        lemma_pages_fold_none(os.drop_last());
        assert(os.last() == os[os.len() - 1]);
        assert forall|n: Seq<u8>| true implies pages_fold_binding(os, n) is None by {
            assert(pages_fold_binding(os.drop_last(), n) is None);
        }
    }
}

/// How many objects of a table declare the given type.
pub open spec fn count_typed(os: Seq<(ObjId, Obj)>, t: Tag) -> int
    decreases os.len(),
{
    if os.len() == 0 {
        0
    } else {
        count_typed(os.drop_last(), t) + if has_type(os.last().1, t) {
            1int
        } else {
            0int
        }
    }
}

/// The number of page objects across a list of documents.
pub open spec fn total_pages(docs: Seq<DocGraph>) -> int
    decreases docs.len(),
{
    if docs.len() == 0 {
        0
    } else {
        total_pages(docs.drop_last()) + count_typed(docs.last().objects@, Tag::Page)
    }
}

/// The number of objects across a list of documents.
pub open spec fn total_objects(docs: Seq<DocGraph>) -> int
    decreases docs.len(),
{
    if docs.len() == 0 {
        0
    } else {
        total_objects(docs.drop_last()) + docs.last().objects@.len()
    }
}

/// How many documents bring at least one page object.
pub open spec fn contributing(docs: Seq<DocGraph>) -> int
    decreases docs.len(),
{
    if docs.len() == 0 {
        0
    } else {
        contributing(docs.drop_last()) + if count_typed(docs.last().objects@, Tag::Page) > 0 {
            1int
        } else {
            0int
        }
    }
}

/// Where each contributing document's first page lands in the concatenated
/// page collection: one position per contributing document, in document
/// order, each the number of pages that earlier documents brought.
pub open spec fn bm_positions(docs: Seq<DocGraph>) -> Seq<int>
    decreases docs.len(),
{
    if docs.len() == 0 {
        Seq::empty()
    } else {
        let rest = bm_positions(docs.drop_last());
        if count_typed(docs.last().objects@, Tag::Page) > 0 {
            rest.push(total_pages(docs.drop_last()))
        } else {
            rest
        }
    }
}

/// The inputs' pages, concatenated: every document's page objects in table
/// order, documents in the order supplied.
pub open spec fn all_pages(docs: Seq<DocGraph>) -> Seq<PageRecord>
    decreases docs.len(),
{
    if docs.len() == 0 {
        Seq::empty()
    } else {
        all_pages(docs.drop_last()) + pages_of(
            docs.last().objects@,
            (docs.len() - 1) as usize,
        )
    }
}

/// The inputs' passthrough objects, concatenated in the same order.
pub open spec fn all_passthru(docs: Seq<DocGraph>) -> Seq<(ObjId, Obj)>
    decreases docs.len(),
{
    if docs.len() == 0 {
        Seq::empty()
    } else {
        all_passthru(docs.drop_last()) + passthru_of(docs.last().objects@)
    }
}

/// The binding a name receives when every input's page-tree-root
/// dictionaries are folded across the documents in order, a later
/// document's candidate overwriting an earlier one's.
pub open spec fn input_fold_binding(docs: Seq<DocGraph>, n: Seq<u8>) -> Option<Obj>
    decreases docs.len(),
{
    if docs.len() == 0 {
        None
    } else if pages_fold_binding(docs.last().objects@, n) is Some {
        pages_fold_binding(docs.last().objects@, n)
    } else {
        input_fold_binding(docs.drop_last(), n)
    }
}

/// The dictionary of the first Catalog-typed object across the inputs, in
/// document order: the merge's anchor catalog.
pub open spec fn input_anchor(docs: Seq<DocGraph>) -> Option<Dict>
    decreases docs.len(),
{
    if docs.len() == 0 {
        None
    } else {
        let rest = input_anchor(docs.drop_last());
        if rest is Some {
            rest
        } else {
            match first_typed(docs.last().objects@, Tag::Catalog) {
                Some(p) => Some(p.1),
                None => None,
            }
        }
    }
}

/// At most one bookmark arises per document, and never a negative count.
pub proof fn lemma_contributing_bounds(docs: Seq<DocGraph>)
    ensures
        0 <= contributing(docs) <= docs.len(),
    decreases docs.len(),
{
    if docs.len() > 0 {
        lemma_contributing_bounds(docs.drop_last());
    }
}

/// Whether the documents' objects, the merged page tree and catalog, one
/// synthesized outline root and one outline item per document all fit in
/// the identifier space.
pub open spec fn docs_fit(docs: Seq<DocGraph>) -> bool {
    4 + total_objects(docs) + docs.len() <= u32::MAX as int
}

/// Whether a table holds an object of the given declared type.
pub open spec fn graph_has_typed(os: Seq<(ObjId, Obj)>, t: Tag) -> bool {
    exists|j: int| 0 <= j < os.len() && has_type((#[trigger] os[j]).1, t)
}

/// Whether some document holds an object of the given declared type.
pub open spec fn any_doc_typed(docs: Seq<DocGraph>, t: Tag) -> bool
    decreases docs.len(),
{
    if docs.len() == 0 {
        false
    } else {
        any_doc_typed(docs.drop_last(), t) || graph_has_typed(docs.last().objects@, t)
    }
}

/// `first_typed` finds something exactly when the table holds an object of
/// that type; what it finds is that object's identifier and dictionary, and
/// the dictionary declares the type.
pub proof fn lemma_first_typed(os: Seq<(ObjId, Obj)>, t: Tag)
    ensures
        (first_typed(os, t) is Some) == exists|j: int|
            0 <= j < os.len() && has_type((#[trigger] os[j]).1, t),
        first_typed(os, t) is Some ==> exists|j: int|
            0 <= j < os.len() && has_type((#[trigger] os[j]).1, t) && os[j].0 == first_typed(
                os,
                t,
            )->Some_0.0 && dict_struct(os[j].1) == first_typed(os, t)->Some_0.1,
        first_typed(os, t) is Some ==> type_from_entries(first_typed(os, t)->Some_0.1@)
            == Some(tag_bytes(t)),
    decreases os.len(),
{
    if os.len() == 0 {
    } else {
        lemma_first_typed(os.drop_last(), t);
        if first_typed(os.drop_last(), t) is Some {
            assert forall|j: int|
                0 <= j < os.drop_last().len() && has_type(
                    (#[trigger] os.drop_last()[j]).1,
                    t,
                ) implies 0 <= j < os.len() && has_type(os[j].1, t) && os[j]
                == os.drop_last()[j] by {}
        } else if has_type(os.last().1, t) {
            assert(os[os.len() - 1] == os.last());
        } else {
            assert forall|j: int| 0 <= j < os.len() && has_type((#[trigger] os[j]).1, t)
                implies false by {
                if j < os.len() - 1 {
                    assert(os.drop_last()[j] == os[j]);
                }
            }
        }
    }
}

/// Two tables whose objects declare the same types slot for slot hold the
/// same number of each type, and one holds a type exactly when the other
/// does.
pub proof fn lemma_typed_pointwise(a: Seq<(ObjId, Obj)>, b: Seq<(ObjId, Obj)>, t: Tag)
    requires
        a.len() == b.len(),
        forall|i: int|
            0 <= i < a.len() ==> type_name_of((#[trigger] a[i]).1) == type_name_of(
                (#[trigger] b[i]).1,
            ),
    ensures
        count_typed(a, t) == count_typed(b, t),
        (exists|j: int| 0 <= j < a.len() && has_type((#[trigger] a[j]).1, t)) == (exists|j: int|
            0 <= j < b.len() && has_type((#[trigger] b[j]).1, t)),
    decreases a.len(),
{
    if a.len() == 0 {
    } else {
        assert forall|i: int| 0 <= i < a.drop_last().len() implies type_name_of(
            (#[trigger] a.drop_last()[i]).1,
        ) == type_name_of(b.drop_last()[i].1) by {
            assert(a.drop_last()[i] == a[i]);
            assert(b.drop_last()[i] == b[i]);
        }
        lemma_typed_pointwise(a.drop_last(), b.drop_last(), t);
        assert(a.last() == a[a.len() - 1]);
        assert(b.last() == b[a.len() - 1]);
        assert forall|j: int| 0 <= j < a.len() && has_type((#[trigger] a[j]).1, t) implies (
        exists|k: int| 0 <= k < b.len() && has_type((#[trigger] b[k]).1, t)) by {
            assert(has_type(b[j].1, t));
        }
        assert forall|j: int| 0 <= j < b.len() && has_type((#[trigger] b[j]).1, t) implies (
        exists|k: int| 0 <= k < a.len() && has_type((#[trigger] a[k]).1, t)) by {
            assert(has_type(a[j].1, t));
        }
    }
}

/// A table's pages are exactly its page-typed objects: one record per such
/// slot, in order.
pub proof fn lemma_pages_of(os: Seq<(ObjId, Obj)>, di: usize)
    ensures
        pages_of(os, di).len() == count_typed(os, Tag::Page),
        forall|k: int|
            0 <= k < pages_of(os, di).len() ==> {
                &&& has_type((#[trigger] pages_of(os, di)[k]).obj, Tag::Page)
                &&& pages_of(os, di)[k].doc_index == di
                &&& exists|j: int|
                    0 <= j < os.len() && (#[trigger] os[j]).0 == pages_of(os, di)[k].id
                        && os[j].1 == pages_of(os, di)[k].obj
            },
    decreases os.len(),
{
    if os.len() == 0 {
    } else {
        lemma_pages_of(os.drop_last(), di);
        assert forall|k: int|
            0 <= k < pages_of(os.drop_last(), di).len() implies (exists|j: int|
            0 <= j < os.len() && (#[trigger] os[j]).0 == (#[trigger] pages_of(
                os.drop_last(),
                di,
            )[k]).id && os[j].1 == pages_of(os.drop_last(), di)[k].obj) by {
            let j0 = choose|j: int|
                0 <= j < os.drop_last().len() && (#[trigger] os.drop_last()[j]).0 == pages_of(
                    os.drop_last(),
                    di,
                )[k].id && os.drop_last()[j].1 == pages_of(os.drop_last(), di)[k].obj;
            assert(os[j0] == os.drop_last()[j0]);
        }
        if has_type(os.last().1, Tag::Page) {
            assert(os[os.len() - 1] == os.last());
        }
    }
}

/// What passes through is exactly the non-special objects, in order.
pub proof fn lemma_passthru_of(os: Seq<(ObjId, Obj)>)
    ensures
        forall|k: int|
            0 <= k < passthru_of(os).len() ==> !is_special((#[trigger] passthru_of(os)[k]).1)
                && exists|j: int| 0 <= j < os.len() && #[trigger] os[j] == passthru_of(os)[k],
    decreases os.len(),
{
    if os.len() > 0 {
        lemma_passthru_of(os.drop_last());
        assert forall|k: int|
            0 <= k < passthru_of(os.drop_last()).len() implies (exists|j: int|
            0 <= j < os.len() && #[trigger] os[j] == (#[trigger] passthru_of(
                os.drop_last(),
            )[k])) by {
            let j0 = choose|j: int|
                0 <= j < os.drop_last().len() && #[trigger] os.drop_last()[j] == passthru_of(
                    os.drop_last(),
                )[k];
            assert(os[j0] == os.drop_last()[j0]);
        }
        if !is_special(os.last().1) {
            assert(os[os.len() - 1] == os.last());
        }
    }
}

/// In a table without duplicate identifiers the passthrough bucket holds
/// none either.
pub proof fn lemma_passthru_distinct(os: Seq<(ObjId, Obj)>)
    requires
        forall|i: int, j: int|
            0 <= i < j < os.len() ==> (#[trigger] os[i]).0 != (#[trigger] os[j]).0,
    ensures
        forall|k1: int, k2: int|
            0 <= k1 < k2 < passthru_of(os).len() ==> (#[trigger] passthru_of(os)[k1]).0 != (
            #[trigger] passthru_of(os)[k2]).0,
    decreases os.len(),
{
    if os.len() > 0 {
        assert forall|i: int, j: int|
            0 <= i < j < os.drop_last().len() implies (#[trigger] os.drop_last()[i]).0 != (
        #[trigger] os.drop_last()[j]).0 by {
            assert(os.drop_last()[i] == os[i]);
            assert(os.drop_last()[j] == os[j]);
        }
        lemma_passthru_distinct(os.drop_last());
        lemma_passthru_of(os.drop_last());
        if !is_special(os.last().1) {
            assert forall|k1: int, k2: int|
                0 <= k1 < k2 < passthru_of(os).len() implies (#[trigger] passthru_of(os)[
                k1]).0 != (#[trigger] passthru_of(os)[k2]).0 by {
                if k2 == passthru_of(os).len() - 1 {
                    let j0 = choose|j: int|
                        0 <= j < os.drop_last().len() && #[trigger] os.drop_last()[j]
                            == passthru_of(os.drop_last())[k1];
                    assert(os[j0] == os.drop_last()[j0]);
                    assert(passthru_of(os)[k1] == passthru_of(os.drop_last())[k1]);
                    assert(passthru_of(os)[k2] == os.last());
                    assert(os.last() == os[os.len() - 1]);
                }
            }
        }
    }
}

/// In a table without duplicate identifiers the page bucket holds none
/// either.
pub proof fn lemma_pages_of_distinct(os: Seq<(ObjId, Obj)>, di: usize)
    requires
        forall|i: int, j: int|
            0 <= i < j < os.len() ==> (#[trigger] os[i]).0 != (#[trigger] os[j]).0,
    ensures
        forall|k1: int, k2: int|
            0 <= k1 < k2 < pages_of(os, di).len() ==> (#[trigger] pages_of(os, di)[k1]).id != (
            #[trigger] pages_of(os, di)[k2]).id,
    decreases os.len(),
{
    if os.len() > 0 {
        assert forall|i: int, j: int|
            0 <= i < j < os.drop_last().len() implies (#[trigger] os.drop_last()[i]).0 != (
        #[trigger] os.drop_last()[j]).0 by {
            assert(os.drop_last()[i] == os[i]);
            assert(os.drop_last()[j] == os[j]);
        }
        lemma_pages_of_distinct(os.drop_last(), di);
        lemma_pages_of(os.drop_last(), di);
        if has_type(os.last().1, Tag::Page) {
            assert forall|k1: int, k2: int|
                0 <= k1 < k2 < pages_of(os, di).len() implies (#[trigger] pages_of(os, di)[
                k1]).id != (#[trigger] pages_of(os, di)[k2]).id by {
                if k2 == pages_of(os, di).len() - 1 {
                    let j0 = choose|j: int|
                        0 <= j < os.drop_last().len() && (#[trigger] os.drop_last()[j]).0
                            == pages_of(os.drop_last(), di)[k1].id && os.drop_last()[j].1
                            == pages_of(os.drop_last(), di)[k1].obj;
                    assert(os[j0] == os.drop_last()[j0]);
                    assert(pages_of(os, di)[k1] == pages_of(os.drop_last(), di)[k1]);
                    assert(pages_of(os, di)[k2].id == os.last().0);
                    assert(os.last() == os[os.len() - 1]);
                }
            }
        }
    }
}

/// In a table whose page-typed objects sit exactly in the contiguous slot
/// range starting at `lo`, the page collection is that range, in order.
pub proof fn lemma_pages_of_region(os: Seq<(ObjId, Obj)>, lo: int, c: int)
    requires
        0 <= lo,
        0 <= c,
        lo + c <= os.len(),
        forall|i: int|
            0 <= i < os.len() ==> (has_type((#[trigger] os[i]).1, Tag::Page) <==> (lo <= i < lo
                + c)),
    ensures
        pages_of(os, 0).len() == c,
        forall|k: int|
            0 <= k < c ==> ((#[trigger] pages_of(os, 0)[k]).id == os[lo + k].0 && pages_of(
                os,
                0,
            )[k].obj == os[lo + k].1),
    decreases os.len(),
{
    if os.len() == 0 {
    } else {
        assert(os.last() == os[os.len() - 1]);
        if has_type(os.last().1, Tag::Page) {
            assert(lo + c == os.len());
            assert(c >= 1);
            assert forall|i: int|
                0 <= i < os.drop_last().len() implies (has_type(
                (#[trigger] os.drop_last()[i]).1,
                Tag::Page,
            ) <==> (lo <= i < lo + (c - 1))) by {
                assert(os.drop_last()[i] == os[i]);
            }
            lemma_pages_of_region(os.drop_last(), lo, c - 1);
            assert forall|k: int|
                0 <= k < c implies ((#[trigger] pages_of(os, 0)[k]).id == os[lo + k].0
                    && pages_of(os, 0)[k].obj == os[lo + k].1) by {
                if k < c - 1 {
                    assert(pages_of(os, 0)[k] == pages_of(os.drop_last(), 0)[k]);
                    assert(os.drop_last()[lo + k] == os[lo + k]);
                } else {
                    assert(pages_of(os, 0)[k].id == os.last().0);
                }
            }
        } else if c == 0 {
            assert forall|i: int|
                0 <= i < os.drop_last().len() implies (has_type(
                (#[trigger] os.drop_last()[i]).1,
                Tag::Page,
            ) <==> (0 <= i < 0)) by {
                assert(os.drop_last()[i] == os[i]);
            }
            lemma_pages_of_region(os.drop_last(), 0, 0);
        } else {
            assert(lo + c <= os.len() - 1) by {
                if lo + c > os.len() - 1 {
                    assert(lo <= os.len() - 1 < lo + c);
                    assert(has_type(os[os.len() - 1].1, Tag::Page));
                }
            }
            assert forall|i: int|
                0 <= i < os.drop_last().len() implies (has_type(
                (#[trigger] os.drop_last()[i]).1,
                Tag::Page,
            ) <==> (lo <= i < lo + c)) by {
                assert(os.drop_last()[i] == os[i]);
            }
            lemma_pages_of_region(os.drop_last(), lo, c);
            assert forall|k: int|
                0 <= k < c implies ((#[trigger] pages_of(os, 0)[k]).id == os[lo + k].0
                    && pages_of(os, 0)[k].obj == os[lo + k].1) by {
                assert(pages_of(os, 0)[k] == pages_of(os.drop_last(), 0)[k]);
                assert(os.drop_last()[lo + k] == os[lo + k]);
            }
        }
    }
}

/// Two tables related slot for slot by one reference-rewriting pass have
/// page collections related the same way, position for position.
pub proof fn lemma_pages_of_rw(
    ids: Seq<ObjId>,
    st: u32,
    a: Seq<(ObjId, Obj)>,
    b: Seq<(ObjId, Obj)>,
    di: usize,
)
    requires
        a.len() == b.len(),
        forall|i: int| 0 <= i < a.len() ==> rw_obj(ids, st, a[i].1, (#[trigger] b[i]).1),
    ensures
        pages_of(b, di).len() == pages_of(a, di).len(),
        forall|k: int|
            0 <= k < pages_of(a, di).len() ==> rw_obj(
                ids,
                st,
                pages_of(a, di)[k].obj,
                (#[trigger] pages_of(b, di)[k]).obj,
            ),
    decreases a.len(),
{
    if a.len() > 0 {
        assert forall|i: int| 0 <= i < a.drop_last().len() implies rw_obj(
            ids,
            st,
            a.drop_last()[i].1,
            (#[trigger] b.drop_last()[i]).1,
        ) by {
            assert(a.drop_last()[i] == a[i]);
            assert(b.drop_last()[i] == b[i]);
        }
        lemma_pages_of_rw(ids, st, a.drop_last(), b.drop_last(), di);
        assert(a.last() == a[a.len() - 1]);
        assert(b.last() == b[a.len() - 1]);
        lemma_rw_type(ids, st, a.last().1, b.last().1);
    }
}

/// The same, for the passthrough bucket.
pub proof fn lemma_passthru_rw(ids: Seq<ObjId>, st: u32, a: Seq<(ObjId, Obj)>, b: Seq<(
    ObjId,
    Obj,
)>)
    requires
        a.len() == b.len(),
        forall|i: int| 0 <= i < a.len() ==> rw_obj(ids, st, a[i].1, (#[trigger] b[i]).1),
    ensures
        passthru_of(b).len() == passthru_of(a).len(),
        forall|k: int|
            0 <= k < passthru_of(a).len() ==> rw_obj(
                ids,
                st,
                passthru_of(a)[k].1,
                (#[trigger] passthru_of(b)[k]).1,
            ),
    decreases a.len(),
{
    if a.len() > 0 {
        assert forall|i: int| 0 <= i < a.drop_last().len() implies rw_obj(
            ids,
            st,
            a.drop_last()[i].1,
            (#[trigger] b.drop_last()[i]).1,
        ) by {
            assert(a.drop_last()[i] == a[i]);
            assert(b.drop_last()[i] == b[i]);
        }
        lemma_passthru_rw(ids, st, a.drop_last(), b.drop_last());
        assert(a.last() == a[a.len() - 1]);
        assert(b.last() == b[a.len() - 1]);
        lemma_rw_type(ids, st, a.last().1, b.last().1);
    }
}

/// The same, for the page-tree-root fold: the rewritten table's fold binds
/// a name exactly when the original's does, to the rewritten value.
pub proof fn lemma_fold_rw(
    ids: Seq<ObjId>,
    st: u32,
    a: Seq<(ObjId, Obj)>,
    b: Seq<(ObjId, Obj)>,
    n: Seq<u8>,
)
    requires
        a.len() == b.len(),
        forall|i: int| 0 <= i < a.len() ==> rw_obj(ids, st, a[i].1, (#[trigger] b[i]).1),
    ensures
        match pages_fold_binding(a, n) {
            Some(v) => pages_fold_binding(b, n) is Some && rw_obj(
                ids,
                st,
                v,
                pages_fold_binding(b, n)->Some_0,
            ),
            None => pages_fold_binding(b, n) is None,
        },
    decreases a.len(),
{
    if a.len() > 0 {
        assert forall|i: int| 0 <= i < a.drop_last().len() implies rw_obj(
            ids,
            st,
            a.drop_last()[i].1,
            (#[trigger] b.drop_last()[i]).1,
        ) by {
            assert(a.drop_last()[i] == a[i]);
            assert(b.drop_last()[i] == b[i]);
        }
        lemma_fold_rw(ids, st, a.drop_last(), b.drop_last(), n);
        assert(a.last() == a[a.len() - 1]);
        assert(b.last() == b[a.len() - 1]);
        lemma_rw_type(ids, st, a.last().1, b.last().1);
        if has_type(a.last().1, Tag::Pages) {
            assert(a.last().1 is Dict || a.last().1 is Stream) by {
                if !(a.last().1 is Dict || a.last().1 is Stream) {
                    assert(type_name_of(a.last().1) is None);
                }
            }
            crate::graph::lemma_rw_dget(
                ids,
                st,
                dict_struct(a.last().1)@,
                dict_struct(b.last().1)@,
                n,
            );
        }
    }
}

/// The same, for the anchor catalog: the rewritten table's first
/// Catalog-typed object carries the rewritten form of the original's.
pub proof fn lemma_first_typed_rw(
    ids: Seq<ObjId>,
    st: u32,
    a: Seq<(ObjId, Obj)>,
    b: Seq<(ObjId, Obj)>,
    t: Tag,
)
    requires
        a.len() == b.len(),
        forall|i: int| 0 <= i < a.len() ==> rw_obj(ids, st, a[i].1, (#[trigger] b[i]).1),
    ensures
        (first_typed(b, t) is Some) == (first_typed(a, t) is Some),
        first_typed(a, t) is Some ==> rw_entries(
            ids,
            st,
            first_typed(a, t)->Some_0.1@,
            first_typed(b, t)->Some_0.1@,
        ),
    decreases a.len(),
{
    if a.len() > 0 {
        assert forall|i: int| 0 <= i < a.drop_last().len() implies rw_obj(
            ids,
            st,
            a.drop_last()[i].1,
            (#[trigger] b.drop_last()[i]).1,
        ) by {
            assert(a.drop_last()[i] == a[i]);
            assert(b.drop_last()[i] == b[i]);
        }
        lemma_first_typed_rw(ids, st, a.drop_last(), b.drop_last(), t);
        assert(a.last() == a[a.len() - 1]);
        assert(b.last() == b[a.len() - 1]);
        lemma_rw_type(ids, st, a.last().1, b.last().1);
    }
}

/// Takes the dictionary out of a dictionary or stream object.
fn dict_take(o: Obj) -> (r: Dict)
    requires
        o is Dict || o is Stream,
    ensures
        r == dict_struct(o),
{
    match o {
        Obj::Dict(d) => d,
        Obj::Stream(d, _) => d,
        _ => {
            proof {
                assert(false);
            }
            Dict::empty()
        },
    }
}

impl Collected {
    /// A collector with nothing collected yet.
    pub fn new() -> (r: Collected)
        ensures
            r.passthrough@ =~= Seq::<(ObjId, Obj)>::empty(),
            r.pages@ =~= Seq::<PageRecord>::empty(),
            r.catalog_id is None,
            r.pages_root_id is None,
            r.pages_root_dict@ =~= Seq::<DictEntry>::empty(),
    {
        Collected {
            passthrough: Vec::new(),
            pages: Vec::new(),
            catalog_id: None,
            catalog_dict: Dict::empty(),
            pages_root_id: None,
            pages_root_dict: Dict::empty(),
        }
    }
}

/// Walks one renumbered document's object table and buckets every object by
/// its declared role: the first catalog anywhere becomes the anchor, page
/// tree roots fold into the accumulated root dictionary (a later document's
/// field overwriting an earlier one's), pages are appended in order, outline
/// objects are dropped, and everything else passes through.
pub fn classify_doc(col: &mut Collected, objects: Vec<(ObjId, Obj)>, di: usize)
    requires
        old(col).pages_root_id is Some ==> type_from_entries(old(col).pages_root_dict@)
            == Some(tag_bytes(Tag::Pages)),
        old(col).catalog_id is Some ==> type_from_entries(old(col).catalog_dict@) == Some(
            tag_bytes(Tag::Catalog),
        ),
        old(col).pages_root_id is None ==> old(col).pages_root_dict@ == Seq::<
            DictEntry,
        >::empty(),
    ensures
        forall|n: Seq<u8>|
            dget(final(col).pages_root_dict@, n) == (if pages_fold_binding(objects@, n)
                is Some {
                pages_fold_binding(objects@, n)
            } else {
                dget(old(col).pages_root_dict@, n)
            }),
        final(col).pages_root_id is None ==> final(col).pages_root_dict@ == Seq::<
            DictEntry,
        >::empty(),
        final(col).passthrough@ == old(col).passthrough@ + passthru_of(objects@),
        final(col).pages@ == old(col).pages@ + pages_of(objects@, di),
        final(col).catalog_id == (if old(col).catalog_id is Some {
            old(col).catalog_id
        } else {
            match first_typed(objects@, Tag::Catalog) {
                Some(p) => Some(p.0),
                None => None::<ObjId>,
            }
        }),
        old(col).catalog_id is Some ==> final(col).catalog_dict == old(col).catalog_dict,
        (old(col).catalog_id is None && first_typed(objects@, Tag::Catalog) is Some)
            ==> final(col).catalog_dict == first_typed(objects@, Tag::Catalog)->Some_0.1,
        (final(col).pages_root_id is Some) == (old(col).pages_root_id is Some || first_typed(
            objects@,
            Tag::Pages,
        ) is Some),
        old(col).pages_root_id is Some ==> final(col).pages_root_id == old(col).pages_root_id,
        (old(col).pages_root_id is None && first_typed(objects@, Tag::Pages) is Some)
            ==> final(col).pages_root_id == Some(first_typed(objects@, Tag::Pages)->Some_0.0),
        final(col).pages_root_id is Some ==> type_from_entries(final(col).pages_root_dict@)
            == Some(tag_bytes(Tag::Pages)),
        final(col).catalog_id is Some ==> type_from_entries(final(col).catalog_dict@) == Some(
            tag_bytes(Tag::Catalog),
        ),
{
    let ghost os0 = objects@;
    let ghost c0 = *col;
    let mut rem = objects;
    proof {
        assert(os0.subrange(0, os0.len() as int) =~= os0);
        assert(os0.take(0) =~= Seq::<(ObjId, Obj)>::empty());
    }
    while rem.len() > 0
        invariant
            rem@.len() <= os0.len(),
            rem@ == os0.subrange(os0.len() - rem@.len(), os0.len() as int),
            col.passthrough@ == c0.passthrough@ + passthru_of(os0.take(os0.len() - rem@.len())),
            col.pages@ == c0.pages@ + pages_of(os0.take(os0.len() - rem@.len()), di),
            col.catalog_id == (if c0.catalog_id is Some {
                c0.catalog_id
            } else {
                match first_typed(os0.take(os0.len() - rem@.len()), Tag::Catalog) {
                    Some(p) => Some(p.0),
                    None => None::<ObjId>,
                }
            }),
            c0.catalog_id is Some ==> col.catalog_dict == c0.catalog_dict,
            (c0.catalog_id is None && first_typed(
                os0.take(os0.len() - rem@.len()),
                Tag::Catalog,
            ) is Some) ==> col.catalog_dict == first_typed(
                os0.take(os0.len() - rem@.len()),
                Tag::Catalog,
            )->Some_0.1,
            (col.pages_root_id is Some) == (c0.pages_root_id is Some || first_typed(
                os0.take(os0.len() - rem@.len()),
                Tag::Pages,
            ) is Some),
            c0.pages_root_id is Some ==> col.pages_root_id == c0.pages_root_id,
            (c0.pages_root_id is None && first_typed(
                os0.take(os0.len() - rem@.len()),
                Tag::Pages,
            ) is Some) ==> col.pages_root_id == Some(first_typed(
                os0.take(os0.len() - rem@.len()),
                Tag::Pages,
            )->Some_0.0),
            col.pages_root_id is Some ==> type_from_entries(col.pages_root_dict@) == Some(
                tag_bytes(Tag::Pages),
            ),
            col.catalog_id is Some ==> type_from_entries(col.catalog_dict@) == Some(
                tag_bytes(Tag::Catalog),
            ),
            c0.pages_root_id is Some ==> type_from_entries(c0.pages_root_dict@) == Some(
                tag_bytes(Tag::Pages),
            ),
            c0.catalog_id is Some ==> type_from_entries(c0.catalog_dict@) == Some(
                tag_bytes(Tag::Catalog),
            ),
            c0.pages_root_id is None ==> c0.pages_root_dict@ == Seq::<DictEntry>::empty(),
            col.pages_root_id is None ==> col.pages_root_dict@ == Seq::<DictEntry>::empty(),
            forall|n: Seq<u8>|
                dget(col.pages_root_dict@, n) == (if pages_fold_binding(
                    os0.take(os0.len() - rem@.len()),
                    n,
                ) is Some {
                    pages_fold_binding(os0.take(os0.len() - rem@.len()), n)
                } else {
                    dget(c0.pages_root_dict@, n)
                }),
        decreases rem@.len(),
    {
        let ghost p = os0.len() - rem@.len();
        let entry = rem.remove(0);
        let (id, o) = entry;
        proof {
            assert(entry == os0[p]);
            assert(rem@ =~= os0.subrange(p + 1, os0.len() as int));
            assert(os0.take(p + 1).drop_last() =~= os0.take(p));
            assert(os0.take(p + 1).last() == os0[p]);
        }
        proof {
            assert(tag_bytes(Tag::Catalog).len() == 7);
            assert(tag_bytes(Tag::Pages).len() == 5);
            assert(tag_bytes(Tag::Page).len() == 4);
            assert(tag_bytes(Tag::Outlines).len() == 8);
            assert(tag_bytes(Tag::Outline).len() == 7);
            assert(tag_bytes(Tag::Outline)[0] != tag_bytes(Tag::Catalog)[0]);
            assert(pages_of(os0.take(p + 1), di) == (if has_type(os0[p].1, Tag::Page) {
                pages_of(os0.take(p), di).push(
                    PageRecord { doc_index: di, id: os0[p].0, obj: os0[p].1 },
                )
            } else {
                pages_of(os0.take(p), di)
            }));
            assert forall|n: Seq<u8>| true implies pages_fold_binding(os0.take(p + 1), n)
                == (if has_type(os0[p].1, Tag::Pages) && dget(dict_struct(os0[p].1)@, n)
                    is Some {
                    dget(dict_struct(os0[p].1)@, n)
                } else {
                    pages_fold_binding(os0.take(p), n)
                }) by {}
        }
        if crate::model::check_type(&o, Tag::Catalog) {
            if col.catalog_id.is_none() {
                col.catalog_id = Some(id);
                col.catalog_dict = dict_take(o);
            }
        } else if crate::model::check_type(&o, Tag::Pages) {
            if col.pages_root_id.is_none() {
                proof {
                    lemma_first_typed(os0.take(p), Tag::Pages);
                    assert forall|j: int| 0 <= j < os0.take(p).len() implies !has_type(
                        (#[trigger] os0.take(p)[j]).1,
                        Tag::Pages,
                    ) by {
                        if has_type(os0.take(p)[j].1, Tag::Pages) {
                            assert(first_typed(os0.take(p), Tag::Pages) is Some);
                        }
                    }
                    lemma_pages_fold_none(os0.take(p));
                }
                col.pages_root_id = Some(id);
                col.pages_root_dict = dict_take(o);
                proof {
                    assert forall|n: Seq<u8>| true implies dget(col.pages_root_dict@, n) == (
                    if pages_fold_binding(os0.take(p + 1), n) is Some {
                        pages_fold_binding(os0.take(p + 1), n)
                    } else {
                        dget(c0.pages_root_dict@, n)
                    }) by {
                        assert(dget(Seq::<DictEntry>::empty(), n) is None);
                    }
                }
            } else {
                let d = dict_take(o);
                col.pages_root_dict.merge_from(d);
                proof {
                    assert forall|n: Seq<u8>| true implies dget(col.pages_root_dict@, n) == (
                    if pages_fold_binding(os0.take(p + 1), n) is Some {
                        pages_fold_binding(os0.take(p + 1), n)
                    } else {
                        dget(c0.pages_root_dict@, n)
                    }) by {}
                }
            }
        } else if crate::model::check_type(&o, Tag::Page) {
            let ghost r = PageRecord { doc_index: di, id: os0[p].0, obj: os0[p].1 };
            proof {
                assert(c0.pages@ + pages_of(os0.take(p), di).push(r) =~= (c0.pages@ + pages_of(
                    os0.take(p),
                    di,
                )).push(r));
            }
            col.pages.push(PageRecord { doc_index: di, id, obj: o });
            proof {
                assert(col.pages@ == (c0.pages@ + pages_of(os0.take(p), di)).push(r));
                assert(col.pages@ == c0.pages@ + pages_of(os0.take(p + 1), di));
            }
        } else if crate::model::check_type(&o, Tag::Outlines) || crate::model::check_type(
            &o,
            Tag::Outline,
        ) {
            // outline merging from the inputs is unsupported: dropped
        } else {
            proof {
                assert(c0.passthrough@ + passthru_of(os0.take(p)).push(os0[p]) =~= (
                c0.passthrough@ + passthru_of(os0.take(p))).push(os0[p]));
            }
            col.passthrough.push((id, o));
        }
        proof {
            assert(os0.len() - rem@.len() == p + 1);
            assert(col.pages@ == c0.pages@ + pages_of(os0.take(p + 1), di));
        }
    }
    proof {
        assert(os0.take(os0.len() as int) =~= os0);
    }
}

/// Counts lie between zero and the table's length.
pub proof fn lemma_count_bounds(os: Seq<(ObjId, Obj)>, t: Tag)
    ensures
        0 <= count_typed(os, t) <= os.len(),
    decreases os.len(),
{
    if os.len() > 0 {
        lemma_count_bounds(os.drop_last(), t);
    }
}

/// Totals are nonnegative, and a list never holds more pages than objects.
pub proof fn lemma_total_nonneg(docs: Seq<DocGraph>)
    ensures
        0 <= total_pages(docs) <= total_objects(docs),
    decreases docs.len(),
{
    if docs.len() > 0 {
        lemma_total_nonneg(docs.drop_last());
        lemma_count_bounds(docs.last().objects@, Tag::Page);
    }
}

/// One more document adds its own object and page counts to a prefix total.
pub proof fn lemma_total_take_succ(docs: Seq<DocGraph>, i: int)
    requires
        0 <= i < docs.len(),
    ensures
        total_objects(docs.take(i + 1)) == total_objects(docs.take(i))
            + docs[i].objects@.len(),
        total_pages(docs.take(i + 1)) == total_pages(docs.take(i)) + count_typed(
            docs[i].objects@,
            Tag::Page,
        ),
        any_doc_typed(docs.take(i + 1), Tag::Pages) == (any_doc_typed(docs.take(i), Tag::Pages)
            || graph_has_typed(docs[i].objects@, Tag::Pages)),
        any_doc_typed(docs.take(i + 1), Tag::Catalog) == (any_doc_typed(
            docs.take(i),
            Tag::Catalog,
        ) || graph_has_typed(docs[i].objects@, Tag::Catalog)),
        contributing(docs.take(i + 1)) == contributing(docs.take(i)) + (
        if count_typed(docs[i].objects@, Tag::Page) > 0 {
            1int
        } else {
            0int
        }),
        bm_positions(docs.take(i + 1)) == (if count_typed(docs[i].objects@, Tag::Page) > 0 {
            bm_positions(docs.take(i)).push(total_pages(docs.take(i)))
        } else {
            bm_positions(docs.take(i))
        }),
        all_pages(docs.take(i + 1)) == all_pages(docs.take(i)) + pages_of(
            docs[i].objects@,
            i as usize,
        ),
        all_passthru(docs.take(i + 1)) == all_passthru(docs.take(i)) + passthru_of(
            docs[i].objects@,
        ),
        forall|n: Seq<u8>|
            input_fold_binding(docs.take(i + 1), n) == (if pages_fold_binding(
                docs[i].objects@,
                n,
            ) is Some {
                pages_fold_binding(docs[i].objects@, n)
            } else {
                input_fold_binding(docs.take(i), n)
            }),
        input_anchor(docs.take(i + 1)) == (if input_anchor(docs.take(i)) is Some {
            input_anchor(docs.take(i))
        } else {
            match first_typed(docs[i].objects@, Tag::Catalog) {
                Some(p) => Some(p.1),
                None => None::<Dict>,
            }
        }),
{
    assert(docs.take(i + 1).drop_last() =~= docs.take(i));
    assert(docs.take(i + 1).last() == docs[i]);
}

/// A prefix never counts more objects than the whole list.
pub proof fn lemma_total_prefix(docs: Seq<DocGraph>, i: int)
    requires
        0 <= i <= docs.len(),
    ensures
        total_objects(docs.take(i)) <= total_objects(docs),
        0 <= total_objects(docs.take(i)),
    decreases docs.len() - i,
{
    lemma_total_nonneg(docs.take(i));
    lemma_total_nonneg(docs);
    if i == docs.len() {
        assert(docs.take(i) =~= docs);
    } else {
        lemma_total_take_succ(docs, i);
        lemma_total_prefix(docs, i + 1);
    }
}

/// The collector's page and passthrough buckets together never exceed the
/// table they came from.
pub proof fn lemma_bucket_sizes(os: Seq<(ObjId, Obj)>, di: usize)
    ensures
        passthru_of(os).len() + pages_of(os, di).len() <= os.len(),
    decreases os.len(),
{
    if os.len() > 0 {
        lemma_bucket_sizes(os.drop_last(), di);
    }
}

/// Writes the merged page tree's identifier as the `Parent` of a page
/// object, leaving its declared type, its other fields and any stream
/// content unchanged; an object without a dictionary is left as it is.
pub fn set_parent(o: Obj, pid: ObjId) -> (r: Obj)
    ensures
        o is Dict ==> r is Dict && dget(r->Dict_0@, tag_bytes(Tag::Parent)) == Some(
            Obj::Ref(pid),
        ),
        o is Stream ==> r is Stream && dget(r->Stream_0@, tag_bytes(Tag::Parent)) == Some(
            Obj::Ref(pid),
        ),
        type_name_of(r) == type_name_of(o),
        !(o is Dict || o is Stream) ==> r == o,
        reparented(o, r, pid),
{
    proof {
        crate::model::lemma_tags();
    }
    match o {
        Obj::Dict(mut d) => {
            d.set(Tag::Parent, Obj::Ref(pid));
            Obj::Dict(d)
        },
        Obj::Stream(mut d, b) => {
            d.set(Tag::Parent, Obj::Ref(pid));
            Obj::Stream(d, b)
        },
        other => other,
    }
}


/// Re-parents every collected page to the merged page tree and appends it
/// to the output table, collecting one reference per page, in order.
fn attach_pages(pages: Vec<PageRecord>, pid: ObjId, out: &mut Vec<(ObjId, Obj)>, kids: &mut Vec<Obj>)
    requires
        old(kids)@.len() == 0,
        forall|k: int|
            0 <= k < pages@.len() ==> has_type((#[trigger] pages@[k]).obj, Tag::Page),
    ensures
        final(out)@.len() == old(out)@.len() + pages@.len(),
        final(kids)@.len() == pages@.len(),
        forall|k: int|
            0 <= k < old(out)@.len() ==> #[trigger] final(out)@[k] == old(out)@[k],
        forall|k: int|
            0 <= k < pages@.len() ==> ((#[trigger] final(out)@[old(out)@.len() + k]).0
                == pages@[k].id && has_type(final(out)@[old(out)@.len() + k].1, Tag::Page)
                && page_parent_is(final(out)@[old(out)@.len() + k].1, pid) && reparented(
                pages@[k].obj,
                final(out)@[old(out)@.len() + k].1,
                pid,
            )),
        forall|k: int|
            0 <= k < pages@.len() ==> #[trigger] final(kids)@[k] == Obj::Ref(pages@[k].id),
{
    let ghost passo = old(out)@;
    let ghost np = passo.len() as int;
    let ghost pages0 = pages@;
    let mut remp = pages;
    proof {
        assert(pages0.subrange(0, pages0.len() as int) =~= pages0);
    }
    while remp.len() > 0
        invariant
            np == passo.len() as int,
            remp@.len() <= pages0.len(),
            remp@ == pages0.subrange(pages0.len() - remp@.len(), pages0.len() as int),
            kids@.len() == pages0.len() - remp@.len(),
            out@.len() == np + (pages0.len() - remp@.len()),
            forall|k: int| 0 <= k < np ==> #[trigger] out@[k] == passo[k],
            forall|k: int|
                0 <= k < kids@.len() ==> ((#[trigger] out@[np + k]).0 == pages0[k].id
                    && has_type(out@[np + k].1, Tag::Page) && page_parent_is(
                    out@[np + k].1,
                    pid,
                ) && reparented(pages0[k].obj, out@[np + k].1, pid)),
            forall|k: int| 0 <= k < kids@.len() ==> #[trigger] kids@[k] == Obj::Ref(pages0[k].id),
            forall|k: int|
                0 <= k < pages0.len() ==> has_type((#[trigger] pages0[k]).obj, Tag::Page),
        decreases remp@.len(),
    {
        let ghost p = pages0.len() - remp@.len();
        let rec = remp.remove(0);
        proof {
            assert(rec == pages0[p]);
            assert(remp@ =~= pages0.subrange(p + 1, pages0.len() as int));
        }
        let PageRecord { doc_index: _, id, obj } = rec;
        proof {
            assert(has_type(obj, Tag::Page));
            assert(obj is Dict || obj is Stream) by {
                if !(obj is Dict || obj is Stream) {
                    assert(type_name_of(obj) is None);
                }
            }
        }
        let obj2 = set_parent(obj, pid);
        let ghost outpre = out@;
        out.push((id, obj2));
        kids.push(Obj::Ref(id));
        proof {
            assert(out@ == outpre.push((id, obj2)));
            assert(out@[np + p] == (id, obj2));
            assert forall|k: int| 0 <= k < p implies #[trigger] out@[np + k] == outpre[np
                + k] by {
                assert(0 <= np + k < outpre.len());
            }
        }
    }
}

/// `b` is `a` with its `Parent` redirected to `pid` and everything else
/// kept: same variant, same stream content, and every other name bound as
/// before. An object without a dictionary is left as it is.
pub open spec fn reparented(a: Obj, b: Obj, pid: ObjId) -> bool {
    if a is Dict || a is Stream {
        &&& (a is Dict <==> b is Dict)
        &&& (a is Stream <==> b is Stream)
        &&& (a is Stream ==> b->Stream_1@ == a->Stream_1@)
        &&& dget(dict_struct(b)@, tag_bytes(Tag::Parent)) == Some(Obj::Ref(pid))
        &&& forall|n: Seq<u8>|
            n != tag_bytes(Tag::Parent) ==> dget(dict_struct(b)@, n) == dget(
                dict_struct(a)@,
                n,
            )
    } else {
        b == a
    }
}

/// `b` is `a` carried through the whole pipeline's page path: one
/// renumbering pass, the `Parent` redirect, and the final renumbering pass.
pub open spec fn page_image(a: Obj, b: Obj) -> bool {
    exists|mid: Obj, mid2: Obj, pid: ObjId|
        rw_image(a, mid) && #[trigger] reparented(mid, mid2, pid) && rw_image(mid2, b)
}

/// Whether an object carries the given identifier as its `Parent`.
pub open spec fn page_parent_is(o: Obj, pid: ObjId) -> bool {
    &&& o is Dict || o is Stream
    &&& dget(dict_struct(o)@, tag_bytes(Tag::Parent)) == Some(Obj::Ref(pid))
}

/// What holds of a successfully merged graph: identifiers form the dense
/// range starting at one (so no two objects share one), and the trailer's
/// `Root` leads to a catalog and a page tree as `merged_linked` says.
pub open spec fn merged_wf(docs: Seq<DocGraph>, g: DocGraph) -> bool {
    &&& forall|i: int|
        0 <= i < g.objects@.len() ==> (#[trigger] g.objects@[i]).0 == new_id(1, i)
    &&& exists|ci: int, pi: int| #[trigger] merged_linked(docs, g, ci, pi)
}

/// The output graph's linkage: the trailer's `Root` references the object
/// at slot `ci`, which declares type Catalog and whose `Pages` entry
/// references the object at slot `pi`; that one is a page-tree root for the
/// inputs; every object of declared type Page anywhere in the graph carries
/// the page-tree root's identifier as its `Parent`; the catalog's
/// `Outlines` entry is present exactly when some document contributed a
/// page, and then references the one built outline root; and no object of
/// the inputs' own outline structures survives.
pub open spec fn merged_linked(docs: Seq<DocGraph>, g: DocGraph, ci: int, pi: int) -> bool {
    &&& 0 <= ci < g.objects@.len()
    &&& 0 <= pi < g.objects@.len()
    &&& dget(g.trailer@, tag_bytes(Tag::Root)) == Some(Obj::Ref(g.objects@[ci].0))
    &&& g.objects@[ci].1 is Dict
    &&& has_type(g.objects@[ci].1, Tag::Catalog)
    &&& dget(g.objects@[ci].1->Dict_0@, tag_bytes(Tag::Pages)) == Some(
        Obj::Ref(g.objects@[pi].0),
    )
    &&& pages_root_ok(docs, g, g.objects@[pi].1)
    &&& forall|i: int|
        0 <= i < g.objects@.len() && has_type((#[trigger] g.objects@[i]).1, Tag::Page)
            ==> page_parent_is(g.objects@[i].1, g.objects@[pi].0)
    &&& (contributing(docs) == 0 ==> dget(
        g.objects@[ci].1->Dict_0@,
        tag_bytes(Tag::Outlines),
    ) is None && forall|i: int|
        0 <= i < g.objects@.len() ==> !has_type((#[trigger] g.objects@[i]).1, Tag::Outlines))
    &&& (contributing(docs) > 0 ==> exists|oi: int|
        {
            &&& #[trigger] outline_root_at(docs, g, oi)
            &&& dget(g.objects@[ci].1->Dict_0@, tag_bytes(Tag::Outlines)) == Some(
                Obj::Ref(g.objects@[oi].0),
            )
            &&& forall|i: int|
                0 <= i < g.objects@.len() && has_type(
                    (#[trigger] g.objects@[i]).1,
                    Tag::Outlines,
                ) ==> i == oi
        })
    &&& forall|i: int|
        0 <= i < g.objects@.len() ==> !has_type((#[trigger] g.objects@[i]).1, Tag::Outline)
    &&& all_passthru(docs).len() <= g.objects@.len()
    &&& forall|k: int|
        0 <= k < all_passthru(docs).len() ==> rw_twice(
            all_passthru(docs)[k].1,
            (#[trigger] g.objects@[k]).1,
        )
    &&& pages_of(g.objects@, 0).len() == all_pages(docs).len()
    &&& forall|k: int|
        0 <= k < all_pages(docs).len() ==> page_image(
            (#[trigger] all_pages(docs)[k]).obj,
            pages_of(g.objects@, 0)[k].obj,
        )
    &&& input_anchor(docs) is Some
    &&& forall|n: Seq<u8>|
        n != tag_bytes(Tag::Pages) && n != tag_bytes(Tag::Outlines) ==> (match #[trigger] dget(
            input_anchor(docs)->Some_0@,
            n,
        ) {
            Some(v) => dget(g.objects@[ci].1->Dict_0@, n) is Some && rw_twice(
                v,
                dget(g.objects@[ci].1->Dict_0@, n)->Some_0,
            ),
            None => dget(g.objects@[ci].1->Dict_0@, n) is None,
        })
}

/// The outline root sits at slot `oi`, declares type Outlines, counts the
/// contributing documents, and is followed by one item per contributing
/// document.
pub open spec fn outline_root_at(docs: Seq<DocGraph>, g: DocGraph, oi: int) -> bool {
    &&& 0 <= oi
    &&& oi + contributing(docs) < g.objects@.len()
    &&& has_type(g.objects@[oi].1, Tag::Outlines)
    &&& g.objects@[oi].1 is Dict
    &&& dget(g.objects@[oi].1->Dict_0@, tag_bytes(Tag::Count)) == Some(
        Obj::Integer(contributing(docs) as i64),
    )
    &&& forall|k: int|
        1 <= k <= contributing(docs) ==> outline_item_ok(
            docs,
            g,
            (#[trigger] g.objects@[oi + k]).1,
            k,
            g.objects@[oi].0,
        )
}

/// The outline item for the `k`-th contributing document: a flat child of
/// the outline root (its `Parent`), titled with the `k`-th generated label,
/// whose destination references the first page that document brought: the
/// output's page at position `bm_positions(docs)[k - 1]`, counting the
/// output's page objects in table order.
pub open spec fn outline_item_ok(
    docs: Seq<DocGraph>,
    g: DocGraph,
    o: Obj,
    k: int,
    root: ObjId,
) -> bool {
    &&& o is Dict
    &&& match dget(o->Dict_0@, tag_bytes(Tag::Title)) {
        Some(Obj::Text(v)) => v@ == crate::outline::page_label(k as nat),
        _ => false,
    }
    &&& dget(o->Dict_0@, tag_bytes(Tag::Parent)) == Some(Obj::Ref(root))
    &&& match dget(o->Dict_0@, tag_bytes(Tag::Dest)) {
        Some(Obj::Array(a)) => {
            &&& a@.len() == 2
            &&& 0 <= bm_positions(docs)[k - 1] < pages_of(g.objects@, 0).len()
            &&& a@[0] == Obj::Ref(pages_of(g.objects@, 0)[bm_positions(docs)[k - 1]].id)
        },
        _ => false,
    }
}

/// A page-tree root for the merged documents: declared type Pages, with
/// `Count` and a `Kids` array both matching the inputs' page count, and
/// `Kids` listing, in order and without repetition, one reference to each
/// of the output's page objects, in the output's table order.
pub open spec fn pages_root_ok(docs: Seq<DocGraph>, g: DocGraph, o: Obj) -> bool {
    &&& o is Dict
    &&& has_type(o, Tag::Pages)
    &&& dget(o->Dict_0@, tag_bytes(Tag::Count)) == Some(Obj::Integer(total_pages(docs) as i64))
    &&& match dget(o->Dict_0@, tag_bytes(Tag::Kids)) {
        Some(Obj::Array(ks)) => {
            &&& ks@.len() == total_pages(docs)
            &&& ks@.len() == pages_of(g.objects@, 0).len()
            &&& forall|k: int|
                0 <= k < ks@.len() ==> #[trigger] ks@[k] == Obj::Ref(
                    pages_of(g.objects@, 0)[k].id,
                )
            &&& forall|k1: int, k2: int|
                0 <= k1 < k2 < ks@.len() ==> #[trigger] ks@[k1] != #[trigger] ks@[k2]
        },
        _ => false,
    }
    &&& forall|n: Seq<u8>|
        n != tag_bytes(Tag::Count) && n != tag_bytes(Tag::Kids) ==> (match #[trigger]
        input_fold_binding(docs, n) {
            Some(v) => dget(o->Dict_0@, n) is Some && rw_twice(v, dget(o->Dict_0@, n)->Some_0),
            None => dget(o->Dict_0@, n) is None,
        })
}

/// Merges the documents into one graph: each document's objects are
/// renumbered into a range disjoint from every other's, classified by role,
/// folded into one catalog and one page tree with every collected page
/// re-parented, an outline with one bookmark per contributing document is
/// synthesized, and a final renumbering closes the identifier gaps. Fails
/// with `EmptyInput` before any work when no documents were supplied, with
/// `TooLarge` when the inputs exceed the identifier space, and after
/// classification with `MissingPageRoot` or `MissingCatalog` when no input
/// brought a page-tree root or a catalog.
#[verifier::rlimit(100)]
pub fn merge(documents: Vec<DocGraph>) -> (r: Result<DocGraph, MergeError>)
    ensures
        (documents@.len() == 0) == (r == Err::<DocGraph, MergeError>(MergeError::EmptyInput)),
        (documents@.len() > 0 && !docs_fit(documents@)) == (r == Err::<DocGraph, MergeError>(
            MergeError::TooLarge,
        )),
        (documents@.len() > 0 && docs_fit(documents@) && !any_doc_typed(
            documents@,
            Tag::Pages,
        )) == (r == Err::<DocGraph, MergeError>(MergeError::MissingPageRoot)),
        (documents@.len() > 0 && docs_fit(documents@) && any_doc_typed(documents@, Tag::Pages)
            && !any_doc_typed(documents@, Tag::Catalog)) == (r == Err::<DocGraph, MergeError>(
            MergeError::MissingCatalog,
        )),
        r is Ok ==> merged_wf(documents@, r->Ok_0),
        r is Ok ==> r->Ok_0.max_id < u32::MAX,
{
    let ghost docs0 = documents@;
    if documents.len() == 0 {
        return Err(MergeError::EmptyInput);
    }
    let ndocs = documents.len();
    let cap: u64 = u32::MAX as u64;
    proof {
        lemma_total_nonneg(docs0);
    }
    if (ndocs as u64) > cap - 4 {
        return Err(MergeError::TooLarge);
    }
    let budget: u64 = cap - 4 - (ndocs as u64);
    let mut tot: u64 = 0;
    let mut i: usize = 0;
    proof {
        assert(docs0.take(0) =~= Seq::<DocGraph>::empty());
    }
    while i < documents.len()
        invariant
            documents@ == docs0,
            ndocs == docs0.len(),
            i <= docs0.len(),
            budget == u32::MAX as u64 - 4 - ndocs as u64,
            ndocs as u64 <= u32::MAX as u64 - 4,
            tot as int == total_objects(docs0.take(i as int)),
            tot <= budget,
        decreases docs0.len() - i,
    {
        let len = documents[i].objects.len();
        proof {
            lemma_total_take_succ(docs0, i as int);
            lemma_total_prefix(docs0, i as int + 1);
        }
        if (len as u64) > budget - tot {
            proof {
                assert(total_objects(docs0) >= total_objects(docs0.take(i as int + 1)));
                assert(!docs_fit(docs0));
            }
            return Err(MergeError::TooLarge);
        }
        tot = tot + (len as u64);
        i = i + 1;
    }
    proof {
        assert(docs0.take(docs0.len() as int) =~= docs0);
        assert(docs_fit(docs0));
    }
    let mut col = Collected::new();
    let mut bookmarks: Vec<crate::outline::Bookmark> = Vec::new();
    let ghost mut tpos: Seq<int> = Seq::empty();
    let mut start: u32 = 1;
    let mut remd = documents;
    let mut di: usize = 0;
    proof {
        assert(remd@ =~= docs0.subrange(0, docs0.len() as int));
        assert forall|n: Seq<u8>| true implies dget(col.pages_root_dict@, n) is None by {
            assert(dget(Seq::<DictEntry>::empty(), n) is None);
        }
    }
    while remd.len() > 0
        invariant
            di as int + remd@.len() == docs0.len(),
            remd@ == docs0.subrange(di as int, docs0.len() as int),
            docs_fit(docs0),
            ndocs == docs0.len(),
            start as int == 1 + total_objects(docs0.take(di as int)),
            col.pages@.len() == total_pages(docs0.take(di as int)),
            (col.pages_root_id is Some) == any_doc_typed(docs0.take(di as int), Tag::Pages),
            (col.catalog_id is Some) == any_doc_typed(docs0.take(di as int), Tag::Catalog),
            col.pages_root_id is Some ==> type_from_entries(col.pages_root_dict@) == Some(
                tag_bytes(Tag::Pages),
            ),
            col.catalog_id is Some ==> type_from_entries(col.catalog_dict@) == Some(
                tag_bytes(Tag::Catalog),
            ),
            col.pages_root_id is None ==> col.pages_root_dict@ == Seq::<DictEntry>::empty(),
            col.passthrough@.len() == all_passthru(docs0.take(di as int)).len(),
            forall|k: int|
                0 <= k < col.passthrough@.len() ==> rw_image(
                    all_passthru(docs0.take(di as int))[k].1,
                    (#[trigger] col.passthrough@[k]).1,
                ),
            col.pages@.len() == all_pages(docs0.take(di as int)).len(),
            forall|k: int|
                0 <= k < col.pages@.len() ==> rw_image(
                    all_pages(docs0.take(di as int))[k].obj,
                    (#[trigger] col.pages@[k]).obj,
                ),
            forall|n: Seq<u8>|
                match #[trigger] input_fold_binding(docs0.take(di as int), n) {
                    Some(v) => dget(col.pages_root_dict@, n) is Some && rw_image(
                        v,
                        dget(col.pages_root_dict@, n)->Some_0,
                    ),
                    None => dget(col.pages_root_dict@, n) is None,
                },
            (col.catalog_id is Some) == (input_anchor(docs0.take(di as int)) is Some),
            col.catalog_id is Some ==> exists|ids1: Seq<ObjId>, s1: u32|
                rw_entries(
                    ids1,
                    s1,
                    input_anchor(docs0.take(di as int))->Some_0@,
                    col.catalog_dict@,
                ),
            bookmarks@.len() == contributing(docs0.take(di as int)),
            bookmarks@.len() <= di as int,
            forall|j: int|
                0 <= j < bookmarks@.len() ==> (#[trigger] bookmarks@[j]).title@
                    == crate::outline::page_label((j + 1) as nat),
            tpos.len() == bookmarks@.len(),
            tpos == bm_positions(docs0.take(di as int)),
            forall|j: int| 0 <= j < bookmarks@.len() ==> 0 <= #[trigger] tpos[j]
                < col.pages@.len(),
            forall|j: int|
                0 <= j < bookmarks@.len() ==> (#[trigger] bookmarks@[j]).target
                    == col.pages@[tpos[j]].id,
            col.passthrough@.len() + col.pages@.len() <= total_objects(docs0.take(di as int)),
            forall|k: int|
                0 <= k < col.passthrough@.len() ==> ((#[trigger] col.passthrough@[k]).0.gen
                    == 0 && 1 <= col.passthrough@[k].0.num < start),
            forall|k: int|
                0 <= k < col.pages@.len() ==> ((#[trigger] col.pages@[k]).id.gen == 0 && 1
                    <= col.pages@[k].id.num < start),
            col.catalog_id is Some ==> (col.catalog_id->Some_0.gen == 0 && 1
                <= col.catalog_id->Some_0.num < start),
            col.pages_root_id is Some ==> (col.pages_root_id->Some_0.gen == 0 && 1
                <= col.pages_root_id->Some_0.num < start),
            forall|i: int, j: int|
                0 <= i < j < col.passthrough@.len() ==> (#[trigger] col.passthrough@[i]).0
                    != (#[trigger] col.passthrough@[j]).0,
            forall|i: int, j: int|
                0 <= i < j < col.pages@.len() ==> (#[trigger] col.pages@[i]).id != (
                #[trigger] col.pages@[j]).id,
            forall|i: int, j: int|
                0 <= i < col.passthrough@.len() && 0 <= j < col.pages@.len() ==> (
                #[trigger] col.passthrough@[i]).0 != (#[trigger] col.pages@[j]).id,
            col.catalog_id is Some ==> forall|k: int|
                0 <= k < col.passthrough@.len() ==> (#[trigger] col.passthrough@[k]).0
                    != col.catalog_id->Some_0,
            col.catalog_id is Some ==> forall|k: int|
                0 <= k < col.pages@.len() ==> (#[trigger] col.pages@[k]).id
                    != col.catalog_id->Some_0,
            col.pages_root_id is Some ==> forall|k: int|
                0 <= k < col.passthrough@.len() ==> (#[trigger] col.passthrough@[k]).0
                    != col.pages_root_id->Some_0,
            col.pages_root_id is Some ==> forall|k: int|
                0 <= k < col.pages@.len() ==> (#[trigger] col.pages@[k]).id
                    != col.pages_root_id->Some_0,
            (col.catalog_id is Some && col.pages_root_id is Some) ==> col.catalog_id->Some_0
                != col.pages_root_id->Some_0,
            forall|k: int|
                0 <= k < col.passthrough@.len() ==> !is_special(
                    (#[trigger] col.passthrough@[k]).1,
                ),
            forall|k: int|
                0 <= k < col.pages@.len() ==> has_type((#[trigger] col.pages@[k]).obj, Tag::Page),
        decreases remd@.len(),
    {
        let ghost cpre = col;
        let doc = remd.remove(0);
        proof {
            assert(doc == docs0[di as int]);
            assert(remd@ =~= docs0.subrange(di as int + 1, docs0.len() as int));
            lemma_total_take_succ(docs0, di as int);
            lemma_total_prefix(docs0, di as int + 1);
            lemma_count_bounds(doc.objects@, Tag::Page);
        }
        let ghost pre = doc.objects@;
        let (g2, next) = renumber_graph(doc, start);
        let ghost g2o0 = g2.objects@;
        proof {
            crate::model::lemma_tags();
            assert forall|ix: int| 0 <= ix < pre.len() implies type_name_of(
                (#[trigger] g2o0[ix]).1,
            ) == type_name_of(pre[ix].1) by {
                lemma_rw_type(ids_of(pre), start, pre[ix].1, g2o0[ix].1);
            }
            lemma_typed_pointwise(pre, g2o0, Tag::Page);
            lemma_typed_pointwise(pre, g2o0, Tag::Pages);
            lemma_typed_pointwise(pre, g2o0, Tag::Catalog);
            lemma_first_typed(g2o0, Tag::Pages);
            lemma_first_typed(g2o0, Tag::Catalog);
            lemma_pages_of(g2o0, di);
            lemma_bucket_sizes(g2o0, di);
            assert forall|i: int, j: int| 0 <= i < j < g2o0.len() implies (
            #[trigger] g2o0[i]).0 != (#[trigger] g2o0[j]).0 by {
                assert(g2o0[i].0.num == start + i);
                assert(g2o0[j].0.num == start + j);
            }
            lemma_passthru_of(g2o0);
            lemma_passthru_distinct(g2o0);
            lemma_pages_of_distinct(g2o0, di);
            lemma_pages_of_rw(ids_of(pre), start, pre, g2o0, di);
            lemma_passthru_rw(ids_of(pre), start, pre, g2o0);
            lemma_first_typed_rw(ids_of(pre), start, pre, g2o0, Tag::Catalog);
            assert forall|n: Seq<u8>| true implies (match #[trigger] pages_fold_binding(
                pre,
                n,
            ) {
                Some(v) => pages_fold_binding(g2o0, n) is Some && rw_obj(
                    ids_of(pre),
                    start,
                    v,
                    pages_fold_binding(g2o0, n)->Some_0,
                ),
                None => pages_fold_binding(g2o0, n) is None,
            }) by {
                lemma_fold_rw(ids_of(pre), start, pre, g2o0, n);
            }
            assert forall|k: int| 0 <= k < passthru_of(g2o0).len() implies ((
            #[trigger] passthru_of(g2o0)[k]).0.gen == 0 && start <= passthru_of(g2o0)[k].0.num
                < next) by {
                let j0 = choose|j: int|
                    0 <= j < g2o0.len() && #[trigger] g2o0[j] == passthru_of(g2o0)[k];
                assert(g2o0[j0].0 == new_id(start, j0));
            }
            assert forall|k: int| 0 <= k < pages_of(g2o0, di).len() implies ((
            #[trigger] pages_of(g2o0, di)[k]).id.gen == 0 && start <= pages_of(
                g2o0,
                di,
            )[k].id.num < next) by {
                let j0 = choose|j: int|
                    0 <= j < g2o0.len() && (#[trigger] g2o0[j]).0 == pages_of(g2o0, di)[k].id
                        && g2o0[j].1 == pages_of(g2o0, di)[k].obj;
                assert(g2o0[j0].0 == new_id(start, j0));
            }
            assert forall|i: int, j: int|
                0 <= i < passthru_of(g2o0).len() && 0 <= j < pages_of(g2o0, di).len() implies (
            #[trigger] passthru_of(g2o0)[i]).0 != (#[trigger] pages_of(g2o0, di)[j]).id by {
                let j1 = choose|j1: int|
                    0 <= j1 < g2o0.len() && #[trigger] g2o0[j1] == passthru_of(g2o0)[i];
                let j2 = choose|j2: int|
                    0 <= j2 < g2o0.len() && (#[trigger] g2o0[j2]).0 == pages_of(g2o0, di)[j].id
                        && g2o0[j2].1 == pages_of(g2o0, di)[j].obj;
                if j1 != j2 {
                } else {
                    assert(is_special(g2o0[j1].1));
                }
            }
            if first_typed(g2o0, Tag::Pages) is Some {
                let pjd = choose|j: int|
                    0 <= j < g2o0.len() && has_type((#[trigger] g2o0[j]).1, Tag::Pages) && g2o0[
                    j].0 == first_typed(g2o0, Tag::Pages)->Some_0.0 && dict_struct(g2o0[j].1)
                    == first_typed(g2o0, Tag::Pages)->Some_0.1;
                assert(g2o0[pjd].0 == new_id(start, pjd));
            }
            if first_typed(g2o0, Tag::Catalog) is Some {
                let cjd = choose|j: int|
                    0 <= j < g2o0.len() && has_type((#[trigger] g2o0[j]).1, Tag::Catalog)
                    && g2o0[j].0 == first_typed(g2o0, Tag::Catalog)->Some_0.0 && dict_struct(
                    g2o0[j].1) == first_typed(g2o0, Tag::Catalog)->Some_0.1;
                assert(g2o0[cjd].0 == new_id(start, cjd));
            }
        }
        let prev = col.pages.len();
        let DocGraph { objects: g2o, trailer: _, max_id: _ } = g2;
        classify_doc(&mut col, g2o, di);
        proof {
            let oldp = cpre.passthrough@;
            let blk = passthru_of(g2o0);
            let ablk = passthru_of(pre);
            let prevall = all_passthru(docs0.take(di as int));
            assert forall|k: int| 0 <= k < col.passthrough@.len() implies rw_image(
                all_passthru(docs0.take(di as int + 1))[k].1,
                (#[trigger] col.passthrough@[k]).1,
            ) by {
                if k < oldp.len() {
                    assert((oldp + blk)[k] == oldp[k]);
                    assert(col.passthrough@[k] == oldp[k]);
                    assert((prevall + ablk)[k] == prevall[k]);
                } else {
                    assert((oldp + blk)[k] == blk[k - oldp.len()]);
                    assert(col.passthrough@[k] == blk[k - oldp.len()]);
                    assert((prevall + ablk)[k] == ablk[k - oldp.len()]);
                    assert(rw_obj(
                        ids_of(pre),
                        start,
                        ablk[k - oldp.len()].1,
                        blk[k - oldp.len()].1,
                    ));
                }
            }
            let oldg = cpre.pages@;
            let gblk = pages_of(g2o0, di);
            let gablk = pages_of(pre, di);
            let gprevall = all_pages(docs0.take(di as int));
            assert forall|k: int| 0 <= k < col.pages@.len() implies rw_image(
                all_pages(docs0.take(di as int + 1))[k].obj,
                (#[trigger] col.pages@[k]).obj,
            ) by {
                if k < oldg.len() {
                    assert((oldg + gblk)[k] == oldg[k]);
                    assert(col.pages@[k] == oldg[k]);
                    assert((gprevall + gablk)[k] == gprevall[k]);
                } else {
                    assert((oldg + gblk)[k] == gblk[k - oldg.len()]);
                    assert(col.pages@[k] == gblk[k - oldg.len()]);
                    assert((gprevall + gablk)[k] == gablk[k - oldg.len()]);
                    assert(rw_obj(
                        ids_of(pre),
                        start,
                        gablk[k - oldg.len()].obj,
                        gblk[k - oldg.len()].obj,
                    ));
                }
            }
            assert forall|n: Seq<u8>| true implies (match #[trigger] input_fold_binding(
                docs0.take(di as int + 1),
                n,
            ) {
                Some(v) => dget(col.pages_root_dict@, n) is Some && rw_image(
                    v,
                    dget(col.pages_root_dict@, n)->Some_0,
                ),
                None => dget(col.pages_root_dict@, n) is None,
            }) by {
                lemma_total_take_succ(docs0, di as int);
                assert(docs0[di as int].objects@ == pre);
                assert(input_fold_binding(docs0.take(di as int + 1), n) == (
                if pages_fold_binding(pre, n) is Some {
                    pages_fold_binding(pre, n)
                } else {
                    input_fold_binding(docs0.take(di as int), n)
                }));
                assert(dget(col.pages_root_dict@, n) == (if pages_fold_binding(g2o0, n)
                    is Some {
                    pages_fold_binding(g2o0, n)
                } else {
                    dget(cpre.pages_root_dict@, n)
                }));
                if pages_fold_binding(pre, n) is Some {
                    let v = pages_fold_binding(pre, n)->Some_0;
                    let w = pages_fold_binding(g2o0, n)->Some_0;
                    assert(rw_obj(ids_of(pre), start, v, w));
                    assert(rw_image(v, w));
                } else {
                    assert(pages_fold_binding(g2o0, n) is None);
                    assert(dget(col.pages_root_dict@, n) == dget(cpre.pages_root_dict@, n));
                }
            }
            if col.catalog_id.is_some() {
                if cpre.catalog_id is Some {
                    let (ids1, s1) = choose|ids1: Seq<ObjId>, s1: u32|
                        rw_entries(
                            ids1,
                            s1,
                            input_anchor(docs0.take(di as int))->Some_0@,
                            cpre.catalog_dict@,
                        );
                    assert(rw_entries(
                        ids1,
                        s1,
                        input_anchor(docs0.take(di as int + 1))->Some_0@,
                        col.catalog_dict@,
                    ));
                } else {
                    assert(first_typed(g2o0, Tag::Catalog) is Some);
                    assert(first_typed(pre, Tag::Catalog) is Some);
                    assert(col.catalog_dict == first_typed(g2o0, Tag::Catalog)->Some_0.1);
                    assert(input_anchor(docs0.take(di as int + 1)) == Some(
                        first_typed(pre, Tag::Catalog)->Some_0.1,
                    ));
                    assert(rw_entries(
                        ids_of(pre),
                        start,
                        input_anchor(docs0.take(di as int + 1))->Some_0@,
                        col.catalog_dict@,
                    ));
                }
            }
        }
        proof {
            assert forall|i: int, j: int|
                0 <= i < col.passthrough@.len() && 0 <= j < col.pages@.len() implies (
            #[trigger] col.passthrough@[i]).0 != (#[trigger] col.pages@[j]).id by {
                if i < cpre.passthrough@.len() && j < cpre.pages@.len() {
                } else if i >= cpre.passthrough@.len() && j >= cpre.pages@.len() {
                    assert(col.passthrough@[i] == passthru_of(g2o0)[i - cpre.passthrough@.len()]);
                    assert(col.pages@[j] == pages_of(g2o0, di)[j - cpre.pages@.len()]);
                } else {
                }
            }
            if col.catalog_id is Some && cpre.catalog_id is None {
                let cjd = choose|j: int|
                    0 <= j < g2o0.len() && has_type((#[trigger] g2o0[j]).1, Tag::Catalog)
                    && g2o0[j].0 == first_typed(g2o0, Tag::Catalog)->Some_0.0 && dict_struct(
                    g2o0[j].1) == first_typed(g2o0, Tag::Catalog)->Some_0.1;
                assert forall|k: int| 0 <= k < col.passthrough@.len() implies (
                #[trigger] col.passthrough@[k]).0 != col.catalog_id->Some_0 by {
                    if k >= cpre.passthrough@.len() {
                        let kk = k - cpre.passthrough@.len();
                        assert(col.passthrough@[k] == passthru_of(g2o0)[kk]);
                        let j1 = choose|j1: int|
                            0 <= j1 < g2o0.len() && #[trigger] g2o0[j1] == passthru_of(g2o0)[kk];
                        if j1 == cjd {
                            assert(is_special(g2o0[j1].1));
                        }
                    }
                }
                assert forall|k: int| 0 <= k < col.pages@.len() implies (
                #[trigger] col.pages@[k]).id != col.catalog_id->Some_0 by {
                    if k >= cpre.pages@.len() {
                        let kk = k - cpre.pages@.len();
                        assert(col.pages@[k] == pages_of(g2o0, di)[kk]);
                        let j2 = choose|j2: int|
                            0 <= j2 < g2o0.len() && (#[trigger] g2o0[j2]).0 == pages_of(
                                g2o0,
                                di,
                            )[kk].id && g2o0[j2].1 == pages_of(g2o0, di)[kk].obj;
                        if j2 == cjd {
                            assert(has_type(g2o0[j2].1, Tag::Page));
                            assert(has_type(g2o0[j2].1, Tag::Catalog));
                        }
                    }
                }
            }
            if col.pages_root_id is Some && cpre.pages_root_id is None {
                let pjd = choose|j: int|
                    0 <= j < g2o0.len() && has_type((#[trigger] g2o0[j]).1, Tag::Pages) && g2o0[
                    j].0 == first_typed(g2o0, Tag::Pages)->Some_0.0 && dict_struct(g2o0[j].1)
                    == first_typed(g2o0, Tag::Pages)->Some_0.1;
                assert forall|k: int| 0 <= k < col.passthrough@.len() implies (
                #[trigger] col.passthrough@[k]).0 != col.pages_root_id->Some_0 by {
                    if k >= cpre.passthrough@.len() {
                        let kk = k - cpre.passthrough@.len();
                        assert(col.passthrough@[k] == passthru_of(g2o0)[kk]);
                        let j1 = choose|j1: int|
                            0 <= j1 < g2o0.len() && #[trigger] g2o0[j1] == passthru_of(g2o0)[kk];
                        if j1 == pjd {
                            assert(is_special(g2o0[j1].1));
                        }
                    }
                }
                assert forall|k: int| 0 <= k < col.pages@.len() implies (
                #[trigger] col.pages@[k]).id != col.pages_root_id->Some_0 by {
                    if k >= cpre.pages@.len() {
                        let kk = k - cpre.pages@.len();
                        assert(col.pages@[k] == pages_of(g2o0, di)[kk]);
                        let j2 = choose|j2: int|
                            0 <= j2 < g2o0.len() && (#[trigger] g2o0[j2]).0 == pages_of(
                                g2o0,
                                di,
                            )[kk].id && g2o0[j2].1 == pages_of(g2o0, di)[kk].obj;
                        if j2 == pjd {
                            assert(has_type(g2o0[j2].1, Tag::Page));
                            assert(has_type(g2o0[j2].1, Tag::Pages));
                        }
                    }
                }
                if col.catalog_id is Some {
                    if cpre.catalog_id is None {
                        let cjd = choose|j: int|
                            0 <= j < g2o0.len() && has_type((#[trigger] g2o0[j]).1, Tag::Catalog)
                            && g2o0[j].0 == first_typed(g2o0, Tag::Catalog)->Some_0.0
                            && dict_struct(g2o0[j].1) == first_typed(
                                g2o0,
                                Tag::Catalog,
                            )->Some_0.1;
                        let pjd2 = pjd;
                        if cjd == pjd2 {
                            assert(has_type(g2o0[cjd].1, Tag::Catalog));
                            assert(has_type(g2o0[cjd].1, Tag::Pages));
                        }
                    }
                }
            }
        }
        proof {
            lemma_contributing_bounds(docs0.take(di as int));
            assert(col.pages@.len() - prev == count_typed(pre, Tag::Page));
        }
        proof {
            assert forall|j: int| 0 <= j < bookmarks@.len() implies (0 <= #[trigger] tpos[j]
                < col.pages@.len() && (#[trigger] bookmarks@[j]).target == col.pages@[
            tpos[j]].id) by {
                assert(0 <= tpos[j] < cpre.pages@.len());
                assert((cpre.pages@ + pages_of(g2o0, di))[tpos[j]] == cpre.pages@[tpos[j]]);
                assert(col.pages@[tpos[j]] == cpre.pages@[tpos[j]]);
            }
        }
        if col.pages.len() > prev {
            proof {
                assert(bookmarks@.len() < u32::MAX as int);
            }
            let label = crate::outline::page_label_vec((bookmarks.len() as u32) + 1);
            let target = col.pages[prev].id;
            let ghost bmpre = bookmarks@;
            bookmarks.push(
                crate::outline::Bookmark {
                    title: label,
                    color: crate::outline::Rgb {
                        red: vec![48u8],
                        green: vec![48u8],
                        blue: vec![49u8],
                    },
                    level: 0,
                    target,
                },
            );
            proof {
                tpos = tpos.push(prev as int);
                assert forall|j: int| 0 <= j < bookmarks@.len() implies ((
                #[trigger] bookmarks@[j]).title@ == crate::outline::page_label((j + 1) as nat)
                    && 0 <= #[trigger] tpos[j] < col.pages@.len() && bookmarks@[j].target
                    == col.pages@[tpos[j]].id) by {
                    if j < bmpre.len() {
                        assert(bookmarks@[j] == bmpre[j]);
                        assert(tpos[j] == tpos.subrange(0, tpos.len() - 1)[j]);
                    } else {
                        assert(bookmarks@[j].target == col.pages@[prev as int].id);
                        assert(tpos[j] == prev as int);
                        assert(0 <= prev < col.pages@.len());
                    }
                }
            }
        }
        start = next;
        di = di + 1;
    }
    proof {
        assert(docs0.take(docs0.len() as int) =~= docs0);
    }
    if col.pages_root_id.is_none() {
        return Err(MergeError::MissingPageRoot);
    }
    if col.catalog_id.is_none() {
        return Err(MergeError::MissingCatalog);
    }
    let pid = col.pages_root_id.unwrap();
    let cid = col.catalog_id.unwrap();
    let Collected { passthrough, pages, catalog_dict, pages_root_dict, .. } = col;
    let ghost passo = passthrough@;
    let ghost np = passthrough@.len() as int;
    let ghost pages0 = pages@;
    let mut out = passthrough;
    let mut kids: Vec<Obj> = Vec::new();
    attach_pages(pages, pid, &mut out, &mut kids);
    let total = kids.len();
    let ghost out_pages = out@;
    proof {
        crate::model::lemma_tags();
        lemma_total_nonneg(docs0);
        assert(total as int == total_pages(docs0));
    }
    let mut pd = pages_root_dict;
    let ghost fold0 = pd@;
    pd.set(Tag::Count, Obj::Integer(total as i64));
    let ghost kidsv = kids;
    pd.set(Tag::Kids, Obj::Array(kids));
    let ghost pr_slot = out@.len() as int;
    out.push((pid, Obj::Dict(pd)));
    let ghost pd_final = out@[pr_slot].1;
    let mut cat = catalog_dict;
    let ghost cat0 = cat@;
    cat.set(Tag::Pages, Obj::Ref(pid));
    cat.remove(Tag::Outlines);
    let nb = bookmarks.len();
    proof {
        assert(nb as int <= docs0.len());
    }
    let ghost bmsv = bookmarks@;
    let obms = crate::outline::build_outline(bookmarks, start);
    if nb > 0 {
        cat.set(Tag::Outlines, Obj::Ref(ObjId { num: start, gen: 0 }));
    }
    let ghost cat_slot = out@.len() as int;
    out.push((cid, Obj::Dict(cat)));
    let ghost cat_final = out@[cat_slot].1;
    let ghost before_outline = out@;
    let ghost obms0 = obms@;
    let mut oo = obms;
    out.append(&mut oo);
    let mut tr = Dict::empty();
    tr.set(Tag::Root, Obj::Ref(cid));
    let ghost tr0 = tr@;
    proof {
        assert(out@ == before_outline + obms0);
        assert forall|k: int| 0 <= k < out_pages.len() implies #[trigger] out@[k] == out_pages[
        k] by {
            assert(before_outline[k] == out_pages[k]);
            assert(out@[k] == before_outline[k]);
        }
        assert(out@[pr_slot].1 == pd_final);
        assert(out@[cat_slot].1 == cat_final);
        assert(pd_final is Dict);
        assert(type_from_entries(pd_final->Dict_0@) == Some(tag_bytes(Tag::Pages)));
        assert(dget(pd_final->Dict_0@, tag_bytes(Tag::Count)) == Some(
            Obj::Integer(total_pages(docs0) as i64),
        ));
        assert(dget(pd_final->Dict_0@, tag_bytes(Tag::Kids)) == Some(Obj::Array(kidsv)));
        assert(cat_final is Dict);
        assert(type_from_entries(cat_final->Dict_0@) == Some(tag_bytes(Tag::Catalog)));
        assert(dget(cat_final->Dict_0@, tag_bytes(Tag::Pages)) == Some(Obj::Ref(pid)));
        assert(dget(tr0, tag_bytes(Tag::Root)) == Some(Obj::Ref(cid)));
        assert(1 + out@.len() <= u32::MAX as int);
        // every identifier of the assembled table is distinct from every other
        assert forall|a: int, b: int| 0 <= a < b < out@.len() implies (#[trigger] out@[a]).0
            != (#[trigger] out@[b]).0 by {
            if a < pr_slot {
                let ka = a - np;
                if a >= np {
                    assert(out_pages[np + ka] == out@[a]);
                    assert(out@[a].0 == pages0[ka].id);
                } else {
                    assert(out@[a] == passo[a]);
                }
            }
            if b < pr_slot {
                let kb = b - np;
                if b >= np {
                    assert(out_pages[np + kb] == out@[b]);
                    assert(out@[b].0 == pages0[kb].id);
                } else {
                    assert(out@[b] == passo[b]);
                }
            }
            if b >= cat_slot + 1 {
                assert(out@[b] == obms0[b - (cat_slot + 1)]);
                assert(out@[b].0.num >= start);
                if a >= cat_slot + 1 {
                    assert(out@[a] == obms0[a - (cat_slot + 1)]);
                }
            }
        }
    }
    let pre_len = out.len();
    let g = DocGraph { objects: out, trailer: tr, max_id: pre_len as u32 };
    let ghost preobjs = g.objects@;
    let (gf, _) = renumber_graph(g, 1);
    proof {
        crate::model::lemma_tags();
        let ids_pre = ids_of(preobjs);
        let npg = pages0.len() as int;
        assert(pr_slot == np + npg);
        assert forall|a: int, b: int| 0 <= a < b < ids_pre.len() implies ids_pre[a] != ids_pre[
        b] by {
            assert(ids_pre[a] == preobjs[a].0);
            assert(ids_pre[b] == preobjs[b].0);
        }
        assert(ids_pre[pr_slot] == pid);
        assert(ids_pre[cat_slot] == cid);
        crate::graph::lemma_find_idx_at(ids_pre, pr_slot);
        crate::graph::lemma_find_idx_at(ids_pre, cat_slot);
        assert(crate::graph::map_id(ids_pre, 1, pid) == new_id(1, pr_slot));
        assert(crate::graph::map_id(ids_pre, 1, cid) == new_id(1, cat_slot));
        // type names carry over slot for slot
        assert forall|ix: int| 0 <= ix < preobjs.len() implies type_name_of(
            (#[trigger] gf.objects@[ix]).1,
        ) == type_name_of(preobjs[ix].1) by {
            lemma_rw_type(ids_pre, 1, preobjs[ix].1, gf.objects@[ix].1);
        }
        // what each slot declares, region by region
        assert forall|i: int| 0 <= i < preobjs.len() implies ({
            &&& (has_type((#[trigger] preobjs[i]).1, Tag::Page) <==> (np <= i < np + npg))
            &&& !has_type(preobjs[i].1, Tag::Outline)
            &&& (has_type(preobjs[i].1, Tag::Outlines) <==> (nb > 0 && i == cat_slot + 1))
        }) by {
            if i < np {
                assert(preobjs[i] == passo[i]);
                assert(!is_special(preobjs[i].1));
            } else if i < pr_slot {
                let k = i - np;
                assert(preobjs[i] == out_pages[i]);
                assert(out_pages[np + k] == preobjs[i]);
                assert(has_type(out_pages[np + k].1, Tag::Page));
            } else if i == pr_slot {
                assert(preobjs[i].1 == pd_final);
            } else if i == cat_slot {
                assert(preobjs[i].1 == cat_final);
            } else {
                assert(preobjs[i] == obms0[i - (cat_slot + 1)]);
                if i == cat_slot + 1 {
                    assert(has_type(obms0[0].1, Tag::Outlines));
                } else {
                    assert(type_name_of(obms0[i - (cat_slot + 1)].1) is None);
                }
            }
        }
        assert forall|i: int| 0 <= i < gf.objects@.len() implies (has_type(
            (#[trigger] gf.objects@[i]).1,
            Tag::Page,
        ) <==> (np <= i < np + npg)) by {
            assert(type_name_of(gf.objects@[i].1) == type_name_of(preobjs[i].1));
        }
        lemma_pages_of_region(gf.objects@, np, npg);
        // the trailer's Root reference follows the catalog
        crate::graph::lemma_rw_dget(ids_pre, 1, tr0, gf.trailer@, tag_bytes(Tag::Root));
        // the catalog's Pages reference follows the page-tree root
        let ec = gf.objects@[cat_slot].1;
        assert(rw_obj(ids_pre, 1, preobjs[cat_slot].1, ec));
        crate::graph::lemma_rw_dget(
            ids_pre,
            1,
            cat_final->Dict_0@,
            ec->Dict_0@,
            tag_bytes(Tag::Pages),
        );
        // the page-tree root keeps its type and count, and its kids list the
        // output's pages in table order
        let ep = gf.objects@[pr_slot].1;
        assert(rw_obj(ids_pre, 1, preobjs[pr_slot].1, ep));
        crate::graph::lemma_rw_dget(
            ids_pre,
            1,
            pd_final->Dict_0@,
            ep->Dict_0@,
            tag_bytes(Tag::Count),
        );
        crate::graph::lemma_rw_dget(
            ids_pre,
            1,
            pd_final->Dict_0@,
            ep->Dict_0@,
            tag_bytes(Tag::Kids),
        );
        let ksf = dget(ep->Dict_0@, tag_bytes(Tag::Kids))->Some_0->Array_0;
        assert forall|k: int| 0 <= k < ksf@.len() implies #[trigger] ksf@[k] == Obj::Ref(
            pages_of(gf.objects@, 0)[k].id,
        ) by {
            assert(rw_obj(ids_pre, 1, kidsv@[k], ksf@[k]));
            assert(kidsv@[k] == Obj::Ref(pages0[k].id));
            assert(ids_pre[np + k] == pages0[k].id);
            crate::graph::lemma_find_idx_at(ids_pre, np + k);
            assert(ksf@[k] == Obj::Ref(new_id(1, np + k)));
            assert(gf.objects@[np + k].0 == new_id(1, np + k));
            assert(pages_of(gf.objects@, 0)[k].id == gf.objects@[np + k].0);
        }
        assert forall|k1: int, k2: int| 0 <= k1 < k2 < ksf@.len() implies #[trigger] ksf@[k1]
            != #[trigger] ksf@[k2] by {
            assert(pages_of(gf.objects@, 0)[k1].id == gf.objects@[np + k1].0);
            assert(pages_of(gf.objects@, 0)[k2].id == gf.objects@[np + k2].0);
            assert(gf.objects@[np + k1].0 == new_id(1, np + k1));
            assert(gf.objects@[np + k2].0 == new_id(1, np + k2));
            assert(new_id(1, np + k1).num == 1 + np + k1);
            assert(new_id(1, np + k2).num == 1 + np + k2);
        }
        // every page object of the output answers to the page-tree root
        assert forall|i: int|
            0 <= i < gf.objects@.len() && has_type((#[trigger] gf.objects@[i]).1, Tag::Page)
            implies page_parent_is(gf.objects@[i].1, gf.objects@[pr_slot].0) by {
            assert(has_type(preobjs[i].1, Tag::Page));
            let k = i - np;
            assert(preobjs[i] == out_pages[i]);
            assert(out_pages[np + k] == preobjs[i]);
            assert(out_pages[np + k].0 == pages0[k].id);
            assert(page_parent_is(preobjs[i].1, pid));
            assert(rw_obj(ids_pre, 1, preobjs[i].1, gf.objects@[i].1));
            if preobjs[i].1 is Dict {
                crate::graph::lemma_rw_dget(
                    ids_pre,
                    1,
                    preobjs[i].1->Dict_0@,
                    gf.objects@[i].1->Dict_0@,
                    tag_bytes(Tag::Parent),
                );
            } else {
                crate::graph::lemma_rw_dget(
                    ids_pre,
                    1,
                    preobjs[i].1->Stream_0@,
                    gf.objects@[i].1->Stream_0@,
                    tag_bytes(Tag::Parent),
                );
            }
        }
        // the watermark leaves headroom in the identifier space
        assert(gf.max_id as int == preobjs.len());
        assert(preobjs.len() < u32::MAX as int);
        // the outline: one root and one item per contributing document, the
        // catalog pointing at the root exactly when one was built
        assert(tpos == bm_positions(docs0));
        if nb > 0 {
            let oi = cat_slot + 1;
            assert(preobjs[oi] == obms0[0]);
            assert(has_type(obms0[0].1, Tag::Outlines));
            assert(dget(obms0[0].1->Dict_0@, tag_bytes(Tag::Count)) == Some(
                Obj::Integer(nb as i64),
            ));
            let eo = gf.objects@[oi].1;
            assert(rw_obj(ids_pre, 1, preobjs[oi].1, eo));
            crate::graph::lemma_rw_dget(
                ids_pre,
                1,
                obms0[0].1->Dict_0@,
                eo->Dict_0@,
                tag_bytes(Tag::Count),
            );
            assert(nb as int == contributing(docs0));
            assert(dget(cat_final->Dict_0@, tag_bytes(Tag::Outlines)) == Some(
                Obj::Ref(ObjId { num: start, gen: 0u16 }),
            ));
            crate::graph::lemma_rw_dget(
                ids_pre,
                1,
                cat_final->Dict_0@,
                ec->Dict_0@,
                tag_bytes(Tag::Outlines),
            );
            assert(obms0[0].0 == ObjId { num: start, gen: 0u16 });
            assert(ids_pre[oi] == obms0[0].0);
            crate::graph::lemma_find_idx_at(ids_pre, oi);
            assert(dget(ec->Dict_0@, tag_bytes(Tag::Outlines)) == Some(
                Obj::Ref(gf.objects@[oi].0),
            ));
            assert forall|k: int| 1 <= k <= nb implies outline_item_ok(
                docs0,
                gf,
                (#[trigger] gf.objects@[oi + k]).1,
                k,
                gf.objects@[oi].0,
            ) by {
                assert(0 <= oi + k < preobjs.len());
                assert(preobjs[oi + k] == obms0[k]);
                assert(obms0[k].1 is Dict);
                let e = gf.objects@[oi + k].1;
                assert(e is Dict);
                assert(rw_obj(ids_pre, 1, obms0[k].1, e));
                crate::graph::lemma_rw_dget(
                    ids_pre,
                    1,
                    obms0[k].1->Dict_0@,
                    e->Dict_0@,
                    tag_bytes(Tag::Title),
                );
                crate::graph::lemma_rw_dget(
                    ids_pre,
                    1,
                    obms0[k].1->Dict_0@,
                    e->Dict_0@,
                    tag_bytes(Tag::Parent),
                );
                crate::graph::lemma_rw_dget(
                    ids_pre,
                    1,
                    obms0[k].1->Dict_0@,
                    e->Dict_0@,
                    tag_bytes(Tag::Dest),
                );
                assert(bmsv[k - 1].title@ == crate::outline::page_label(k as nat));
                assert(dget(obms0[k].1->Dict_0@, tag_bytes(Tag::Parent)) == Some(
                    Obj::Ref(ObjId { num: start, gen: 0u16 }),
                ));
                assert(dget(e->Dict_0@, tag_bytes(Tag::Parent)) == Some(
                    Obj::Ref(gf.objects@[oi].0),
                ));
                let k2 = tpos[k - 1];
                assert(bmsv[k - 1].target == pages0[k2].id);
                assert(ids_pre[np + k2] == pages0[k2].id);
                crate::graph::lemma_find_idx_at(ids_pre, np + k2);
                assert(crate::graph::map_id(ids_pre, 1, bmsv[k - 1].target) == new_id(
                    1,
                    np + k2,
                ));
                assert(gf.objects@[np + k2].0 == new_id(1, np + k2));
                assert(pages_of(gf.objects@, 0)[k2].id == gf.objects@[np + k2].0);
                assert(bm_positions(docs0)[k - 1] == k2);
                assert(match dget(e->Dict_0@, tag_bytes(Tag::Title)) {
                    Some(Obj::Text(v)) => v@ == crate::outline::page_label(k as nat),
                    _ => false,
                });
                let a0v = dget(obms0[k].1->Dict_0@, tag_bytes(Tag::Dest))->Some_0;
                let wd = dget(e->Dict_0@, tag_bytes(Tag::Dest))->Some_0;
                assert(rw_obj(ids_pre, 1, a0v, wd));
                assert(a0v is Array);
                let wv = wd->Array_0;
                assert(rw_arr(ids_pre, 1, a0v->Array_0@, wv@));
                assert(rw_obj(ids_pre, 1, a0v->Array_0@[0], wv@[0]));
                assert(a0v->Array_0@[0] == Obj::Ref(bmsv[k - 1].target));
                assert(wv@[0] == Obj::Ref(pages_of(gf.objects@, 0)[k2].id));
                assert(wv@.len() == 2);
            }
            assert(outline_root_at(docs0, gf, oi));
            assert forall|i: int|
                0 <= i < gf.objects@.len() && has_type(
                    (#[trigger] gf.objects@[i]).1,
                    Tag::Outlines,
                ) implies i == oi by {
                assert(has_type(preobjs[i].1, Tag::Outlines));
            }
        } else {
            assert(contributing(docs0) == 0);
            assert(dget(cat_final->Dict_0@, tag_bytes(Tag::Outlines)) is None);
            crate::graph::lemma_rw_dget(
                ids_pre,
                1,
                cat_final->Dict_0@,
                ec->Dict_0@,
                tag_bytes(Tag::Outlines),
            );
            assert forall|i: int| 0 <= i < gf.objects@.len() implies !has_type(
                (#[trigger] gf.objects@[i]).1,
                Tag::Outlines,
            ) by {
                assert(type_name_of(gf.objects@[i].1) == type_name_of(preobjs[i].1));
            }
        }
        assert forall|i: int| 0 <= i < gf.objects@.len() implies !has_type(
            (#[trigger] gf.objects@[i]).1,
            Tag::Outline,
        ) by {
            assert(type_name_of(gf.objects@[i].1) == type_name_of(preobjs[i].1));
        }
        // the inputs' passthrough objects and pages reach the output,
        // rewritten but otherwise unchanged
        assert(np == all_passthru(docs0).len());
        assert forall|k: int| 0 <= k < all_passthru(docs0).len() implies rw_twice(
            all_passthru(docs0)[k].1,
            (#[trigger] gf.objects@[k]).1,
        ) by {
            assert(preobjs[k] == passo[k]);
            assert(rw_obj(ids_pre, 1, preobjs[k].1, gf.objects@[k].1));
            assert(rw_image(all_passthru(docs0)[k].1, passo[k].1));
            assert(rw_image(passo[k].1, gf.objects@[k].1));
        }
        assert(pages_of(gf.objects@, 0).len() == all_pages(docs0).len());
        assert forall|k: int| 0 <= k < all_pages(docs0).len() implies page_image(
            (#[trigger] all_pages(docs0)[k]).obj,
            pages_of(gf.objects@, 0)[k].obj,
        ) by {
            assert(rw_image(all_pages(docs0)[k].obj, pages0[k].obj));
            assert(preobjs[np + k] == out_pages[np + k]);
            assert(reparented(pages0[k].obj, preobjs[np + k].1, pid));
            assert(rw_obj(ids_pre, 1, preobjs[np + k].1, gf.objects@[np + k].1));
            assert(rw_image(preobjs[np + k].1, gf.objects@[np + k].1));
            assert(pages_of(gf.objects@, 0)[k].obj == gf.objects@[np + k].1);
        }
        // the folded page-tree-root fields reach the output root
        assert forall|n: Seq<u8>|
            n != tag_bytes(Tag::Count) && n != tag_bytes(Tag::Kids) implies (match #[trigger]
        input_fold_binding(docs0, n) {
            Some(v) => dget(ep->Dict_0@, n) is Some && rw_twice(
                v,
                dget(ep->Dict_0@, n)->Some_0,
            ),
            None => dget(ep->Dict_0@, n) is None,
        }) by {
            crate::graph::lemma_rw_dget(ids_pre, 1, pd_final->Dict_0@, ep->Dict_0@, n);
            assert(dget(pd_final->Dict_0@, n) == dget(fold0, n));
            if input_fold_binding(docs0, n) is Some {
                let v = input_fold_binding(docs0, n)->Some_0;
                assert(dget(fold0, n) is Some && rw_image(v, dget(fold0, n)->Some_0));
                let w = dget(fold0, n)->Some_0;
                let w2 = dget(ep->Dict_0@, n)->Some_0;
                assert(rw_obj(ids_pre, 1, w, w2));
                assert(rw_image(w, w2));
                assert(rw_twice(v, w2));
            }
        }
        assert(pages_root_ok(docs0, gf, ep));
        // the anchor catalog's fields reach the output catalog
        assert(input_anchor(docs0) is Some);
        let anchord = input_anchor(docs0)->Some_0;
        let (ids1, s1) = choose|ids1: Seq<ObjId>, s1: u32| rw_entries(ids1, s1, anchord@, cat0);
        assert forall|n: Seq<u8>|
            n != tag_bytes(Tag::Pages) && n != tag_bytes(Tag::Outlines) implies (match
        #[trigger] dget(anchord@, n) {
            Some(v) => dget(ec->Dict_0@, n) is Some && rw_twice(
                v,
                dget(ec->Dict_0@, n)->Some_0,
            ),
            None => dget(ec->Dict_0@, n) is None,
        }) by {
            crate::graph::lemma_rw_dget(ids1, s1, anchord@, cat0, n);
            assert(dget(cat_final->Dict_0@, n) == dget(cat0, n));
            crate::graph::lemma_rw_dget(ids_pre, 1, cat_final->Dict_0@, ec->Dict_0@, n);
            if dget(anchord@, n) is Some {
                let v = dget(anchord@, n)->Some_0;
                let w = dget(cat0, n)->Some_0;
                assert(rw_obj(ids1, s1, v, w));
                assert(rw_image(v, w));
                let w2 = dget(ec->Dict_0@, n)->Some_0;
                assert(rw_obj(ids_pre, 1, w, w2));
                assert(rw_image(w, w2));
                assert(rw_twice(v, w2));
            }
        }
        assert(merged_linked(docs0, gf, cat_slot, pr_slot));
        assert(merged_wf(docs0, gf));
    }
    Ok(gf)
}


} // verus!

