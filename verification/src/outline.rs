//! The outline builder: one bookmark per contributing source document,
//! compiled into a linked list of outline-item dictionaries under a single
//! outline root.

use vstd::prelude::*;

use crate::model::{
    dget, has_type, lemma_tags, tag_bytes, tag_vec, type_name_of, Dict, Obj, ObjId, Tag,
};

verus! {

/// A display colour as three decimal-text number components.
pub struct Rgb {
    pub red: Vec<u8>,
    pub green: Vec<u8>,
    pub blue: Vec<u8>,
}

/// A bookmark: a title, a display colour, an indent level and the page it
/// points at. Not itself a graph object until the outline builder
/// materializes it.
pub struct Bookmark {
    pub title: Vec<u8>,
    pub color: Rgb,
    pub level: u32,
    pub target: ObjId,
}

/// The decimal spelling of a number.
pub open spec fn dec_of(n: nat) -> Seq<u8>
    decreases n,
{
    if n < 10 {
        seq![(48 + n) as u8]
    } else {
        dec_of(n / 10).push((48 + n % 10) as u8)
    }
}

/// Writes a number in decimal.
pub fn u32_to_dec(n: u32) -> (r: Vec<u8>)
    ensures
        r@ == dec_of(n as nat),
    decreases n,
{
    if n < 10 {
        vec![48 + (n as u8)]
    } else {
        let mut v = u32_to_dec(n / 10);
        v.push(48 + ((n % 10) as u8));
        v
    }
}

/// The generated bookmark label for the n-th contributing document:
/// `Page_` followed by the number in decimal.
pub open spec fn page_label(n: nat) -> Seq<u8> {
    seq![80u8, 97, 103, 101, 95] + dec_of(n)
}

/// Builds the generated label for the n-th contributing document.
pub fn page_label_vec(n: u32) -> (r: Vec<u8>)
    ensures
        r@ == page_label(n as nat),
{
    let mut v: Vec<u8> = vec![80u8, 97, 103, 101, 95];
    let mut d = u32_to_dec(n);
    v.append(&mut d);
    proof {
        assert(v@ =~= page_label(n as nat));
    }
    v
}

/// Materializes the bookmarks as one outline root at identifier `start`
/// followed by one outline-item dictionary per bookmark at the following
/// identifiers; with no bookmarks nothing is produced. Item `k` carries the
/// bookmark's title and a destination naming its target page; the root
/// declares type Outlines, the item count, and its first and last children;
/// the items chain through `Prev` and `Next`, the first and last ends left
/// open.
pub fn build_outline(bms: Vec<Bookmark>, start: u32) -> (r: Vec<(ObjId, Obj)>)
    requires
        start as int + 1 + bms@.len() <= u32::MAX as int + 1,
    ensures
        bms@.len() == 0 ==> r@.len() == 0,
        bms@.len() > 0 ==> r@.len() == 1 + bms@.len(),
        forall|k: int|
            0 <= k < r@.len() ==> (#[trigger] r@[k]).0 == (ObjId {
                num: (start + k) as u32,
                gen: 0u16,
            }),
        bms@.len() > 0 ==> has_type(r@[0].1, Tag::Outlines) && r@[0].1 is Dict && dget(
            r@[0].1->Dict_0@,
            tag_bytes(Tag::Count),
        ) == Some(Obj::Integer(bms@.len() as i64)),
        bms@.len() > 0 ==> dget(r@[0].1->Dict_0@, tag_bytes(Tag::First)) == Some(
            Obj::Ref(ObjId { num: (start + 1) as u32, gen: 0u16 }),
        ),
        bms@.len() > 0 ==> dget(r@[0].1->Dict_0@, tag_bytes(Tag::Last)) == Some(
            Obj::Ref(ObjId { num: (start + bms@.len()) as u32, gen: 0u16 }),
        ),
        forall|k: int|
            1 <= k < r@.len() ==> ({
                &&& (#[trigger] r@[k]).1 is Dict
                &&& type_name_of(r@[k].1) is None
                &&& dget(r@[k].1->Dict_0@, tag_bytes(Tag::Title)) == Some(
                    Obj::Text(bms@[k - 1].title),
                )
                &&& dget(r@[k].1->Dict_0@, tag_bytes(Tag::Parent)) == Some(
                    Obj::Ref(ObjId { num: start, gen: 0u16 }),
                )
                &&& (k == 1 ==> dget(r@[k].1->Dict_0@, tag_bytes(Tag::Prev)) is None)
                &&& (k > 1 ==> dget(r@[k].1->Dict_0@, tag_bytes(Tag::Prev)) == Some(
                    Obj::Ref(ObjId { num: (start + k - 1) as u32, gen: 0u16 }),
                ))
                &&& (k == r@.len() - 1 ==> dget(r@[k].1->Dict_0@, tag_bytes(Tag::Next))
                    is None)
                &&& (k < r@.len() - 1 ==> dget(r@[k].1->Dict_0@, tag_bytes(Tag::Next))
                    == Some(Obj::Ref(ObjId { num: (start + k + 1) as u32, gen: 0u16 })))
                &&& match dget(r@[k].1->Dict_0@, tag_bytes(Tag::Dest)) {
                    Some(Obj::Array(a)) => a@.len() == 2 && a@[0] == Obj::Ref(
                        bms@[k - 1].target,
                    ),
                    _ => false,
                }
            }),
{
    let mut r: Vec<(ObjId, Obj)> = Vec::new();
    if bms.len() == 0 {
        return r;
    }
    proof {
        lemma_tags();
    }
    let n = bms.len();
    let mut root = Dict::empty();
    root.set(Tag::Type, Obj::Name(tag_vec(Tag::Outlines)));
    root.set(Tag::Count, Obj::Integer(n as i64));
    root.set(Tag::First, Obj::Ref(ObjId { num: start + 1, gen: 0 }));
    root.set(Tag::Last, Obj::Ref(ObjId { num: start + (n as u32), gen: 0 }));
    r.push((ObjId { num: start, gen: 0 }, Obj::Dict(root)));
    let ghost bms0 = bms@;
    let mut rem = bms;
    let mut k: u32 = 0;
    while rem.len() > 0
        invariant
            n == bms0.len(),
            n >= 1,
            start as int + 1 + n <= u32::MAX as int + 1,
            k as int + rem@.len() == n as int,
            rem@ == bms0.subrange(k as int, n as int),
            r@.len() == 1 + k,
            forall|j: int|
                0 <= j < r@.len() ==> (#[trigger] r@[j]).0 == (ObjId {
                    num: (start + j) as u32,
                    gen: 0u16,
                }),
            has_type(r@[0].1, Tag::Outlines) && r@[0].1 is Dict && dget(
                r@[0].1->Dict_0@,
                tag_bytes(Tag::Count),
            ) == Some(Obj::Integer(bms0.len() as i64)),
            dget(r@[0].1->Dict_0@, tag_bytes(Tag::First)) == Some(
                Obj::Ref(ObjId { num: (start + 1) as u32, gen: 0u16 }),
            ),
            dget(r@[0].1->Dict_0@, tag_bytes(Tag::Last)) == Some(
                Obj::Ref(ObjId { num: (start + bms0.len()) as u32, gen: 0u16 }),
            ),
            forall|j: int|
                1 <= j < r@.len() ==> ({
                    &&& (#[trigger] r@[j]).1 is Dict
                    &&& type_name_of(r@[j].1) is None
                    &&& dget(r@[j].1->Dict_0@, tag_bytes(Tag::Title)) == Some(
                        Obj::Text(bms0[j - 1].title),
                    )
                    &&& dget(r@[j].1->Dict_0@, tag_bytes(Tag::Parent)) == Some(
                        Obj::Ref(ObjId { num: start, gen: 0u16 }),
                    )
                    &&& (j == 1 ==> dget(r@[j].1->Dict_0@, tag_bytes(Tag::Prev)) is None)
                    &&& (j > 1 ==> dget(r@[j].1->Dict_0@, tag_bytes(Tag::Prev)) == Some(
                        Obj::Ref(ObjId { num: (start + j - 1) as u32, gen: 0u16 }),
                    ))
                    &&& (j == n ==> dget(r@[j].1->Dict_0@, tag_bytes(Tag::Next)) is None)
                    &&& (j < n ==> dget(r@[j].1->Dict_0@, tag_bytes(Tag::Next)) == Some(
                        Obj::Ref(ObjId { num: (start + j + 1) as u32, gen: 0u16 }),
                    ))
                    &&& match dget(r@[j].1->Dict_0@, tag_bytes(Tag::Dest)) {
                        Some(Obj::Array(a)) => a@.len() == 2 && a@[0] == Obj::Ref(
                            bms0[j - 1].target,
                        ),
                        _ => false,
                    }
                }),
        decreases rem@.len(),
    {
        let bm = rem.remove(0);
        proof {
            lemma_tags();
            assert(bm == bms0[k as int]);
            assert(rem@ =~= bms0.subrange(k as int + 1, n as int));
        }
        let mut item = Dict::empty();
        let Bookmark { title, color, level: _, target } = bm;
        item.set(Tag::Title, Obj::Text(title));
        item.set(Tag::Parent, Obj::Ref(ObjId { num: start, gen: 0 }));
        let dest: Vec<Obj> = vec![Obj::Ref(target), Obj::Name(tag_vec(Tag::Fit))];
        item.set(Tag::Dest, Obj::Array(dest));
        let colors: Vec<Obj> = vec![
            Obj::Real(color.red),
            Obj::Real(color.green),
            Obj::Real(color.blue),
        ];
        item.set(Tag::Color, Obj::Array(colors));
        if k > 0 {
            item.set(Tag::Prev, Obj::Ref(ObjId { num: start + k, gen: 0 }));
        }
        if (k as usize) + 1 < n {
            item.set(Tag::Next, Obj::Ref(ObjId { num: start + k + 2, gen: 0 }));
        }
        r.push((ObjId { num: start + k + 1, gen: 0 }, Obj::Dict(item)));
        k = k + 1;
    }
    r
}

} // verus!
