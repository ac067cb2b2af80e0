//! Document graphs and the renumbering engine: rewriting a graph's object
//! identifiers into a fresh range while fixing up every internal reference.

use vstd::prelude::*;

use crate::model::{dget, type_name_of, Dict, DictEntry, Obj, ObjId};

verus! {

/// A document graph: an object table, a trailer dictionary and the highest
/// identifier in use. Every object belongs to exactly one graph.
#[derive(Debug)]
pub struct DocGraph {
    pub objects: Vec<(ObjId, Obj)>,
    pub trailer: Dict,
    pub max_id: u32,
}

/// The identifiers of an object table, in table order.
pub open spec fn ids_of(os: Seq<(ObjId, Obj)>) -> Seq<ObjId> {
    Seq::new(os.len(), |i: int| os[i].0)
}

/// The index of the first occurrence of an identifier, or -1 if absent.
pub open spec fn find_idx(ids: Seq<ObjId>, x: ObjId) -> int
    decreases ids.len(),
{
    if ids.len() == 0 {
        -1
    } else if ids[0] == x {
        0
    } else {
        let r = find_idx(ids.subrange(1, ids.len() as int), x);
        if r == -1 {
            -1
        } else {
            r + 1
        }
    }
}

/// What an identifier is renumbered to: the occupant of slot `k` in the old
/// table moves to `start + k` with generation zero; an identifier that the
/// table does not hold (a dangling reference) is left as it is.
pub open spec fn map_id(ids: Seq<ObjId>, start: u32, x: ObjId) -> ObjId {
    let k = find_idx(ids, x);
    if k == -1 {
        x
    } else {
        ObjId { num: (start + k) as u32, gen: 0u16 }
    }
}

/// `b` is `a` with every reference rewritten through the identifier map and
/// everything else unchanged.
pub open spec fn rw_obj(ids: Seq<ObjId>, start: u32, a: Obj, b: Obj) -> bool
    decreases a,
{
    match a {
        Obj::Ref(x) => b == Obj::Ref(map_id(ids, start, x)),
        Obj::Array(u) => b matches Obj::Array(w) && rw_arr(ids, start, u@, w@),
        Obj::Dict(d) => b matches Obj::Dict(e) && rw_entries(ids, start, d@, e@),
        Obj::Stream(d, bytes) => b matches Obj::Stream(e, b2) && rw_entries(
            ids,
            start,
            d@,
            e@,
        ) && b2@ == bytes@,
        _ => b == a,
    }
}

/// Elementwise `rw_obj` over two equally long sequences of objects.
pub open spec fn rw_arr(ids: Seq<ObjId>, start: u32, u: Seq<Obj>, w: Seq<Obj>) -> bool
    decreases u,
{
    w.len() == u.len() && forall|k: int|
        0 <= k < u.len() ==> rw_obj(ids, start, u[k], #[trigger] w[k])
}

/// Entrywise `rw_obj` over two dictionaries: names kept, values rewritten.
pub open spec fn rw_entries(
    ids: Seq<ObjId>,
    start: u32,
    d: Seq<DictEntry>,
    e: Seq<DictEntry>,
) -> bool
    decreases d,
{
    e.len() == d.len() && forall|k: int|
        0 <= k < d.len() ==> (#[trigger] e[k]).name@ == d[k].name@ && rw_obj(
            ids,
            start,
            d[k].value,
            e[k].value,
        )
}

/// Where `find_idx` lands: -1 exactly when the identifier is absent, and
/// otherwise the first slot that holds it.
pub proof fn lemma_find_idx(ids: Seq<ObjId>, x: ObjId)
    ensures
        find_idx(ids, x) == -1 ==> forall|k: int| 0 <= k < ids.len() ==> ids[k] != x,
        find_idx(ids, x) != -1 ==> {
            &&& 0 <= find_idx(ids, x) < ids.len()
            &&& ids[find_idx(ids, x)] == x
            &&& forall|k: int| 0 <= k < find_idx(ids, x) ==> ids[k] != x
        },
    decreases ids.len(),
{
    if ids.len() == 0 {
    } else if ids[0] == x {
    } else {
        lemma_find_idx(ids.subrange(1, ids.len() as int), x);
        assert forall|k: int| 1 <= k < ids.len() implies ids[k] == ids.subrange(
            1,
            ids.len() as int,
        )[k - 1] by {}
    }
}

/// In a table without duplicate identifiers, slot `k`'s identifier finds
/// slot `k`.
pub proof fn lemma_find_idx_at(ids: Seq<ObjId>, k: int)
    requires
        0 <= k < ids.len(),
        forall|i: int, j: int| 0 <= i < j < ids.len() ==> ids[i] != ids[j],
    ensures
        find_idx(ids, ids[k]) == k,
{
    lemma_find_idx(ids, ids[k]);
    let r = find_idx(ids, ids[k]);
    if r == -1 {
        assert(ids[k] != ids[k]);
    } else {
        if r < k {
            assert(ids[r] == ids[k]);
        } else if r > k {
            assert(ids[k] != ids[k]);
        }
    }
}

/// Looks an identifier up in the old table and returns its renumbered form.
fn map_ref(ids: &Vec<ObjId>, start: u32, x: ObjId) -> (r: ObjId)
    requires
        start as int + ids@.len() <= u32::MAX as int + 1,
    ensures
        r == map_id(ids@, start, x),
{
    proof {
        lemma_find_idx(ids@, x);
    }
    let mut i: usize = 0;
    while i < ids.len()
        invariant
            i <= ids@.len(),
            start as int + ids@.len() <= u32::MAX as int + 1,
            forall|k: int| 0 <= k < i ==> ids@[k] != x,
        decreases ids@.len() - i,
    {
        if ids[i].num == x.num && ids[i].gen == x.gen {
            proof {
                assert(ids@[i as int] == x);
                lemma_find_idx(ids@, x);
                assert(find_idx(ids@, x) == i);
            }
            return ObjId { num: start + (i as u32), gen: 0 };
        }
        i = i + 1;
    }
    proof {
        lemma_find_idx(ids@, x);
        if find_idx(ids@, x) != -1 {
            assert(ids@[find_idx(ids@, x)] != x);
        }
    }
    x
}

/// Rewrites every reference inside an object through the identifier map,
/// leaving all other content unchanged.
pub fn rewrite_obj(ids: &Vec<ObjId>, start: u32, o: Obj) -> (r: Obj)
    requires
        start as int + ids@.len() <= u32::MAX as int + 1,
    ensures
        rw_obj(ids@, start, o, r),
    decreases o,
{
    match o {
        Obj::Null => Obj::Null,
        Obj::Boolean(b) => Obj::Boolean(b),
        Obj::Integer(x) => Obj::Integer(x),
        Obj::Real(v) => Obj::Real(v),
        Obj::Text(v) => Obj::Text(v),
        Obj::Name(v) => Obj::Name(v),
        Obj::Ref(x) => Obj::Ref(map_ref(ids, start, x)),
        Obj::Array(v) => {
            let ghost v0 = v@;
            proof {
                assert(o->Array_0 == v);
            }
            let mut rem = v;
            let mut out: Vec<Obj> = Vec::new();
            while rem.len() > 0
                invariant
                    start as int + ids@.len() <= u32::MAX as int + 1,
                    out@.len() + rem@.len() == v0.len(),
                    rem@ == v0.subrange(out@.len() as int, v0.len() as int),
                    o->Array_0@ == v0,
                    o is Array,
                    forall|k: int|
                        0 <= k < out@.len() ==> rw_obj(ids@, start, v0[k], #[trigger] out@[k]),
                decreases rem@.len(),
            {
                let ghost p = out@.len() as int;
                let x = rem.remove(0);
                proof {
                    assert(x == v0[p]);
                    assert(decreases_to!(o => o->Array_0@[p]));
                    assert(rem@ =~= v0.subrange(p + 1, v0.len() as int));
                }
                let y = rewrite_obj(ids, start, x);
                out.push(y);
            }
            proof {
                assert(rw_arr(ids@, start, v0, out@));
            }
            Obj::Array(out)
        },
        Obj::Dict(d) => {
            let ghost d0 = d.entries@;
            proof {
                assert(o->Dict_0 == d);
            }
            let mut rem = d.entries;
            let mut out: Vec<DictEntry> = Vec::new();
            while rem.len() > 0
                invariant
                    start as int + ids@.len() <= u32::MAX as int + 1,
                    out@.len() + rem@.len() == d0.len(),
                    rem@ == d0.subrange(out@.len() as int, d0.len() as int),
                    o->Dict_0.entries@ == d0,
                    o is Dict,
                    forall|k: int|
                        0 <= k < out@.len() ==> (#[trigger] out@[k]).name@ == d0[k].name@
                            && rw_obj(ids@, start, d0[k].value, out@[k].value),
                decreases rem@.len(),
            {
                let ghost p = out@.len() as int;
                let x = rem.remove(0);
                proof {
                    assert(x == d0[p]);
                    assert(decreases_to!(o => o->Dict_0.entries@[p].value));
                    assert(rem@ =~= d0.subrange(p + 1, d0.len() as int));
                }
                let y = rewrite_obj(ids, start, x.value);
                out.push(DictEntry { name: x.name, value: y });
            }
            proof {
                assert(rw_entries(ids@, start, d0, out@));
            }
            Obj::Dict(Dict { entries: out })
        },
        Obj::Stream(d, bytes) => {
            let ghost d0 = d.entries@;
            proof {
                assert(o->Stream_0 == d);
            }
            let mut rem = d.entries;
            let mut out: Vec<DictEntry> = Vec::new();
            while rem.len() > 0
                invariant
                    start as int + ids@.len() <= u32::MAX as int + 1,
                    out@.len() + rem@.len() == d0.len(),
                    rem@ == d0.subrange(out@.len() as int, d0.len() as int),
                    o->Stream_0.entries@ == d0,
                    o is Stream,
                    forall|k: int|
                        0 <= k < out@.len() ==> (#[trigger] out@[k]).name@ == d0[k].name@
                            && rw_obj(ids@, start, d0[k].value, out@[k].value),
                decreases rem@.len(),
            {
                let ghost p = out@.len() as int;
                let x = rem.remove(0);
                proof {
                    assert(x == d0[p]);
                    assert(decreases_to!(o => o->Stream_0.entries@[p].value));
                    assert(rem@ =~= d0.subrange(p + 1, d0.len() as int));
                }
                let y = rewrite_obj(ids, start, x.value);
                out.push(DictEntry { name: x.name, value: y });
            }
            proof {
                assert(rw_entries(ids@, start, d0, out@));
            }
            Obj::Stream(Dict { entries: out }, bytes)
        },
    }
}

/// `b` is `a` carried through a renumbering pass: its references rewritten
/// consistently through some identifier map, everything else unchanged.
/// Which references end up where is not fixed here; the merge's linkage
/// clauses pin that separately.
pub open spec fn rw_image(a: Obj, b: Obj) -> bool {
    exists|ids: Seq<ObjId>, st: u32| rw_obj(ids, st, a, b)
}

/// `b` is `a` carried through two renumbering passes in turn.
pub open spec fn rw_twice(a: Obj, b: Obj) -> bool {
    exists|mid: Obj| rw_image(a, mid) && rw_image(mid, b)
}

/// The identifier that slot `i` of a table renumbered from `start` receives.
pub open spec fn new_id(start: u32, i: int) -> ObjId {
    ObjId { num: (start + i) as u32, gen: 0u16 }
}

/// Renumbers a graph: slot `i` of the object table receives identifier
/// `start + i`, every reference anywhere in the graph (the trailer included)
/// is rewritten accordingly, and the next free identifier is returned as the
/// watermark for the following document.
pub fn renumber_graph(g: DocGraph, start: u32) -> (r: (DocGraph, u32))
    requires
        1 <= start,
        start as int + g.objects@.len() <= u32::MAX as int,
    ensures
        r.1 as int == start as int + g.objects@.len(),
        r.0.objects@.len() == g.objects@.len(),
        forall|i: int|
            0 <= i < g.objects@.len() ==> (#[trigger] r.0.objects@[i]).0 == new_id(start, i),
        forall|i: int|
            0 <= i < g.objects@.len() ==> rw_obj(
                ids_of(g.objects@),
                start,
                g.objects@[i].1,
                (#[trigger] r.0.objects@[i]).1,
            ),
        rw_entries(ids_of(g.objects@), start, g.trailer@, r.0.trailer@),
        r.0.max_id as int == start as int + g.objects@.len() - 1,
{
    let ghost os0 = g.objects@;
    let mut ids: Vec<ObjId> = Vec::new();
    let mut i: usize = 0;
    while i < g.objects.len()
        invariant
            i <= g.objects@.len(),
            g.objects@ == os0,
            ids@.len() == i,
            forall|k: int| 0 <= k < i ==> ids@[k] == os0[k].0,
        decreases g.objects@.len() - i,
    {
        let id = g.objects[i].0;
        ids.push(id);
        i = i + 1;
    }
    proof {
        assert(ids@ =~= ids_of(os0));
    }
    let DocGraph { objects, trailer, max_id: _ } = g;
    let mut rem = objects;
    let mut out: Vec<(ObjId, Obj)> = Vec::new();
    while rem.len() > 0
        invariant
            start as int + os0.len() <= u32::MAX as int + 1,
            ids@ == ids_of(os0),
            out@.len() + rem@.len() == os0.len(),
            rem@ == os0.subrange(out@.len() as int, os0.len() as int),
            forall|k: int| 0 <= k < out@.len() ==> (#[trigger] out@[k]).0 == new_id(start, k),
            forall|k: int|
                0 <= k < out@.len() ==> rw_obj(
                    ids_of(os0),
                    start,
                    os0[k].1,
                    (#[trigger] out@[k]).1,
                ),
        decreases rem@.len(),
    {
        let ghost p = out@.len() as int;
        let entry = rem.remove(0);
        proof {
            assert(entry == os0[p]);
            assert(rem@ =~= os0.subrange(p + 1, os0.len() as int));
        }
        let num = start + (out.len() as u32);
        let o2 = rewrite_obj(&ids, start, entry.1);
        out.push((ObjId { num, gen: 0 }, o2));
    }
    let ghost t0 = trailer.entries@;
    let mut trem = trailer.entries;
    let mut tout: Vec<DictEntry> = Vec::new();
    while trem.len() > 0
        invariant
            start as int + os0.len() <= u32::MAX as int + 1,
            ids@ == ids_of(os0),
            tout@.len() + trem@.len() == t0.len(),
            trem@ == t0.subrange(tout@.len() as int, t0.len() as int),
            forall|k: int|
                0 <= k < tout@.len() ==> (#[trigger] tout@[k]).name@ == t0[k].name@ && rw_obj(
                    ids_of(os0),
                    start,
                    t0[k].value,
                    tout@[k].value,
                ),
        decreases trem@.len(),
    {
        let ghost p = tout@.len() as int;
        let x = trem.remove(0);
        proof {
            assert(x == t0[p]);
            assert(trem@ =~= t0.subrange(p + 1, t0.len() as int));
        }
        let y = rewrite_obj(&ids, start, x.value);
        tout.push(DictEntry { name: x.name, value: y });
    }
    let n = out.len() as u32;
    let next = start + n;
    proof {
        assert(rw_entries(ids_of(os0), start, t0, tout@));
    }
    (DocGraph { objects: out, trailer: Dict { entries: tout }, max_id: next - 1 }, next)
}


/// A rewritten dictionary binds exactly the names the original binds, each
/// to the rewritten form of the original value.
pub proof fn lemma_rw_dget(
    ids: Seq<ObjId>,
    start: u32,
    d: Seq<DictEntry>,
    e: Seq<DictEntry>,
    n: Seq<u8>,
)
    requires
        rw_entries(ids, start, d, e),
    ensures
        match dget(d, n) {
            Some(v) => dget(e, n) is Some && rw_obj(ids, start, v, dget(e, n)->Some_0),
            None => dget(e, n) is None,
        },
    decreases d.len(),
{
    if d.len() == 0 {
    } else if d[0].name@ == n {
        assert(e[0].name@ == n);
    } else {
        assert(e[0].name@ == d[0].name@);
        let d1 = d.subrange(1, d.len() as int);
        let e1 = e.subrange(1, e.len() as int);
        assert(rw_entries(ids, start, d1, e1)) by {
            assert forall|k: int| 0 <= k < d1.len() implies (#[trigger] e1[k]).name@
                == d1[k].name@ && rw_obj(ids, start, d1[k].value, e1[k].value) by {
                assert(e1[k] == e[k + 1]);
                assert(d1[k] == d[k + 1]);
            }
        }
        lemma_rw_dget(ids, start, d1, e1, n);
    }
}

/// Rewriting references never changes an object's declared type.
pub proof fn lemma_rw_type(ids: Seq<ObjId>, start: u32, a: Obj, b: Obj)
    requires
        rw_obj(ids, start, a, b),
    ensures
        type_name_of(b) == type_name_of(a),
{
    match a {
        Obj::Dict(d) => {
            let e = b->Dict_0;
            lemma_rw_dget(ids, start, d@, e@, crate::model::tag_bytes(crate::model::Tag::Type));
        },
        Obj::Stream(d, _) => {
            let e = b->Stream_0;
            lemma_rw_dget(ids, start, d@, e@, crate::model::tag_bytes(crate::model::Tag::Type));
        },
        _ => {},
    }
}

/// The law of the renumbering fold: two documents renumbered one after the
/// other, the second starting at or past the watermark the first returned,
/// hold pairwise different identifiers, and within each document no two
/// slots share one. So, before the final renumbering pass, no identifier
/// collides across the inputs of a merge.
pub proof fn lemma_renumbered_ranges_disjoint(
    os1: Seq<(ObjId, Obj)>,
    start1: u32,
    os2: Seq<(ObjId, Obj)>,
    start2: u32,
)
    requires
        forall|i: int| 0 <= i < os1.len() ==> (#[trigger] os1[i]).0 == new_id(start1, i),
        forall|i: int| 0 <= i < os2.len() ==> (#[trigger] os2[i]).0 == new_id(start2, i),
        start1 as int + os1.len() <= start2 as int,
        start2 as int + os2.len() <= u32::MAX as int + 1,
    ensures
        forall|i: int, j: int|
            0 <= i < os1.len() && 0 <= j < os2.len() ==> (#[trigger] os1[i]).0 != (
            #[trigger] os2[j]).0,
        forall|i: int, j: int|
            0 <= i < j < os1.len() ==> (#[trigger] os1[i]).0 != (#[trigger] os1[j]).0,
        forall|i: int, j: int|
            0 <= i < j < os2.len() ==> (#[trigger] os2[i]).0 != (#[trigger] os2[j]).0,
{
    assert forall|i: int, j: int|
        0 <= i < os1.len() && 0 <= j < os2.len() implies (#[trigger] os1[i]).0 != (
    #[trigger] os2[j]).0 by {
        assert(os1[i].0.num == start1 + i);
        assert(os2[j].0.num == start2 + j);
    }
    assert forall|i: int, j: int| 0 <= i < j < os1.len() implies (#[trigger] os1[i]).0 != (
    #[trigger] os1[j]).0 by {
        assert(os1[i].0.num == start1 + i);
        assert(os1[j].0.num == start1 + j);
    }
    assert forall|i: int, j: int| 0 <= i < j < os2.len() implies (#[trigger] os2[i]).0 != (
    #[trigger] os2[j]).0 by {
        assert(os2[i].0.num == start2 + i);
        assert(os2[j].0.num == start2 + j);
    }
}

} // verus!


