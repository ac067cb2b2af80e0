//! The object graph model: identifiers, objects, dictionaries, and the
//! spec-level lookup function that the whole library's contracts build on.

use vstd::prelude::*;

verus! {

/// An object identifier: a sequence number paired with a generation number.
/// Identifiers are unique within one document graph; making them unique
/// across the union of several graphs is the renumbering engine's job.
#[derive(Clone, Copy, Debug, PartialEq, Eq, Structural)]
pub struct ObjId {
    pub num: u32,
    pub gen: u16,
}

/// One entry of a dictionary: a name mapped to an object.
#[derive(Debug)]
pub struct DictEntry {
    pub name: Vec<u8>,
    pub value: Obj,
}

/// A dictionary: an ordered list of name/object entries. Lookup takes the
/// first entry with a matching name, so an entry shadows any later
/// entry of the same name.
#[derive(Debug)]
pub struct Dict {
    pub entries: Vec<DictEntry>,
}

/// A document object: a tagged union over the primitive values, containers
/// and references that a document graph is made of. A `Ref` never owns its
/// target; it is resolved by an identifier lookup in the owning graph.
/// A `Real` carries the decimal text of the number, which the merge never
/// interprets.
#[derive(Debug)]
pub enum Obj {
    Null,
    Boolean(bool),
    Integer(i64),
    Real(Vec<u8>),
    Text(Vec<u8>),
    Name(Vec<u8>),
    Array(Vec<Obj>),
    Dict(Dict),
    Stream(Dict, Vec<u8>),
    Ref(ObjId),
}

impl View for Dict {
    type V = Seq<DictEntry>;

    open spec fn view(&self) -> Seq<DictEntry> {
        self.entries@
    }
}

/// First-match lookup of a name in a dictionary's entry list.
pub open spec fn dget(es: Seq<DictEntry>, name: Seq<u8>) -> Option<Obj>
    decreases es.len(),
{
    if es.len() == 0 {
        None
    } else if es[0].name@ == name {
        Some(es[0].value)
    } else {
        dget(es.subrange(1, es.len() as int), name)
    }
}

/// The dictionary names and name values that the merge reads or writes.
#[derive(Clone, Copy, Debug)]
pub enum Tag {
    Type,
    Catalog,
    Pages,
    Page,
    Outlines,
    Outline,
    Count,
    Kids,
    Parent,
    Root,
    Title,
    First,
    Last,
    Next,
    Prev,
    Dest,
    Fit,
    Color,
}

/// The byte spelling of each tag, as it appears as a dictionary name.
pub open spec fn tag_bytes(t: Tag) -> Seq<u8> {
    match t {
        Tag::Type => seq![84u8, 121, 112, 101],
        Tag::Catalog => seq![67u8, 97, 116, 97, 108, 111, 103],
        Tag::Pages => seq![80u8, 97, 103, 101, 115],
        Tag::Page => seq![80u8, 97, 103, 101],
        Tag::Outlines => seq![79u8, 117, 116, 108, 105, 110, 101, 115],
        Tag::Outline => seq![79u8, 117, 116, 108, 105, 110, 101],
        Tag::Count => seq![67u8, 111, 117, 110, 116],
        Tag::Kids => seq![75u8, 105, 100, 115],
        Tag::Parent => seq![80u8, 97, 114, 101, 110, 116],
        Tag::Root => seq![82u8, 111, 111, 116],
        Tag::Title => seq![84u8, 105, 116, 108, 101],
        Tag::First => seq![70u8, 105, 114, 115, 116],
        Tag::Last => seq![76u8, 97, 115, 116],
        Tag::Next => seq![78u8, 101, 120, 116],
        Tag::Prev => seq![80u8, 114, 101, 118],
        Tag::Dest => seq![68u8, 101, 115, 116],
        Tag::Fit => seq![70u8, 105, 116],
        Tag::Color => seq![67u8],
    }
}

/// Builds the byte spelling of a tag as an owned vector.
pub fn tag_vec(t: Tag) -> (r: Vec<u8>)
    ensures
        r@ == tag_bytes(t),
{
    match t {
        Tag::Type => vec![84u8, 121, 112, 101],
        Tag::Catalog => vec![67u8, 97, 116, 97, 108, 111, 103],
        Tag::Pages => vec![80u8, 97, 103, 101, 115],
        Tag::Page => vec![80u8, 97, 103, 101],
        Tag::Outlines => vec![79u8, 117, 116, 108, 105, 110, 101, 115],
        Tag::Outline => vec![79u8, 117, 116, 108, 105, 110, 101],
        Tag::Count => vec![67u8, 111, 117, 110, 116],
        Tag::Kids => vec![75u8, 105, 100, 115],
        Tag::Parent => vec![80u8, 97, 114, 101, 110, 116],
        Tag::Root => vec![82u8, 111, 111, 116],
        Tag::Title => vec![84u8, 105, 116, 108, 101],
        Tag::First => vec![70u8, 105, 114, 115, 116],
        Tag::Last => vec![76u8, 97, 115, 116],
        Tag::Next => vec![78u8, 101, 120, 116],
        Tag::Prev => vec![80u8, 114, 101, 118],
        Tag::Dest => vec![68u8, 101, 115, 116],
        Tag::Fit => vec![70u8, 105, 116],
        Tag::Color => vec![67u8],
    }
}

/// Byte-for-byte comparison of two byte vectors.
pub fn bytes_eq(a: &Vec<u8>, b: &Vec<u8>) -> (r: bool)
    ensures
        r == (a@ == b@),
{
    if a.len() != b.len() {
        return false;
    }
    let mut i: usize = 0;
    while i < a.len()
        invariant
            i <= a.len(),
            a@.len() == b@.len(),
            forall|k: int| 0 <= k < i ==> a@[k] == b@[k],
        decreases a.len() - i,
    {
        if a[i] != b[i] {
            return false;
        }
        i = i + 1;
    }
    proof {
        assert(a@ =~= b@);
    }
    true
}

/// Appending an entry to a dictionary leaves every earlier lookup in place;
/// a name not bound before is afterwards bound to the new entry's value.
pub proof fn lemma_dget_push(es: Seq<DictEntry>, e: DictEntry, n: Seq<u8>)
    ensures
        dget(es.push(e), n) == (if dget(es, n) is Some {
            dget(es, n)
        } else if e.name@ == n {
            Some(e.value)
        } else {
            None::<Obj>
        }),
    decreases es.len(),
{
    if es.len() == 0 {
        assert(es.push(e)[0] == e);
        assert(es.push(e).subrange(1, 1) =~= Seq::<DictEntry>::empty());
        assert(dget(Seq::<DictEntry>::empty(), n) is None);
    } else {
        assert(es.push(e)[0] == es[0]);
        assert(es.push(e).subrange(1, es.len() as int + 1) =~= es.subrange(
            1,
            es.len() as int,
        ).push(e));
        lemma_dget_push(es.subrange(1, es.len() as int), e, n);
    }
}

impl Dict {
    /// A dictionary with no entries.
    pub fn empty() -> (r: Dict)
        ensures
            r@ =~= Seq::<DictEntry>::empty(),
    {
        Dict { entries: Vec::new() }
    }

    /// Looks a tag's name up, returning the first matching entry's value.
    pub fn get(&self, t: Tag) -> (r: Option<&Obj>)
        ensures
            match r {
                Some(v) => dget(self@, tag_bytes(t)) == Some(*v),
                None => dget(self@, tag_bytes(t)) is None,
            },
    {
        let name = tag_vec(t);
        let mut i: usize = 0;
        proof {
            assert(self@.subrange(0, self@.len() as int) =~= self@);
        }
        while i < self.entries.len()
            invariant
                i <= self.entries.len(),
                name@ == tag_bytes(t),
                dget(self@, name@) == dget(
                    self@.subrange(i as int, self@.len() as int),
                    name@,
                ),
            decreases self.entries.len() - i,
        {
            if bytes_eq(&self.entries[i].name, &name) {
                return Some(&self.entries[i].value);
            }
            proof {
                assert(self@.subrange(i as int, self@.len() as int).subrange(
                    1,
                    self@.len() - i,
                ) =~= self@.subrange(i + 1, self@.len() as int));
            }
            i = i + 1;
        }
        None
    }

    /// Binds a raw name to a value: every previous binding of the name is
    /// removed and the name afterwards maps to the given value; every other
    /// name keeps its binding.
    pub fn set_raw(&mut self, name: Vec<u8>, v: Obj)
        ensures
            dget(final(self)@, name@) == Some(v),
            forall|n: Seq<u8>|
                n != name@ ==> dget(final(self)@, n) == dget(old(self)@, n),
            final(self)@.len() <= old(self)@.len() + 1,
    {
        let ghost orig = self.entries@;
        let mut kept: Vec<DictEntry> = Vec::new();
        while self.entries.len() > 0
            invariant
                self.entries@ =~= orig.subrange(
                    orig.len() - self.entries@.len(),
                    orig.len() as int,
                ),
                kept@.len() <= orig.len() - self.entries@.len(),
                dget(kept@, name@) is None,
                forall|n: Seq<u8>|
                    n != name@ ==> dget(kept@, n) == dget(
                        orig.take(orig.len() - self.entries@.len()),
                        n,
                    ),
            decreases self.entries.len(),
        {
            let ghost p = orig.len() - self.entries@.len();
            let e = self.entries.remove(0);
            proof {
                assert(e == orig[p]);
                assert(self.entries@ =~= orig.subrange(p + 1, orig.len() as int));
                assert(orig.take(p + 1) =~= orig.take(p).push(orig[p]));
                assert forall|n: Seq<u8>| n != name@ implies dget(
                    orig.take(p + 1),
                    n,
                ) == (if dget(orig.take(p), n) is Some {
                    dget(orig.take(p), n)
                } else if e.name@ == n {
                    Some(e.value)
                } else {
                    None::<Obj>
                }) by {
                    lemma_dget_push(orig.take(p), orig[p as int], n);
                }
            }
            if !bytes_eq(&e.name, &name) {
                let ghost kept0 = kept@;
                proof {
                    assert forall|n: Seq<u8>| true implies dget(
                        kept0.push(e),
                        n,
                    ) == (if dget(kept0, n) is Some {
                        dget(kept0, n)
                    } else if e.name@ == n {
                        Some(e.value)
                    } else {
                        None::<Obj>
                    }) by {
                        lemma_dget_push(kept0, e, n);
                    }
                }
                kept.push(e);
            }
        }
        proof {
            assert(orig.take(orig.len() - self.entries@.len()) =~= orig);
        }
        let ghost kept1 = kept@;
        let new_entry = DictEntry { name, value: v };
        proof {
            assert forall|n: Seq<u8>| true implies dget(
                kept1.push(new_entry),
                n,
            ) == (if dget(kept1, n) is Some {
                dget(kept1, n)
            } else if new_entry.name@ == n {
                Some(new_entry.value)
            } else {
                None::<Obj>
            }) by {
                lemma_dget_push(kept1, new_entry, n);
            }
        }
        kept.push(new_entry);
        self.entries = kept;
    }

    /// Binds a tag's name to a value.
    pub fn set(&mut self, t: Tag, v: Obj)
        ensures
            dget(final(self)@, tag_bytes(t)) == Some(v),
            forall|n: Seq<u8>|
                n != tag_bytes(t) ==> dget(final(self)@, n) == dget(old(self)@, n),
            final(self)@.len() <= old(self)@.len() + 1,
    {
        let name = tag_vec(t);
        self.set_raw(name, v);
    }

    /// Folds another dictionary's bindings over this one: a name the other
    /// dictionary binds takes the other's value; every other name keeps the
    /// binding it had.
    pub fn merge_from(&mut self, other: Dict)
        ensures
            forall|n: Seq<u8>|
                dget(final(self)@, n) == (if dget(other@, n) is Some {
                    dget(other@, n)
                } else {
                    dget(old(self)@, n)
                }),
    {
        let ghost o0 = other.entries@;
        let ghost s0 = self@;
        let mut rem = other.entries;
        proof {
            assert(o0.take(o0.len() as int) =~= o0);
            assert(o0.skip(o0.len() as int) =~= Seq::<DictEntry>::empty());
        }
        while rem.len() > 0
            invariant
                rem@.len() <= o0.len(),
                rem@ == o0.take(rem@.len() as int),
                forall|n: Seq<u8>|
                    dget(self@, n) == (if dget(o0.skip(rem@.len() as int), n) is Some {
                        dget(o0.skip(rem@.len() as int), n)
                    } else {
                        dget(s0, n)
                    }),
            decreases rem@.len(),
        {
            let ghost k = rem@.len() as int;
            let e = rem.pop().unwrap();
            proof {
                assert(e == o0[k - 1]);
                assert(rem@ =~= o0.take(k - 1));
                assert(o0.skip(k - 1)[0] == o0[k - 1]);
                assert(o0.skip(k - 1).subrange(1, o0.skip(k - 1).len() as int) =~= o0.skip(k));
            }
            self.set_raw(e.name, e.value);
        }
        proof {
            assert(o0.skip(0) =~= o0);
        }
    }

    /// Removes every binding of a tag's name; every other name keeps its
    /// binding.
    pub fn remove(&mut self, t: Tag)
        ensures
            dget(final(self)@, tag_bytes(t)) is None,
            forall|n: Seq<u8>|
                n != tag_bytes(t) ==> dget(final(self)@, n) == dget(old(self)@, n),
            final(self)@.len() <= old(self)@.len(),
    {
        let name = tag_vec(t);
        let ghost orig = self.entries@;
        let mut kept: Vec<DictEntry> = Vec::new();
        while self.entries.len() > 0
            invariant
                name@ == tag_bytes(t),
                self.entries@ =~= orig.subrange(
                    orig.len() - self.entries@.len(),
                    orig.len() as int,
                ),
                kept@.len() <= orig.len() - self.entries@.len(),
                dget(kept@, name@) is None,
                forall|n: Seq<u8>|
                    n != name@ ==> dget(kept@, n) == dget(
                        orig.take(orig.len() - self.entries@.len()),
                        n,
                    ),
            decreases self.entries.len(),
        {
            let ghost p = orig.len() - self.entries@.len();
            let e = self.entries.remove(0);
            proof {
                assert(e == orig[p]);
                assert(self.entries@ =~= orig.subrange(p + 1, orig.len() as int));
                assert(orig.take(p + 1) =~= orig.take(p).push(orig[p]));
                assert forall|n: Seq<u8>| n != name@ implies dget(
                    orig.take(p + 1),
                    n,
                ) == (if dget(orig.take(p), n) is Some {
                    dget(orig.take(p), n)
                } else if e.name@ == n {
                    Some(e.value)
                } else {
                    None::<Obj>
                }) by {
                    lemma_dget_push(orig.take(p), orig[p as int], n);
                }
            }
            if !bytes_eq(&e.name, &name) {
                let ghost kept0 = kept@;
                proof {
                    assert forall|n: Seq<u8>| true implies dget(
                        kept0.push(e),
                        n,
                    ) == (if dget(kept0, n) is Some {
                        dget(kept0, n)
                    } else if e.name@ == n {
                        Some(e.value)
                    } else {
                        None::<Obj>
                    }) by {
                        lemma_dget_push(kept0, e, n);
                    }
                }
                kept.push(e);
            }
        }
        proof {
            assert(orig.take(orig.len() - self.entries@.len()) =~= orig);
        }
        self.entries = kept;
    }
}

/// The tags the merge writes spell pairwise different names: what one write
/// binds, another write or removal of a different tag leaves in place.
pub proof fn lemma_tags()
    ensures
        tag_bytes(Tag::Type) != tag_bytes(Tag::Parent),
        tag_bytes(Tag::Type) != tag_bytes(Tag::Count),
        tag_bytes(Tag::Type) != tag_bytes(Tag::Kids),
        tag_bytes(Tag::Type) != tag_bytes(Tag::Pages),
        tag_bytes(Tag::Type) != tag_bytes(Tag::Outlines),
        tag_bytes(Tag::Type) != tag_bytes(Tag::Title),
        tag_bytes(Tag::Type) != tag_bytes(Tag::Dest),
        tag_bytes(Tag::Type) != tag_bytes(Tag::Color),
        tag_bytes(Tag::Type) != tag_bytes(Tag::Prev),
        tag_bytes(Tag::Type) != tag_bytes(Tag::Next),
        tag_bytes(Tag::Type) != tag_bytes(Tag::First),
        tag_bytes(Tag::Type) != tag_bytes(Tag::Last),
        tag_bytes(Tag::Type) != tag_bytes(Tag::Root),
        tag_bytes(Tag::Count) != tag_bytes(Tag::Kids),
        tag_bytes(Tag::Count) != tag_bytes(Tag::First),
        tag_bytes(Tag::Count) != tag_bytes(Tag::Last),
        tag_bytes(Tag::First) != tag_bytes(Tag::Last),
        tag_bytes(Tag::Pages) != tag_bytes(Tag::Outlines),
        tag_bytes(Tag::Pages) != tag_bytes(Tag::Count),
        tag_bytes(Tag::Pages) != tag_bytes(Tag::Kids),
        tag_bytes(Tag::Parent) != tag_bytes(Tag::Count),
        tag_bytes(Tag::Parent) != tag_bytes(Tag::Kids),
        tag_bytes(Tag::Title) != tag_bytes(Tag::Parent),
        tag_bytes(Tag::Title) != tag_bytes(Tag::Dest),
        tag_bytes(Tag::Title) != tag_bytes(Tag::Color),
        tag_bytes(Tag::Title) != tag_bytes(Tag::Prev),
        tag_bytes(Tag::Title) != tag_bytes(Tag::Next),
        tag_bytes(Tag::Dest) != tag_bytes(Tag::Parent),
        tag_bytes(Tag::Dest) != tag_bytes(Tag::Color),
        tag_bytes(Tag::Dest) != tag_bytes(Tag::Prev),
        tag_bytes(Tag::Dest) != tag_bytes(Tag::Next),
        tag_bytes(Tag::Parent) != tag_bytes(Tag::Color),
        tag_bytes(Tag::Parent) != tag_bytes(Tag::Prev),
        tag_bytes(Tag::Parent) != tag_bytes(Tag::Next),
        tag_bytes(Tag::Prev) != tag_bytes(Tag::Next),
        tag_bytes(Tag::Prev) != tag_bytes(Tag::Color),
        tag_bytes(Tag::Next) != tag_bytes(Tag::Color),
        tag_bytes(Tag::Page) != tag_bytes(Tag::Pages),
        tag_bytes(Tag::Catalog) != tag_bytes(Tag::Pages),
        tag_bytes(Tag::Page) != tag_bytes(Tag::Catalog),
        tag_bytes(Tag::Page) != tag_bytes(Tag::Outlines),
        tag_bytes(Tag::Page) != tag_bytes(Tag::Outline),
        tag_bytes(Tag::Catalog) != tag_bytes(Tag::Outlines),
        tag_bytes(Tag::Catalog) != tag_bytes(Tag::Outline),
        tag_bytes(Tag::Pages) != tag_bytes(Tag::Outline),
        tag_bytes(Tag::Outlines) != tag_bytes(Tag::Outline),
{
    assert(tag_bytes(Tag::Type)[0] == 84 && tag_bytes(Tag::Type).len() == 4);
    assert(tag_bytes(Tag::Page)[0] == 80 && tag_bytes(Tag::Page).len() == 4);
    assert(tag_bytes(Tag::Kids)[0] == 75 && tag_bytes(Tag::Kids).len() == 4);
    assert(tag_bytes(Tag::Root)[0] == 82 && tag_bytes(Tag::Root).len() == 4);
    assert(tag_bytes(Tag::Next)[0] == 78 && tag_bytes(Tag::Next).len() == 4);
    assert(tag_bytes(Tag::Prev)[0] == 80 && tag_bytes(Tag::Prev).len() == 4);
    assert(tag_bytes(Tag::Dest)[0] == 68 && tag_bytes(Tag::Dest).len() == 4);
    assert(tag_bytes(Tag::Last)[0] == 76 && tag_bytes(Tag::Last).len() == 4);
    assert(tag_bytes(Tag::Count)[0] == 67 && tag_bytes(Tag::Count).len() == 5);
    assert(tag_bytes(Tag::Title)[0] == 84 && tag_bytes(Tag::Title).len() == 5);
    assert(tag_bytes(Tag::Pages)[0] == 80 && tag_bytes(Tag::Pages).len() == 5);
    assert(tag_bytes(Tag::First)[0] == 70 && tag_bytes(Tag::First).len() == 5);
    assert(tag_bytes(Tag::Parent).len() == 6);
    assert(tag_bytes(Tag::Outlines).len() == 8);
    assert(tag_bytes(Tag::Color).len() == 1);
    assert(tag_bytes(Tag::Prev)[1] == 114 && tag_bytes(Tag::Page)[1] == 97);
    assert(tag_bytes(Tag::Outline)[0] == 79 && tag_bytes(Tag::Outline).len() == 7);
    assert(tag_bytes(Tag::Catalog)[0] == 67 && tag_bytes(Tag::Catalog).len() == 7);
}

/// The declared type of an object: the value of the `Type` name of a
/// dictionary or of a stream's dictionary, where that value is a name.
pub open spec fn type_name_of(o: Obj) -> Option<Seq<u8>> {
    match o {
        Obj::Dict(d) => type_from_entries(d@),
        Obj::Stream(d, _) => type_from_entries(d@),
        _ => None,
    }
}

/// The declared type read from a dictionary's entry list.
pub open spec fn type_from_entries(es: Seq<DictEntry>) -> Option<Seq<u8>> {
    match dget(es, tag_bytes(Tag::Type)) {
        Some(Obj::Name(n)) => Some(n@),
        _ => None,
    }
}

/// Whether an object declares the given tag as its type.
pub open spec fn has_type(o: Obj, t: Tag) -> bool {
    type_name_of(o) == Some(tag_bytes(t))
}

/// Decides whether an object declares the given tag as its type.
pub fn check_type(o: &Obj, t: Tag) -> (r: bool)
    ensures
        r == has_type(*o, t),
{
    let d = match o {
        Obj::Dict(d) => d,
        Obj::Stream(d, _) => d,
        _ => {
            return false;
        },
    };
    match d.get(Tag::Type) {
        Some(Obj::Name(n)) => bytes_eq(n, &tag_vec(t)),
        _ => false,
    }
}

} // verus!
