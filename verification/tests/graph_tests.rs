use pdfmerge::graph::{renumber_graph, DocGraph};
use pdfmerge::merge::{merge, MergeError};
use pdfmerge::model::{Dict, DictEntry, Obj, ObjId, Tag};

fn name_entry(name: &[u8], value: Obj) -> DictEntry {
    DictEntry {
        name: name.to_vec(),
        value,
    }
}

/// A one-page document graph built directly in the library's model.
fn tiny_graph(tag: i64) -> DocGraph {
    let pages_id = ObjId { num: 1, gen: 0 };
    let page_id = ObjId { num: 2, gen: 0 };
    let cat_id = ObjId { num: 3, gen: 0 };
    let pages = Obj::Dict(Dict {
        entries: vec![
            name_entry(b"Type", Obj::Name(b"Pages".to_vec())),
            name_entry(b"Kids", Obj::Array(vec![Obj::Ref(page_id)])),
            name_entry(b"Count", Obj::Integer(1)),
        ],
    });
    let page = Obj::Dict(Dict {
        entries: vec![
            name_entry(b"Type", Obj::Name(b"Page".to_vec())),
            name_entry(b"Parent", Obj::Ref(pages_id)),
            name_entry(b"Mark", Obj::Integer(tag)),
        ],
    });
    let cat = Obj::Dict(Dict {
        entries: vec![
            name_entry(b"Type", Obj::Name(b"Catalog".to_vec())),
            name_entry(b"Pages", Obj::Ref(pages_id)),
        ],
    });
    DocGraph {
        objects: vec![(pages_id, pages), (page_id, page), (cat_id, cat)],
        trailer: Dict {
            entries: vec![name_entry(b"Root", Obj::Ref(cat_id))],
        },
        max_id: 3,
    }
}

fn get<'a>(d: &'a Dict, name: &[u8]) -> Option<&'a Obj> {
    d.entries
        .iter()
        .find(|e| e.name.as_slice() == name)
        .map(|e| &e.value)
}

#[test]
fn merging_no_graphs_fails_with_empty_input() {
    assert_eq!(merge(Vec::new()).unwrap_err(), MergeError::EmptyInput);
}

#[test]
fn merging_graphs_without_pages_fails_with_missing_page_root() {
    let g = DocGraph {
        objects: vec![(
            ObjId { num: 1, gen: 0 },
            Obj::Dict(Dict {
                entries: vec![name_entry(b"Type", Obj::Name(b"Catalog".to_vec()))],
            }),
        )],
        trailer: Dict {
            entries: Vec::new(),
        },
        max_id: 1,
    };
    assert_eq!(merge(vec![g]).unwrap_err(), MergeError::MissingPageRoot);
}

#[test]
fn merging_graphs_without_catalog_fails_with_missing_catalog() {
    let g = DocGraph {
        objects: vec![(
            ObjId { num: 1, gen: 0 },
            Obj::Dict(Dict {
                entries: vec![name_entry(b"Type", Obj::Name(b"Pages".to_vec()))],
            }),
        )],
        trailer: Dict {
            entries: Vec::new(),
        },
        max_id: 1,
    };
    assert_eq!(merge(vec![g]).unwrap_err(), MergeError::MissingCatalog);
}

#[test]
fn renumbering_moves_identifiers_into_a_fresh_disjoint_range() {
    let g1 = tiny_graph(1);
    let (r1, next1) = renumber_graph(g1, 1);
    assert_eq!(next1, 4);
    let g2 = tiny_graph(2);
    let (r2, next2) = renumber_graph(g2, next1);
    assert_eq!(next2, 7);
    let ids1: Vec<u32> = r1.objects.iter().map(|(id, _)| id.num).collect();
    let ids2: Vec<u32> = r2.objects.iter().map(|(id, _)| id.num).collect();
    assert_eq!(ids1, vec![1, 2, 3]);
    assert_eq!(ids2, vec![4, 5, 6]);
    // the page's Parent reference was rewritten to follow the pages object
    let page = &r2.objects[1].1;
    match page {
        Obj::Dict(d) => match get(d, b"Parent") {
            Some(Obj::Ref(id)) => assert_eq!(id.num, 4),
            other => panic!("unexpected Parent: {:?}", other),
        },
        other => panic!("unexpected page object: {:?}", other),
    }
}

#[test]
fn merged_graph_has_dense_identifiers_and_counted_page_tree() {
    let out = merge(vec![tiny_graph(1), tiny_graph(2)]).unwrap();
    for (i, (id, _)) in out.objects.iter().enumerate() {
        assert_eq!(id.num as usize, i + 1);
        assert_eq!(id.gen, 0);
    }
    // find the pages root and check Count and Kids against the two pages
    let mut found = false;
    for (_, o) in out.objects.iter() {
        if let Obj::Dict(d) = o {
            if let Some(Obj::Name(n)) = get(d, b"Type") {
                if n == b"Pages" {
                    found = true;
                    match get(d, b"Count") {
                        Some(Obj::Integer(2)) => {}
                        other => panic!("unexpected Count: {:?}", other),
                    }
                    match get(d, b"Kids") {
                        Some(Obj::Array(ks)) => assert_eq!(ks.len(), 2),
                        other => panic!("unexpected Kids: {:?}", other),
                    }
                }
            }
        }
    }
    assert!(found);
}

#[test]
fn dictionary_set_and_remove_follow_first_match_semantics() {
    let mut d = Dict {
        entries: Vec::new(),
    };
    d.set(Tag::Count, Obj::Integer(1));
    d.set(Tag::Count, Obj::Integer(7));
    match get(&d, b"Count") {
        Some(Obj::Integer(7)) => {}
        other => panic!("unexpected Count: {:?}", other),
    }
    d.set(Tag::Kids, Obj::Array(Vec::new()));
    d.remove(Tag::Count);
    assert!(get(&d, b"Count").is_none());
    assert!(get(&d, b"Kids").is_some());
}

#[test]
fn merge_from_lets_the_later_dictionary_overwrite() {
    let mut acc = Dict {
        entries: vec![
            name_entry(b"A", Obj::Integer(1)),
            name_entry(b"B", Obj::Integer(2)),
        ],
    };
    let later = Dict {
        entries: vec![
            name_entry(b"B", Obj::Integer(20)),
            name_entry(b"C", Obj::Integer(30)),
        ],
    };
    acc.merge_from(later);
    match get(&acc, b"A") {
        Some(Obj::Integer(1)) => {}
        other => panic!("unexpected A: {:?}", other),
    }
    match get(&acc, b"B") {
        Some(Obj::Integer(20)) => {}
        other => panic!("unexpected B: {:?}", other),
    }
    match get(&acc, b"C") {
        Some(Obj::Integer(30)) => {}
        other => panic!("unexpected C: {:?}", other),
    }
}

#[test]
fn error_messages_are_short_and_stable() {
    assert_eq!(MergeError::EmptyInput.message(), "empty file list");
    assert_eq!(MergeError::MissingPageRoot.message(), "root page not found");
    assert_eq!(
        MergeError::MissingCatalog.message(),
        "root catalog not found"
    );
    assert_eq!(
        MergeError::TooLarge.message(),
        "documents exceed the identifier space"
    );
}
