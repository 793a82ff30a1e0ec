use igneous_linearizer::{
    cyclic_transclusion_check, Hyperstring, HyperstringSegment, Metadata, Page, PageMap,
};

fn page(segments: Vec<HyperstringSegment>) -> Page {
    Page { metadata: Metadata::new(), hyperstring: Hyperstring(segments) }
}

#[test]
fn test_cycle() {
    let mut page_map = PageMap::new();
    page_map.insert(
        "page-1".to_string(),
        Page {
            metadata: Metadata::new(),
            hyperstring: Hyperstring(vec![HyperstringSegment::Transclusion(
                "page-2".to_string(),
            )]),
        },
    );
    page_map.insert(
        "page-2".to_string(),
        Page {
            metadata: Metadata::new(),
            hyperstring: Hyperstring(vec![HyperstringSegment::Transclusion(
                "page-3".to_string(),
            )]),
        },
    );
    page_map.insert(
        "page-3".to_string(),
        Page {
            metadata: Metadata::new(),
            hyperstring: Hyperstring(vec![HyperstringSegment::Transclusion(
                "page-1".to_string(),
            )]),
        },
    );
    let result = cyclic_transclusion_check(&page_map);
    assert!(
        matches!(result, Some(page) if page == "page-1" || page == "page-2" || page == "page-3")
    );
}

#[test]
fn test_loop() {
    let mut page_map = PageMap::new();
    page_map.insert(
        "page-1".to_string(),
        Page {
            metadata: Metadata::new(),
            hyperstring: Hyperstring(vec![HyperstringSegment::Transclusion(
                "page-1".to_string(),
            )]),
        },
    );

    let result = cyclic_transclusion_check(&page_map);
    assert_eq!(result, Some("page-1".to_string()));
}

#[test]
fn test_no_cycle() {
    let mut page_map = PageMap::new();
    page_map.insert(
        "page-1".to_string(),
        Page {
            metadata: Metadata::new(),
            hyperstring: Hyperstring(vec![HyperstringSegment::Transclusion(
                "page-2".to_string(),
            )]),
        },
    );
    page_map.insert(
        "page-2".to_string(),
        Page {
            metadata: Metadata::new(),
            hyperstring: Hyperstring(vec![HyperstringSegment::Transclusion(
                "page-3".to_string(),
            )]),
        },
    );
    page_map.insert(
        "page-3".to_string(),
        Page {
            metadata: Metadata::new(),
            hyperstring: Hyperstring(vec![]),
        },
    );
    assert_eq!(cyclic_transclusion_check(&page_map), None);
}

#[test]
fn empty_map_has_no_cycle() {
    assert_eq!(cyclic_transclusion_check(&PageMap::new()), None);
}

#[test]
fn link_cycle_is_no_transclusion_cycle() {
    let mut page_map = PageMap::new();
    page_map.insert("a".to_string(), page(vec![HyperstringSegment::Link("b".to_string())]));
    page_map.insert("b".to_string(), page(vec![HyperstringSegment::Link("a".to_string())]));
    assert_eq!(cyclic_transclusion_check(&page_map), None);
}

#[test]
fn diamond_of_transclusions_has_no_cycle() {
    let mut page_map = PageMap::new();
    page_map.insert(
        "top".to_string(),
        page(vec![
            HyperstringSegment::Transclusion("left".to_string()),
            HyperstringSegment::Transclusion("right".to_string()),
        ]),
    );
    page_map.insert(
        "left".to_string(),
        page(vec![HyperstringSegment::Transclusion("bottom".to_string())]),
    );
    page_map.insert(
        "right".to_string(),
        page(vec![HyperstringSegment::Transclusion("bottom".to_string())]),
    );
    page_map.insert("bottom".to_string(), page(vec![]));
    assert_eq!(cyclic_transclusion_check(&page_map), None);
}

#[test]
fn cycle_beside_an_acyclic_part_is_found() {
    let mut page_map = PageMap::new();
    page_map.insert(
        "entry".to_string(),
        page(vec![HyperstringSegment::Transclusion("x".to_string())]),
    );
    page_map.insert("x".to_string(), page(vec![HyperstringSegment::Transclusion("y".to_string())]));
    page_map.insert("y".to_string(), page(vec![HyperstringSegment::Transclusion("x".to_string())]));
    page_map.insert("free".to_string(), page(vec![HyperstringSegment::Text("t".to_string())]));
    let result = cyclic_transclusion_check(&page_map);
    assert!(matches!(result, Some(name) if name == "x" || name == "y"));
}

#[test]
fn transclusion_of_a_missing_note_is_on_no_cycle() {
    let mut page_map = PageMap::new();
    page_map.insert(
        "only".to_string(),
        page(vec![HyperstringSegment::Transclusion("gone".to_string())]),
    );
    assert_eq!(cyclic_transclusion_check(&page_map), None);
}

#[test]
fn page_map_insert_replaces_and_finds() {
    let mut page_map = PageMap::new();
    assert_eq!(page_map.len(), 0);
    assert!(page_map.get("a").is_none());
    assert!(page_map
        .insert("a".to_string(), page(vec![HyperstringSegment::Text("one".to_string())]))
        .is_none());
    assert!(page_map.insert("b".to_string(), page(vec![])).is_none());
    let old = page_map.insert("a".to_string(), page(vec![HyperstringSegment::Text("two".to_string())]));
    assert_eq!(old, Some(page(vec![HyperstringSegment::Text("one".to_string())])));
    assert_eq!(page_map.len(), 2);
    assert!(page_map.contains_key("a"));
    assert!(!page_map.contains_key("c"));
    assert_eq!(page_map.position("a"), Some(0));
    assert_eq!(page_map.position("b"), Some(1));
    assert_eq!(page_map.name_at(1), "b");
    assert_eq!(
        page_map.get("a").unwrap().hyperstring,
        Hyperstring(vec![HyperstringSegment::Text("two".to_string())])
    );
    assert_eq!(page_map.page_at(0).hyperstring, page_map.get("a").unwrap().hyperstring);
}
