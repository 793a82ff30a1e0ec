use igneous_linearizer::{
    cyclic_transclusion_check, hyperstrings_to_string, linearize, link_title_or_name, transform,
    Error, Hyperstring, HyperstringSegment, Metadata, MetadataValue, Page, PageMap, Vault,
};

fn text(s: &str) -> HyperstringSegment {
    HyperstringSegment::Text(s.to_string())
}

fn link(s: &str) -> HyperstringSegment {
    HyperstringSegment::Link(s.to_string())
}

fn transclusion(s: &str) -> HyperstringSegment {
    HyperstringSegment::Transclusion(s.to_string())
}

fn page(segments: Vec<HyperstringSegment>) -> Page {
    Page { metadata: Metadata::new(), hyperstring: Hyperstring(segments) }
}

fn titled(title: MetadataValue, segments: Vec<HyperstringSegment>) -> Page {
    let mut metadata = Metadata::new();
    metadata.insert("title".to_string(), title);
    Page { metadata, hyperstring: Hyperstring(segments) }
}

fn store() -> PageMap {
    let mut page_map = PageMap::new();
    page_map.insert(
        "root".to_string(),
        page(vec![text("See "), link("other"), text(" and "), transclusion("snippet")]),
    );
    page_map.insert(
        "other".to_string(),
        titled(MetadataValue::String("Other Page".to_string()), vec![text("Another page.")]),
    );
    page_map.insert("snippet".to_string(), page(vec![text("Inline content.")]));
    page_map
}

#[test]
fn link_title_or_name_each_case() {
    let mut page_map = store();
    page_map.insert("bad".to_string(), titled(MetadataValue::Integer(3), vec![]));
    page_map.insert("nothing".to_string(), titled(MetadataValue::Null, vec![]));
    assert_eq!(link_title_or_name(&page_map, "other"), Ok("Other Page".to_string()));
    assert_eq!(link_title_or_name(&page_map, "snippet"), Ok("snippet".to_string()));
    assert_eq!(link_title_or_name(&page_map, "absent"), Ok("absent".to_string()));
    assert_eq!(
        link_title_or_name(&page_map, "bad"),
        Err(Error::MalformedTitle("bad".to_string()))
    );
    assert_eq!(
        link_title_or_name(&page_map, "nothing"),
        Err(Error::MalformedTitle("nothing".to_string()))
    );
}

#[test]
fn single_page_plaintext() {
    let page_map = store();
    assert_eq!(cyclic_transclusion_check(&page_map), None);
    let root = page_map.get("root").unwrap();
    assert_eq!(
        root.hyperstring.to_plaintext(&page_map),
        Ok("See Other Page and Inline content.".to_string())
    );
}

#[test]
fn whole_output_puts_the_root_last() {
    let page_map = store();
    let hyperstrings = transform(&page_map, "root").unwrap();
    assert_eq!(
        hyperstrings_to_string(page_map, hyperstrings),
        Ok("Another page.\n\nSee Other Page and Inline content.".to_string())
    );
}

#[test]
fn nested_transclusions_are_inlined_each_time() {
    let mut page_map = PageMap::new();
    page_map.insert(
        "top".to_string(),
        page(vec![transclusion("mid"), text("|"), transclusion("leaf"), text("|"), transclusion("mid")]),
    );
    page_map.insert("mid".to_string(), page(vec![text("<"), transclusion("leaf"), text(">")]));
    page_map.insert("leaf".to_string(), page(vec![text("x")]));
    assert_eq!(cyclic_transclusion_check(&page_map), None);
    let top = page_map.get("top").unwrap();
    assert_eq!(top.hyperstring.to_plaintext(&page_map), Ok("<x>|x|<x>".to_string()));
}

#[test]
fn chain_as_long_as_the_map_is_followed_to_its_end() {
    let mut page_map = PageMap::new();
    page_map.insert("a".to_string(), page(vec![text("a"), transclusion("b")]));
    page_map.insert("b".to_string(), page(vec![text("b"), transclusion("c")]));
    page_map.insert("c".to_string(), page(vec![text("c"), transclusion("d")]));
    page_map.insert("d".to_string(), page(vec![text("d")]));
    assert_eq!(cyclic_transclusion_check(&page_map), None);
    let outside = Hyperstring(vec![text("("), transclusion("a"), text(")")]);
    assert_eq!(outside.to_plaintext(&page_map), Ok("(abcd)".to_string()));
}

#[test]
fn malformed_title_fails_the_rendering() {
    let mut page_map = store();
    page_map.insert("bad".to_string(), titled(MetadataValue::Boolean(true), vec![text("b")]));
    page_map.insert("uses".to_string(), page(vec![text("to "), link("bad"), link("other")]));
    page_map.insert("wraps".to_string(), page(vec![text("w "), transclusion("uses")]));
    assert_eq!(cyclic_transclusion_check(&page_map), None);
    let uses = page_map.get("uses").unwrap();
    assert_eq!(
        uses.hyperstring.to_plaintext(&page_map),
        Err(Error::MalformedTitle("bad".to_string()))
    );
    let wraps = page_map.get("wraps").unwrap();
    assert_eq!(
        wraps.hyperstring.to_plaintext(&page_map),
        Err(Error::MalformedTitle("bad".to_string()))
    );
    let hyperstrings = vec![
        Hyperstring(vec![text("fine")]),
        Hyperstring(vec![link("bad")]),
    ];
    assert_eq!(
        hyperstrings_to_string(page_map, hyperstrings),
        Err(Error::MalformedTitle("bad".to_string()))
    );
}

#[test]
fn joining_keeps_the_order_and_separates() {
    let page_map = PageMap::new();
    assert_eq!(hyperstrings_to_string(PageMap::new(), vec![]), Ok("".to_string()));
    assert_eq!(
        hyperstrings_to_string(PageMap::new(), vec![Hyperstring(vec![text("one")])]),
        Ok("one".to_string())
    );
    let hyperstrings = vec![
        Hyperstring(vec![text("one")]),
        Hyperstring(vec![]),
        Hyperstring(vec![text("three")]),
    ];
    assert_eq!(hyperstrings_to_string(page_map, hyperstrings), Ok("one\n\n\n\nthree".to_string()));
}

#[test]
fn linearize_puts_the_root_last() {
    let mut page_map = PageMap::new();
    page_map.insert("root".to_string(), page(vec![link("a"), text(" "), link("b")]));
    page_map.insert("a".to_string(), page(vec![text("A")]));
    page_map.insert("b".to_string(), page(vec![text("B")]));
    let bodies = linearize(&page_map, "root");
    assert_eq!(
        bodies,
        vec![
            Hyperstring(vec![text("A")]),
            Hyperstring(vec![text("B")]),
            Hyperstring(vec![link("a"), text(" "), link("b")]),
        ]
    );
    assert_eq!(transform(&page_map, "root"), Ok(bodies));
}

#[test]
fn linearize_reverses_a_walk_that_takes_the_last_link_first() {
    let mut page_map = PageMap::new();
    page_map.insert("root".to_string(), page(vec![link("a"), link("b"), link("c"), text("R")]));
    page_map.insert("a".to_string(), page(vec![text("A"), link("a1")]));
    page_map.insert("b".to_string(), page(vec![text("B")]));
    page_map.insert("c".to_string(), page(vec![text("C"), link("c1"), link("a")]));
    page_map.insert("a1".to_string(), page(vec![text("A1")]));
    page_map.insert("c1".to_string(), page(vec![text("C1")]));
    let bodies = linearize(&page_map, "root");
    let order: Vec<String> = bodies.iter().map(|body| body.to_string()).collect();
    assert_eq!(order, vec!["A1", "A[[a1]]", "B", "C1", "C[[c1]][[a]]", "[[a]][[b]][[c]]R"]);
}

#[test]
fn linearize_breaks_link_cycles() {
    let mut page_map = PageMap::new();
    page_map.insert("root".to_string(), page(vec![text("R"), link("a"), link("root")]));
    page_map.insert("a".to_string(), page(vec![text("A"), link("root"), link("a"), link("b")]));
    page_map.insert("b".to_string(), page(vec![text("B"), link("a")]));
    let bodies = linearize(&page_map, "root");
    let order: Vec<String> = bodies.iter().map(|body| body.to_string()).collect();
    assert_eq!(order, vec!["B[[a]]", "A[[root]][[a]][[b]]", "R[[a]][[root]]"]);
}

#[test]
fn linearize_leaves_out_what_only_transclusions_reach() {
    let page_map = store();
    let bodies = linearize(&page_map, "root");
    assert_eq!(bodies.len(), 2);
    assert_eq!(bodies[0], page_map.get("other").unwrap().hyperstring);
    assert_eq!(bodies[1], page_map.get("root").unwrap().hyperstring);
    let alone = linearize(&page_map, "snippet");
    assert_eq!(alone, vec![Hyperstring(vec![text("Inline content.")])]);
}

#[test]
fn transform_fails_on_a_transclusion_cycle() {
    let mut page_map = store();
    page_map.insert("snippet".to_string(), page(vec![transclusion("snippet")]));
    assert_eq!(
        transform(&page_map, "root"),
        Err(Error::TransclusionCycle("snippet".to_string()))
    );
}

#[test]
fn error_messages() {
    assert_eq!(
        Error::UnresolvableReference("n".to_string()).to_string(),
        "Attempted to read the note n"
    );
    assert_eq!(Error::MalformedHeader.to_string(), "Expected the header to be a mapping");
    assert_eq!(
        Error::MalformedTitle("n".to_string()).to_string(),
        "Expected the title value of n to be a string"
    );
    assert_eq!(
        Error::TransclusionCycle("n".to_string()).to_string(),
        "Cyclic transclusion detected: n"
    );
}

#[test]
fn vault_takes_only_closed_maps_with_their_root() {
    assert!(Vault::new(store(), "root").is_some());
    assert!(Vault::new(store(), "snippet").is_some());
    assert!(Vault::new(store(), "absent").is_none());
    let mut open = store();
    open.insert("more".to_string(), page(vec![link("nowhere")]));
    assert!(!open.is_closed());
    assert!(Vault::new(open, "root").is_none());
    assert!(store().is_closed());
    assert!(PageMap::new().is_closed());
    let vault = Vault::new(store(), "root").unwrap();
    assert_eq!(
        vault.flatten(false),
        Ok("Another page.\n\nSee Other Page and Inline content.".to_string())
    );
    assert_eq!(vault.flatten(true), Ok("See Other Page and Inline content.".to_string()));
}
