use igneous_linearizer::{
    header_from, parse_frontmatter, parse_page, Error, Hyperstring, HyperstringSegment, Metadata,
    MetadataValue,
};

#[test]
fn test_frontmatter() {
    let content = r#"---
foo: bar
---
lorem ipsum

"#;
    let (frontmatter, content) = parse_frontmatter(content).unwrap();
    let expected = Metadata(vec![(
        "foo".to_string(),
        MetadataValue::String("bar".to_string()),
    )]);
    assert_eq!(frontmatter, expected);
    assert_eq!(content, "lorem ipsum\n");
}

#[test]
fn test_parse_input() {
    let input = r#"---
foo: bar
---

baz::quux

lorem ipsum

"#;
    let (frontmatter, content) = parse_page(input).unwrap();
    let expected_frontmatter = Metadata(vec![(
        "foo".to_string(),
        MetadataValue::String("bar".to_string()),
    )]);
    let expected = Hyperstring(vec![HyperstringSegment::Text("lorem ipsum\n".to_string())]);
    assert_eq!(frontmatter, expected_frontmatter);
    assert_eq!(content, expected);
}

#[test]
fn frontmatter_absent_gives_empty_header() {
    let (frontmatter, content) = parse_frontmatter("just text\nmore text").unwrap();
    assert_eq!(frontmatter, Metadata::new());
    assert_eq!(content, "just text\nmore text");
}

#[test]
fn frontmatter_list_is_malformed() {
    let input = "---\n- one\n- two\n---\nbody";
    assert_eq!(parse_frontmatter(input), Err(Error::MalformedHeader));
    assert_eq!(parse_page(input), Err(Error::MalformedHeader));
}

#[test]
fn frontmatter_scalar_is_malformed() {
    assert_eq!(parse_frontmatter("---\njust a word\n---\nbody"), Err(Error::MalformedHeader));
}

#[test]
fn frontmatter_values_of_every_kind() {
    let input = "---\ntitle: Home\ncount: 3\nratio: 1.5\ndraft: true\nnothing: ~\ntags:\n  - a\n  - b\nnested:\n  inner: 7\n---\nbody";
    let (frontmatter, content) = parse_frontmatter(input).unwrap();
    assert_eq!(content, "body");
    assert_eq!(frontmatter.get("title"), Some(&MetadataValue::String("Home".to_string())));
    assert_eq!(frontmatter.get("count"), Some(&MetadataValue::Integer(3)));
    assert_eq!(frontmatter.get("ratio"), Some(&MetadataValue::Float(1.5f64.to_bits())));
    assert_eq!(frontmatter.get("draft"), Some(&MetadataValue::Boolean(true)));
    assert_eq!(frontmatter.get("nothing"), Some(&MetadataValue::Null));
    assert_eq!(
        frontmatter.get("tags"),
        Some(&MetadataValue::Array(vec![
            MetadataValue::String("a".to_string()),
            MetadataValue::String("b".to_string()),
        ]))
    );
    assert_eq!(
        frontmatter.get("nested"),
        Some(&MetadataValue::Hash(Metadata(vec![(
            "inner".to_string(),
            MetadataValue::Integer(7),
        )])))
    );
    assert_eq!(frontmatter.get("missing"), None);
}

#[test]
fn header_from_each_kind_of_data() {
    assert_eq!(header_from(None), Ok(Metadata::new()));
    let fields = Metadata(vec![("a".to_string(), MetadataValue::Integer(1))]);
    assert_eq!(
        header_from(Some(MetadataValue::Hash(Metadata(vec![(
            "a".to_string(),
            MetadataValue::Integer(1)
        )])))),
        Ok(fields)
    );
    assert_eq!(header_from(Some(MetadataValue::Null)), Err(Error::MalformedHeader));
    assert_eq!(
        header_from(Some(MetadataValue::String("x".to_string()))),
        Err(Error::MalformedHeader)
    );
    assert_eq!(header_from(Some(MetadataValue::Array(vec![]))), Err(Error::MalformedHeader));
}

#[test]
fn metadata_last_entry_counts() {
    let mut fields = Metadata::new();
    assert_eq!(fields.get("k"), None);
    fields.insert("k".to_string(), MetadataValue::Integer(1));
    fields.insert("other".to_string(), MetadataValue::Boolean(false));
    fields.insert("k".to_string(), MetadataValue::Integer(2));
    assert_eq!(fields.get("k"), Some(&MetadataValue::Integer(2)));
    assert_eq!(fields.get("other"), Some(&MetadataValue::Boolean(false)));
}

#[test]
fn parse_page_keeps_references_of_the_body() {
    let input = "---\ntitle: T\n---\nkey::value\n\nSee [[a]] and ![[b]].\n";
    let (frontmatter, body) = parse_page(input).unwrap();
    assert_eq!(frontmatter.get("title"), Some(&MetadataValue::String("T".to_string())));
    assert_eq!(
        body,
        Hyperstring(vec![
            HyperstringSegment::Text("See ".to_string()),
            HyperstringSegment::Link("a".to_string()),
            HyperstringSegment::Text(" and ".to_string()),
            HyperstringSegment::Transclusion("b".to_string()),
            HyperstringSegment::Text(".".to_string()),
        ])
    );
}
