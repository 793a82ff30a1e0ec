use igneous_linearizer::{parse_hyperstring, strip_dataview_block, Hyperstring, HyperstringSegment};

const OPEN: &str = "\u{005B}\u{005B}"; // Two `[`s

#[test]
fn test_parse_hyperstring() {
    let input = format!("foo {OPEN}bar]] baz");
    let hyperstring = parse_hyperstring(&input);
    let expected = Hyperstring(vec![
        HyperstringSegment::Text("foo ".to_string()),
        HyperstringSegment::Link("bar".to_string()),
        HyperstringSegment::Text(" baz".to_string()),
    ]);
    assert_eq!(hyperstring, expected);
}

#[test]
fn test_parse_transclusion_hyperstring() {
    let input = format!("foo !{OPEN}bar]] baz");
    let hyperstring = parse_hyperstring(&input);
    let expected = Hyperstring(vec![
        HyperstringSegment::Text("foo ".to_string()),
        HyperstringSegment::Transclusion("bar".to_string()),
        HyperstringSegment::Text(" baz".to_string()),
    ]);
    assert_eq!(hyperstring, expected);
}

#[test]
fn test_parse_hyperstring_trailing() {
    let input = format!("foo {OPEN}bar]] baz]]");
    let hyperstring = parse_hyperstring(&input);
    let expected = Hyperstring(vec![
        HyperstringSegment::Text("foo ".to_string()),
        HyperstringSegment::Link("bar".to_string()),
        HyperstringSegment::Text(" baz]]".to_string()),
    ]);
    assert_eq!(hyperstring, expected);
}

#[test]
fn test_parse_hyperstring_interior() {
    let input = format!("foo {OPEN}ba]r]] baz");
    let hyperstring = parse_hyperstring(&input);
    let expected = Hyperstring(vec![
        HyperstringSegment::Text("foo ".to_string()),
        HyperstringSegment::Link("ba]r".to_string()),
        HyperstringSegment::Text(" baz".to_string()),
    ]);
    assert_eq!(hyperstring, expected);
}

#[test]
fn test_dataview() {
    let input = r#"

foo::bar

lorem ipsum
"#;
    let expected = "lorem ipsum\n";
    assert_eq!(strip_dataview_block(input), expected);

    let input_with_no_match = "\n\nfoo\nbar\n";
    assert_eq!(
        strip_dataview_block(input_with_no_match),
        input_with_no_match
    );
}

#[test]
fn dataview_block_with_several_lines() {
    let input = "a::1\nb:: two words\nc::\n\n\nbody\nx::y\n";
    assert_eq!(strip_dataview_block(input), "body\nx::y\n");
}

#[test]
fn dataview_block_only_at_the_start() {
    let input = "body first\nkey::value\n";
    assert_eq!(strip_dataview_block(input), input);
    assert_eq!(strip_dataview_block(""), "");
    // A key holds no whitespace and no colon.
    let input = "two words::value\nrest";
    assert_eq!(strip_dataview_block(input), input);
    // The last line of a block ends in a line break.
    let input = "key::value";
    assert_eq!(strip_dataview_block(input), input);
}

#[test]
fn dataview_result_is_the_end_of_the_input() {
    let inputs = ["\n\nfoo::bar\n\nlorem ipsum\n", "k::v\n", "é::ü\nж\n", "plain"];
    for input in inputs {
        assert!(input.ends_with(&strip_dataview_block(input)));
    }
    assert_eq!(strip_dataview_block("k::v\n"), "");
    assert_eq!(strip_dataview_block("é::ü\nж\n"), "ж\n");
}
