use igneous_linearizer::{parse_hyperstring, Capture, Hyperstring, HyperstringSegment};

fn sample() -> Hyperstring {
    Hyperstring(vec![
        HyperstringSegment::Text("a ".to_string()),
        HyperstringSegment::Link("one".to_string()),
        HyperstringSegment::Transclusion("two".to_string()),
        HyperstringSegment::Text(" b ".to_string()),
        HyperstringSegment::Link("one".to_string()),
        HyperstringSegment::Transclusion("three".to_string()),
    ])
}

#[test]
fn references_links_and_transclusions_in_order() {
    let body = sample();
    assert_eq!(body.references(), vec!["one", "two", "one", "three"]);
    assert_eq!(body.links(), vec!["one", "one"]);
    assert_eq!(body.transclusions(), vec!["two", "three"]);
    let empty = Hyperstring(vec![]);
    assert!(empty.references().is_empty());
    assert!(empty.links().is_empty());
    assert!(empty.transclusions().is_empty());
}

#[test]
fn literal_form_of_each_segment() {
    assert_eq!(HyperstringSegment::Text("plain".to_string()).to_string(), "plain");
    assert_eq!(HyperstringSegment::Link("x".to_string()).to_string(), "[[x]]");
    assert_eq!(HyperstringSegment::Transclusion("x".to_string()).to_string(), "![[x]]");
    assert_eq!(sample().to_string(), "a [[one]]![[two]] b [[one]]![[three]]");
    assert_eq!(Hyperstring(vec![]).to_string(), "");
}

#[test]
fn clone_keeps_the_segments() {
    let body = sample();
    assert_eq!(body.clone(), body);
    let segment = HyperstringSegment::Link("x".to_string());
    assert_eq!(segment.clone(), segment);
}

#[test]
fn parse_round_trip() {
    let inputs = [
        "",
        "plain text only",
        "foo [[bar]] baz",
        "foo ![[bar]] baz",
        "foo [[bar]] baz]]",
        "foo [[ba]r]] baz",
        "[[a]][[b]]![[c]]",
        "[[]] [[ ]] ![[",
        "broken [[link\nover lines]] here",
        "unicode é [[näme]] ✓ ![[日本語]] tail",
        "!![[x]]] [[[y]]]",
        "]] [[ ]][[",
    ];
    for input in inputs {
        assert_eq!(parse_hyperstring(input).to_string(), input);
    }
}

#[test]
fn parse_edge_cases() {
    assert_eq!(parse_hyperstring(""), Hyperstring(vec![]));
    assert_eq!(
        parse_hyperstring("no references"),
        Hyperstring(vec![HyperstringSegment::Text("no references".to_string())])
    );
    assert_eq!(
        parse_hyperstring("[[a]]"),
        Hyperstring(vec![HyperstringSegment::Link("a".to_string())])
    );
    assert_eq!(
        parse_hyperstring("[[a]]![[b]]"),
        Hyperstring(vec![
            HyperstringSegment::Link("a".to_string()),
            HyperstringSegment::Transclusion("b".to_string()),
        ])
    );
    // A name holds one character at least, and no line break.
    assert_eq!(
        parse_hyperstring("[[]]"),
        Hyperstring(vec![HyperstringSegment::Text("[[]]".to_string())])
    );
    assert_eq!(
        parse_hyperstring("[[a\nb]]"),
        Hyperstring(vec![HyperstringSegment::Text("[[a\nb]]".to_string())])
    );
    assert_eq!(
        parse_hyperstring("é![[ü]]"),
        Hyperstring(vec![
            HyperstringSegment::Text("é".to_string()),
            HyperstringSegment::Transclusion("ü".to_string()),
        ])
    );
}

#[test]
fn from_captures_takes_fitting_captures() {
    let text = "foo [[bar]] baz";
    let captures = vec![Capture { start: 4, end: 11, group: Some((6, 9)) }];
    assert_eq!(
        Hyperstring::from_captures(text, &captures),
        Hyperstring(vec![
            HyperstringSegment::Text("foo ".to_string()),
            HyperstringSegment::Link("bar".to_string()),
            HyperstringSegment::Text(" baz".to_string()),
        ])
    );
    let text = "![[x]]";
    let captures = vec![Capture { start: 0, end: 6, group: Some((3, 4)) }];
    assert_eq!(
        Hyperstring::from_captures(text, &captures),
        Hyperstring(vec![HyperstringSegment::Transclusion("x".to_string())])
    );
    assert_eq!(
        Hyperstring::from_captures("abc", &vec![]),
        Hyperstring(vec![HyperstringSegment::Text("abc".to_string())])
    );
}

#[test]
fn from_captures_passes_over_what_does_not_fit() {
    let text = "foo [[bar]] baz";
    let whole = Hyperstring(vec![HyperstringSegment::Text(text.to_string())]);
    // no group
    let captures = vec![Capture { start: 4, end: 11, group: None }];
    assert_eq!(Hyperstring::from_captures(text, &captures), whole);
    // not at brackets
    let captures = vec![Capture { start: 0, end: 7, group: Some((2, 5)) }];
    assert_eq!(Hyperstring::from_captures(text, &captures), whole);
    // beyond the end of the text
    let captures = vec![Capture { start: 4, end: 40, group: Some((6, 38)) }];
    assert_eq!(Hyperstring::from_captures(text, &captures), whole);
    // offsets out of order
    let captures = vec![Capture { start: 4, end: 11, group: Some((9, 6)) }];
    assert_eq!(Hyperstring::from_captures(text, &captures), whole);
    // a capture behind one that was taken
    let captures = vec![
        Capture { start: 4, end: 11, group: Some((6, 9)) },
        Capture { start: 4, end: 11, group: Some((6, 9)) },
    ];
    assert_eq!(
        Hyperstring::from_captures(text, &captures),
        Hyperstring(vec![
            HyperstringSegment::Text("foo ".to_string()),
            HyperstringSegment::Link("bar".to_string()),
            HyperstringSegment::Text(" baz".to_string()),
        ])
    );
    // inside a character of more than one byte
    let text = "é[[a]]";
    let captures = vec![Capture { start: 1, end: 7, group: Some((3, 5)) }];
    assert_eq!(
        Hyperstring::from_captures(text, &captures),
        Hyperstring(vec![HyperstringSegment::Text(text.to_string())])
    );
}
