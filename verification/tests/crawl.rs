use igneous_linearizer::{Crawl, CrawlStep, Error, Vault};

fn read(store: &[(&str, &str)], name: &str) -> Option<String> {
    store.iter().find(|(key, _)| *key == name).map(|(_, text)| text.to_string())
}

fn crawl(store: &[(&str, &str)], root: &str) -> Result<(Vault, Vec<String>), Error> {
    let mut asked = Vec::new();
    let mut state = Crawl::new(root);
    loop {
        match state.next() {
            CrawlStep::Read(waiting, name) => {
                let text = read(store, &name);
                asked.push(name);
                state = waiting.supply(text.as_deref())?;
            }
            CrawlStep::Done(vault) => return Ok((vault, asked)),
        }
    }
}

const STORE: [(&str, &str); 3] = [
    ("root", "See [[other]] and ![[snippet]]"),
    ("other", "---\ntitle: Other Page\n---\nAnother page."),
    ("snippet", "Inline content."),
];

#[test]
fn end_to_end_default_mode() {
    let (vault, _) = crawl(&STORE, "root").unwrap();
    assert_eq!(
        vault.flatten(false),
        Ok("Another page.\n\nSee Other Page and Inline content.".to_string())
    );
}

#[test]
fn end_to_end_single_mode() {
    let (vault, _) = crawl(&STORE, "root").unwrap();
    assert_eq!(vault.flatten(true), Ok("See Other Page and Inline content.".to_string()));
}

#[test]
fn root_that_transcludes_itself_is_refused() {
    let store = [("root", "before ![[root]] after")];
    let (vault, _) = crawl(&store, "root").unwrap();
    assert_eq!(vault.flatten(false), Err(Error::TransclusionCycle("root".to_string())));
    assert_eq!(vault.flatten(true), Err(Error::TransclusionCycle("root".to_string())));
}

#[test]
fn crawl_reads_each_note_once_and_closes_the_map() {
    let store = [
        ("root", "[[a]] ![[b]] [[a]] [[root]]"),
        ("a", "![[b]] [[c]]"),
        ("b", "[[root]]"),
        ("c", "leaf"),
        ("unused", "[[root]]"),
    ];
    let (vault, asked) = crawl(&store, "root").unwrap();
    let mut sorted = asked.clone();
    sorted.sort();
    assert_eq!(sorted, vec!["a", "b", "c", "root"]);
    assert_eq!(asked[0], "root");
    let page_map = vault.page_map();
    assert_eq!(vault.root_base_name(), "root");
    assert_eq!(page_map.len(), 4);
    for i in 0..page_map.len() {
        for target in page_map.page_at(i).hyperstring.references() {
            assert!(page_map.contains_key(&target));
        }
    }
    assert!(!page_map.contains_key("unused"));
}

#[test]
fn crawl_takes_the_last_reference_first() {
    let store = [("root", "[[a]] [[b]]"), ("a", ""), ("b", "")];
    let (_, asked) = crawl(&store, "root").unwrap();
    assert_eq!(asked, vec!["root", "b", "a"]);
}

#[test]
fn crawl_fails_on_a_missing_note() {
    let store = [("root", "[[gone]]")];
    assert_eq!(
        crawl(&store, "root").err(),
        Some(Error::UnresolvableReference("gone".to_string()))
    );
    assert_eq!(
        crawl(&store, "nowhere").err(),
        Some(Error::UnresolvableReference("nowhere".to_string()))
    );
}

#[test]
fn crawl_fails_on_a_malformed_header() {
    let store = [("root", "[[list]]"), ("list", "---\n- a\n- b\n---\ntext")];
    assert_eq!(crawl(&store, "root").err(), Some(Error::MalformedHeader));
}

#[test]
fn supply_without_a_wanted_note_changes_nothing() {
    let store = [("root", "text")];
    let (vault, _) = crawl(&store, "root").unwrap();
    assert_eq!(vault.page_map().len(), 1);
    let state = Crawl::new("root").supply(Some("text")).unwrap();
    let state = state.supply(Some("[[more]]")).unwrap();
    match state.next() {
        CrawlStep::Done(vault) => {
            assert_eq!(vault.page_map().len(), 1);
            assert_eq!(vault.flatten(true), Ok("text".to_string()));
        }
        CrawlStep::Read(_, name) => panic!("asked for {name}"),
    }
}

#[test]
fn malformed_title_fails_the_run() {
    let store = [("root", "[[bad]]"), ("bad", "---\ntitle: 3\n---\nbody")];
    let (vault, _) = crawl(&store, "root").unwrap();
    assert_eq!(vault.flatten(false), Err(Error::MalformedTitle("bad".to_string())));
}
