use links::{ini_to_links, Link, Section};

fn section(name: Option<&str>, entries: &[(&str, &str)]) -> Section {
    Section {
        name: name.map(|n| n.to_string()),
        entries: entries
            .iter()
            .map(|(k, v)| (k.to_string(), v.to_string()))
            .collect(),
    }
}

#[test]
fn test_ini_to_links_success_case() {
    let doc = vec![
        section(
            Some("product1"),
            &[
                ("au", "https://amazon.au/whatever"),
                ("br", "https://amazon.com.br/whatever"),
                ("ca", "https://amazon.ca/whatever"),
                ("cn", "https://amazon.cn/whatever"),
                ("fr", "https://amazon.fr/whatever"),
                ("de", "https://amazon.de/whatever"),
                ("in", "https://amazon.in/whatever"),
                ("it", "https://amazon.it/whatever"),
                ("jp", "https://amazon.jp/whatever"),
                ("mx", "https://amazon.mx/whatever"),
                ("es", "https://amazon.es/whatever"),
                ("uk", "https://amazon.uk/whatever"),
                ("us", "https://amazon.us/whatever"),
            ],
        ),
        section(Some("product2"), &[("au", "https://amazon.au/whatever")]),
    ];

    let links = ini_to_links(&doc).expect("This shouldn't happen.");

    assert_eq!(links[0].name, "product1");
    assert_eq!(
        links[0].australia,
        Some("https://amazon.au/whatever".to_owned())
    );
    assert_eq!(
        links[0].brazil,
        Some("https://amazon.com.br/whatever".to_owned())
    );
    assert_eq!(links[0].canada, Some("https://amazon.ca/whatever".to_owned()));
    assert_eq!(links[0].china, Some("https://amazon.cn/whatever".to_owned()));
    assert_eq!(links[0].france, Some("https://amazon.fr/whatever".to_owned()));
    assert_eq!(links[0].germany, Some("https://amazon.de/whatever".to_owned()));
    assert_eq!(links[0].india, Some("https://amazon.in/whatever".to_owned()));
    assert_eq!(links[0].italy, Some("https://amazon.it/whatever".to_owned()));
    assert_eq!(links[0].japan, Some("https://amazon.jp/whatever".to_owned()));
    assert_eq!(links[0].mexico, Some("https://amazon.mx/whatever".to_owned()));
    assert_eq!(links[0].spain, Some("https://amazon.es/whatever".to_owned()));
    assert_eq!(links[0].uk, Some("https://amazon.uk/whatever".to_owned()));
    assert_eq!(links[0].us, Some("https://amazon.us/whatever".to_owned()));

    assert_eq!(links[1].name, "product2");
    assert_eq!(
        links[1].australia,
        Some("https://amazon.au/whatever".to_owned())
    );
    assert_eq!(links[1].brazil, None);
    assert_eq!(links[1].canada, None);
    assert_eq!(links[1].china, None);
    assert_eq!(links[1].france, None);
    assert_eq!(links[1].germany, None);
    assert_eq!(links[1].india, None);
    assert_eq!(links[1].italy, None);
    assert_eq!(links[1].japan, None);
    assert_eq!(links[1].mexico, None);
    assert_eq!(links[1].spain, None);
    assert_eq!(links[1].uk, None);
    assert_eq!(links[1].us, None);
}

#[test]
fn test_ini_to_links_section_with_no_links() {
    // A named section that never receives an entry is not part of the
    // document the parser hands over, so the document is empty.
    let doc: Vec<Section> = Vec::new();

    let links = ini_to_links(&doc);

    assert_eq!(links.is_err(), true);
    assert_eq!(
        links.err().map(|e| e.message()),
        Some("No link found.".to_owned())
    );
}

#[test]
fn test_ini_to_links3() {
    let doc = vec![section(Some("product2"), &[("test", "https://test")])];

    let links = ini_to_links(&doc);

    assert_eq!(links.is_err(), false);
}

#[test]
fn test_ini_to_links_section_with_no_name() {
    let doc = vec![section(None, &[("test", "https://test")])];

    let links = ini_to_links(&doc);

    assert_eq!(links.is_err(), true);
}

#[test]
fn test_empty_document_yields_no_links_found() {
    let doc: Vec<Section> = Vec::new();
    let err = ini_to_links(&doc).err().expect("an empty document must fail");
    assert!(matches!(err, links::LinkError::NoLinksFound));
    assert_eq!(err.message(), "No link found.");
}

#[test]
fn test_unnamed_section_wins_over_valid_ones() {
    let doc = vec![
        section(Some("good"), &[("au", "https://amazon.au/x")]),
        section(None, &[("us", "https://amazon.us/x")]),
    ];
    let err = ini_to_links(&doc).err().expect("an unnamed section must fail");
    assert!(matches!(err, links::LinkError::MissingSectionName));
    assert_eq!(err.message(), "A section has no name.");
}

#[test]
fn test_named_empty_section_yields_empty_section() {
    let doc = vec![section(Some("product1"), &[])];
    let err = ini_to_links(&doc).err().expect("an empty section must fail");
    assert!(matches!(err, links::LinkError::EmptySection(_)));
    assert_eq!(err.message(), "Section product1 has no links.");
}

#[test]
fn test_ini_to_links4_invalid_url() {
    let invalid_link = "lkjsadklasj";
    let doc = vec![section(Some("product1"), &[("fr", invalid_link)])];

    let links = ini_to_links(&doc);

    assert_eq!(links.is_err(), true);
    assert_eq!(
        links.err().map(|e| e.message()),
        Some(format!("Invalid link: \"{}\".", invalid_link.to_owned()))
    );
}

#[test]
fn test_first_invalid_value_is_reported() {
    let doc = vec![section(
        Some("product1"),
        &[
            ("au", "https://amazon.au/ok"),
            ("br", "not a url"),
            ("ca", "also not a url"),
        ],
    )];
    let err = ini_to_links(&doc).err().expect("an invalid value must fail");
    match err {
        links::LinkError::InvalidLink(v) => assert_eq!(v, "not a url"),
        _ => panic!("expected an invalid-link error"),
    }
}

#[test]
fn test_field_mapping_au_us_only() {
    let doc = vec![section(
        Some("p"),
        &[("au", "https://amazon.au/v1"), ("us", "https://amazon.us/v2")],
    )];
    let ls = ini_to_links(&doc).expect("two valid values must succeed");
    assert_eq!(ls.len(), 1);
    assert_eq!(ls[0].australia, Some("https://amazon.au/v1".to_owned()));
    assert_eq!(ls[0].us, Some("https://amazon.us/v2".to_owned()));
    assert_eq!(ls[0].brazil, None);
    assert_eq!(ls[0].canada, None);
    assert_eq!(ls[0].china, None);
    assert_eq!(ls[0].france, None);
    assert_eq!(ls[0].germany, None);
    assert_eq!(ls[0].india, None);
    assert_eq!(ls[0].italy, None);
    assert_eq!(ls[0].japan, None);
    assert_eq!(ls[0].mexico, None);
    assert_eq!(ls[0].spain, None);
    assert_eq!(ls[0].uk, None);
}

#[test]
fn test_unrecognized_keys_are_ignored() {
    let doc = vec![section(Some("p"), &[("zz", "https://amazon.zz/x")])];
    let ls = ini_to_links(&doc).expect("unknown keys alone must still succeed");
    assert_eq!(ls.len(), 1);
    assert_eq!(ls[0].name, "p");
    assert_eq!(ls[0].australia, None);
    assert_eq!(ls[0].us, None);
}

#[test]
fn test_records_come_out_sorted_by_name() {
    let doc = vec![
        section(Some("b"), &[("au", "https://amazon.au/b")]),
        section(Some("a"), &[("au", "https://amazon.au/a")]),
        section(Some("c"), &[("au", "https://amazon.au/c")]),
    ];
    let ls = ini_to_links(&doc).expect("valid sections must succeed");
    assert_eq!(ls.len(), 3);
    assert_eq!(ls[0].name, "a");
    assert_eq!(ls[1].name, "b");
    assert_eq!(ls[2].name, "c");
}

#[test]
fn test_equal_names_keep_their_order() {
    let doc = vec![
        section(Some("z"), &[("au", "https://amazon.au/first")]),
        section(Some("a"), &[("us", "https://amazon.us/only")]),
        section(Some("z"), &[("br", "https://amazon.com.br/second")]),
    ];
    let ls = ini_to_links(&doc).expect("valid sections must succeed");
    assert_eq!(ls.len(), 3);
    assert_eq!(ls[0].name, "a");
    assert_eq!(ls[1].name, "z");
    assert_eq!(ls[1].australia, Some("https://amazon.au/first".to_owned()));
    assert_eq!(ls[1].brazil, None);
    assert_eq!(ls[2].name, "z");
    assert_eq!(ls[2].australia, None);
    assert_eq!(ls[2].brazil, Some("https://amazon.com.br/second".to_owned()));
}

fn bare_link(name: &str, australia: Option<&str>) -> Link {
    Link {
        name: name.to_string(),
        australia: australia.map(|s| s.to_string()),
        brazil: None,
        canada: None,
        china: None,
        france: None,
        germany: None,
        india: None,
        italy: None,
        japan: None,
        mexico: None,
        spain: None,
        uk: None,
        us: None,
    }
}

#[test]
fn test_links_compare_by_name_only() {
    let a = bare_link("same", Some("https://amazon.au/one"));
    let b = bare_link("same", None);
    assert!(a == b);
    assert_eq!(a.partial_cmp(&b), Some(std::cmp::Ordering::Equal));
    let c = bare_link("other", None);
    assert!(a != c);
}
