use rss_extension::{
    extension_name, get_extension_values, has_unique_keys, index_extension,
    index_is_well_formed, is_well_formed, parse_extension,
    parse_extension_element, remove_extension_value, Extension, ExtensionMap, ParseError,
    XmlEvent,
};

fn s(x: &str) -> String {
    x.to_string()
}

fn start(name: &str, attrs: &[(&str, &str)]) -> XmlEvent {
    XmlEvent::Start {
        local_name: s(name),
        attrs: attrs.iter().map(|(k, v)| (s(k), s(v))).collect(),
    }
}

fn leaf(name: &str, value: Option<&str>) -> Extension {
    Extension {
        name: s(name),
        value: value.map(s),
        attrs: Vec::new(),
        children: Vec::new(),
    }
}

fn lookup<'a, V>(entries: &'a [(String, V)], key: &str) -> Option<&'a V> {
    entries.iter().find(|(k, _)| k == key).map(|(_, v)| v)
}

#[test]
fn name_without_colon_has_no_prefix() {
    assert_eq!(extension_name(b"title"), None);
    assert_eq!(extension_name(b""), None);
}

#[test]
fn name_with_empty_prefix_has_no_prefix() {
    assert_eq!(extension_name(b":title"), None);
    assert_eq!(extension_name(b":"), None);
}

#[test]
fn name_with_prefix_splits_at_first_colon() {
    assert_eq!(
        extension_name(b"itunes:author"),
        Some((&b"itunes"[..], &b"author"[..]))
    );
    assert_eq!(extension_name(b"a:b:c"), Some((&b"a"[..], &b"b:c"[..])));
    assert_eq!(extension_name(b"dc:"), Some((&b"dc"[..], &b""[..])));
}

#[test]
fn subtree_with_attributes_and_repeated_children() {
    let attrs = vec![(s("x"), s("1"))];
    let events = vec![
        start("b", &[]),
        XmlEvent::Text(s("hi")),
        XmlEvent::End(s("b")),
        start("b", &[]),
        XmlEvent::Text(s("bye")),
        XmlEvent::End(s("b")),
        XmlEvent::End(s("a")),
        XmlEvent::Eof,
    ];
    let (ext, next) = parse_extension_element(&events, 0, &attrs).unwrap();
    assert_eq!(next, 7);
    assert_eq!(ext.name, "a");
    assert_eq!(ext.value, None);
    assert_eq!(ext.attrs, vec![(s("x"), s("1"))]);
    assert_eq!(ext.children.len(), 1);
    let bs = lookup(&ext.children, "b").unwrap();
    assert_eq!(bs.len(), 2);
    assert_eq!(bs[0].value.as_deref(), Some("hi"));
    assert_eq!(bs[1].value.as_deref(), Some("bye"));
    assert_eq!(bs[0].name, "b");
}

#[test]
fn last_text_segment_wins() {
    let events = vec![
        XmlEvent::Text(s("foo")),
        XmlEvent::Text(s("bar")),
        XmlEvent::End(s("t")),
    ];
    let (ext, next) = parse_extension_element(&events, 0, &Vec::new()).unwrap();
    assert_eq!(ext.value.as_deref(), Some("bar"));
    assert_eq!(next, 3);
}

#[test]
fn premature_end_of_input_is_truncation() {
    let events = vec![start("b", &[]), XmlEvent::Text(s("hi")), XmlEvent::Eof];
    assert_eq!(
        parse_extension_element(&events, 0, &Vec::new()).err(),
        Some(ParseError::Eof)
    );
    let exhausted = vec![XmlEvent::Text(s("hi")), XmlEvent::Other];
    assert_eq!(
        parse_extension_element(&exhausted, 0, &Vec::new()).err(),
        Some(ParseError::Eof)
    );
}

#[test]
fn undecodable_token_fails_the_element() {
    let events = vec![XmlEvent::Malformed, XmlEvent::End(s("a"))];
    assert_eq!(
        parse_extension_element(&events, 0, &Vec::new()).err(),
        Some(ParseError::Malformed)
    );
}

#[test]
fn other_tokens_are_skipped_and_duplicate_attributes_keep_last() {
    let attrs = vec![(s("k"), s("1")), (s("j"), s("2")), (s("k"), s("3"))];
    let events = vec![XmlEvent::Other, XmlEvent::End(s("e"))];
    let (ext, next) = parse_extension_element(&events, 0, &attrs).unwrap();
    assert_eq!(next, 2);
    assert_eq!(ext.attrs.len(), 2);
    assert_eq!(lookup(&ext.attrs, "k").map(|v| v.as_str()), Some("3"));
    assert_eq!(lookup(&ext.attrs, "j").map(|v| v.as_str()), Some("2"));
}

#[test]
fn nested_children_are_captured() {
    let events = vec![
        start("outer", &[("id", "7")]),
        start("inner", &[]),
        XmlEvent::Text(s("deep")),
        XmlEvent::End(s("p:inner")),
        XmlEvent::End(s("p:outer")),
        XmlEvent::End(s("p:root")),
    ];
    let (ext, next) = parse_extension_element(&events, 0, &Vec::new()).unwrap();
    assert_eq!(next, 6);
    assert_eq!(ext.name, "p:root");
    let outer = &lookup(&ext.children, "outer").unwrap()[0];
    assert_eq!(outer.name, "p:outer");
    assert_eq!(lookup(&outer.attrs, "id").map(|v| v.as_str()), Some("7"));
    let inner = &lookup(&outer.children, "inner").unwrap()[0];
    assert_eq!(inner.value.as_deref(), Some("deep"));
}

#[test]
fn parse_starts_at_given_position() {
    let events = vec![
        XmlEvent::Text(s("skipped")),
        XmlEvent::Text(s("kept")),
        XmlEvent::End(s("x")),
    ];
    let (ext, next) = parse_extension_element(&events, 1, &Vec::new()).unwrap();
    assert_eq!(ext.value.as_deref(), Some("kept"));
    assert_eq!(next, 3);
}

#[test]
fn indexer_appends_in_order_under_known_namespace() {
    let mut index: ExtensionMap = Vec::new();
    index_extension(&mut index, s("ns"), s("other"), leaf("ns:other", None));
    index_extension(&mut index, s("ns"), s("other"), leaf("ns:other", None));
    let one = vec![XmlEvent::Text(s("one")), XmlEvent::End(s("ns:item"))];
    let two = vec![XmlEvent::Text(s("two")), XmlEvent::End(s("ns:item"))];
    assert_eq!(parse_extension(&one, 0, &Vec::new(), b"ns", b"item", &mut index), Ok(2));
    assert_eq!(parse_extension(&two, 0, &Vec::new(), b"ns", b"item", &mut index), Ok(2));
    assert_eq!(index.len(), 1);
    let inner = lookup(&index, "ns").unwrap();
    let items = lookup(inner, "item").unwrap();
    assert_eq!(items.len(), 2);
    assert_eq!(items[0].value.as_deref(), Some("one"));
    assert_eq!(items[1].value.as_deref(), Some("two"));
    assert_eq!(lookup(inner, "other").unwrap().len(), 1);
}

#[test]
fn indexer_first_element_of_new_namespace_leaves_empty_entry() {
    let mut index: ExtensionMap = Vec::new();
    let events = vec![XmlEvent::Text(s("v")), XmlEvent::End(s("new:item"))];
    assert_eq!(parse_extension(&events, 0, &Vec::new(), b"new", b"item", &mut index), Ok(2));
    assert_eq!(index.len(), 1);
    assert_eq!(index[0].0, "new");
    assert!(index[0].1.is_empty());
}

#[test]
fn indexer_rejects_undecodable_names() {
    let mut index: ExtensionMap = Vec::new();
    index_extension(&mut index, s("ns"), s("a"), leaf("ns:a", None));
    let events = vec![XmlEvent::End(s("x"))];
    assert_eq!(
        parse_extension(&events, 0, &Vec::new(), &[0xff, 0xfe], b"item", &mut index),
        Err(ParseError::Malformed)
    );
    assert_eq!(
        parse_extension(&events, 0, &Vec::new(), b"ns", &[0xc3], &mut index),
        Err(ParseError::Malformed)
    );
    assert_eq!(index.len(), 1);
    assert!(lookup(&index[0].1, "item").is_none());
}

#[test]
fn indexer_propagates_truncation_and_keeps_index() {
    let mut index: ExtensionMap = Vec::new();
    index_extension(&mut index, s("ns"), s("a"), leaf("ns:a", None));
    let events = vec![XmlEvent::Text(s("v")), XmlEvent::Eof];
    assert_eq!(
        parse_extension(&events, 0, &Vec::new(), b"ns", b"item", &mut index),
        Err(ParseError::Eof)
    );
    assert!(lookup(&index[0].1, "item").is_none());
}

#[test]
fn indexer_decodes_multibyte_names() {
    let mut index: ExtensionMap = Vec::new();
    index_extension(&mut index, s("\u{e9}t\u{e9}"), s("x"), leaf("e:x", None));
    let events = vec![XmlEvent::End(s("e:n\u{fc}"))];
    let ns = "\u{e9}t\u{e9}".as_bytes();
    let name = "n\u{fc}".as_bytes();
    assert_eq!(parse_extension(&events, 0, &Vec::new(), ns, name, &mut index), Ok(1));
    let inner = lookup(&index, "\u{e9}t\u{e9}").unwrap();
    assert_eq!(lookup(inner, "n\u{fc}").unwrap().len(), 1);
}

#[test]
fn remove_absent_key_gives_nothing() {
    let mut map = vec![(s("a"), vec![leaf("x:a", Some("1"))])];
    assert_eq!(remove_extension_value(&mut map, "b"), None);
    assert_eq!(map.len(), 1);
    assert_eq!(map[0].0, "a");
}

#[test]
fn remove_present_key_gives_first_value() {
    let mut map = vec![
        (s("a"), vec![leaf("x:a", Some("1"))]),
        (s("k"), vec![leaf("x:k", Some("v"))]),
    ];
    assert_eq!(remove_extension_value(&mut map, "k").as_deref(), Some("v"));
    assert!(lookup(&map, "k").is_none());
    assert_eq!(map.len(), 1);
    let mut two = vec![(s("k"), vec![leaf("x:k", Some("first")), leaf("x:k", Some("second"))])];
    assert_eq!(remove_extension_value(&mut two, "k").as_deref(), Some("first"));
    assert!(two.is_empty());
}

#[test]
fn remove_key_with_empty_list_or_no_value_gives_nothing() {
    let mut map = vec![(s("e"), Vec::new()), (s("n"), vec![leaf("x:n", None)])];
    assert_eq!(remove_extension_value(&mut map, "e"), None);
    assert_eq!(remove_extension_value(&mut map, "n"), None);
    assert!(map.is_empty());
}

#[test]
fn extract_values_drops_valueless() {
    let list = vec![leaf("x", Some("a")), leaf("x", None), leaf("x", Some("c"))];
    assert_eq!(get_extension_values(list), vec![s("a"), s("c")]);
    assert!(get_extension_values(Vec::new()).is_empty());
}

#[test]
fn built_trees_are_well_formed() {
    let attrs = vec![(s("k"), s("1")), (s("k"), s("2"))];
    let events = vec![
        start("c", &[("a", "1"), ("a", "2")]),
        XmlEvent::End(s("c")),
        start("c", &[]),
        XmlEvent::End(s("c")),
        XmlEvent::End(s("p")),
    ];
    let (ext, _) = parse_extension_element(&events, 0, &attrs).unwrap();
    assert!(is_well_formed(&ext));
    assert_eq!(lookup(&ext.children, "c").unwrap()[0].attrs, vec![(s("a"), s("2"))]);
}

#[test]
fn duplicate_names_are_not_well_formed() {
    let mut bad = leaf("x", None);
    bad.attrs = vec![(s("a"), s("1")), (s("a"), s("2"))];
    assert!(!is_well_formed(&bad));
    assert!(!has_unique_keys(&bad.attrs));
    let mut parent = leaf("p", None);
    parent.children = vec![(s("x"), vec![leaf("x", None), bad])];
    assert!(!is_well_formed(&parent));
    let index: ExtensionMap = vec![(s("ns"), vec![(s("p"), vec![parent])])];
    assert!(!index_is_well_formed(&index));
    let twice: ExtensionMap = vec![(s("ns"), Vec::new()), (s("ns"), Vec::new())];
    assert!(!index_is_well_formed(&twice));
    let good: ExtensionMap = vec![(s("ns"), vec![(s("p"), vec![leaf("p", None)])])];
    assert!(index_is_well_formed(&good));
}
