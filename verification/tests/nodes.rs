use std::collections::{HashMap, HashSet};

use weibian::extract::{AnchorAttrs, ElementInfo, TranscludeAttrs};
use weibian::nodes::{
    extract, extract_file, extract_node_content, finish_extraction, first_free_counter, keep_warning,
    sort_by_counter, transclusion_marker, FileOutput, MetadataMaps, NodeElement,
};

fn empty_maps() -> MetadataMaps {
    MetadataMaps { node: HashMap::new(), transclusion: HashMap::new(), link: HashMap::new() }
}

fn meta(key: &str, value: &str) -> HashMap<String, Vec<String>> {
    let mut m = HashMap::new();
    m.insert(key.to_owned(), vec![value.to_owned()]);
    m
}

fn element(counter: Option<&str>, identifier: Option<&str>, title: bool) -> NodeElement {
    NodeElement {
        counter: counter.map(|s| s.to_owned()),
        identifier: identifier.map(|s| s.to_owned()),
        transcludes: vec![TranscludeAttrs { identifier: Some("t".to_owned()), counter: Some("4".to_owned()) }],
        anchors: vec![AnchorAttrs { href: Some("wb:l".to_owned()), counter: Some("5".to_owned()) }],
        title: if title { Some(("<b>T</b>".to_owned(), "T".to_owned())) } else { None },
        body_html: "<p>body</p>".to_owned(),
    }
}

fn spans() -> HashMap<u32, Option<u64>> {
    let mut s = HashMap::new();
    s.insert(1, Some(77));
    s.insert(2, None);
    s
}

#[test]
fn node_content_extracted() {
    let mut maps = empty_maps();
    maps.node.insert(1, meta("k", "v"));
    maps.transclusion.insert(4, meta("t", "1"));
    let mut seen = HashSet::new();
    let mut errors = Vec::new();
    let (counter, out) = extract_node_content(element(Some("1"), Some("x"), true), false, &spans(), &mut maps, &mut seen, &mut errors)
        .expect("node");
    assert!(errors.is_empty());
    assert_eq!(counter, 1);
    assert_eq!(out.identifier, "x");
    assert_eq!(out.transclusions, vec!["t".to_owned()]);
    assert_eq!(out.links, vec!["l".to_owned()]);
    assert_eq!(out.node.title, "<b>T</b>");
    assert_eq!(out.node.title_text, "T");
    assert_eq!(out.node.span, Some(77));
    assert_eq!(out.node.node_metadata, meta("k", "v"));
    assert_eq!(out.node.transclusion_metadata.get(&4), Some(&meta("t", "1")));
    assert!(maps.node.is_empty());
    assert!(maps.transclusion.is_empty());
    assert!(seen.contains(&1));
}

#[test]
fn node_content_errors() {
    let mut maps = empty_maps();
    let mut seen = HashSet::new();
    let mut errors = Vec::new();
    assert!(extract_node_content(element(None, Some("x"), true), true, &spans(), &mut maps, &mut seen, &mut errors).is_none());
    assert!(extract_node_content(element(Some("z"), Some("x"), true), false, &spans(), &mut maps, &mut seen, &mut errors).is_none());
    assert!(extract_node_content(element(Some("1"), None, true), false, &spans(), &mut maps, &mut seen, &mut errors).is_none());
    assert!(extract_node_content(element(Some("1"), Some("x"), true), false, &spans(), &mut maps, &mut seen, &mut errors).is_none());
    assert!(extract_node_content(element(Some("9"), Some("x"), true), false, &spans(), &mut maps, &mut seen, &mut errors).is_none());
    assert!(seen.contains(&9));
    let messages: Vec<&str> = errors.iter().map(|e| e.message.as_str()).collect();
    assert_eq!(
        messages,
        vec![
            "wb-subnode is missing a counter attribute",
            "wb-node has invalid counter: \"z\"",
            "wb-node is missing an identifier",
            "duplicate node counter: 1",
            "bug: no span found for node counter",
        ]
    );
}

#[test]
fn node_content_without_title() {
    let mut maps = empty_maps();
    let mut seen = HashSet::new();
    let mut errors = Vec::new();
    assert!(extract_node_content(element(Some("1"), Some("x"), false), true, &spans(), &mut maps, &mut seen, &mut errors).is_none());
    assert_eq!(errors.len(), 1);
    assert_eq!(errors[0].message, "wb-subnode's first child must be a wb-title element");
}

#[test]
fn marker_text() {
    assert_eq!(
        transclusion_marker("abc", 12),
        "<wb-transclude identifier=\"abc\" counter=\"12\"></wb-transclude>"
    );
}

#[test]
fn free_counter_above_used_ones() {
    let markers = vec![(None, Some("3".to_owned())), (None, Some("x".to_owned())), (None, None)];
    assert_eq!(first_free_counter(&markers, &vec![1]), Some(4));
    assert_eq!(first_free_counter(&markers, &vec![9]), Some(10));
    assert_eq!(first_free_counter(&vec![], &vec![]), Some(0));
    assert_eq!(first_free_counter(&vec![], &vec![u32::MAX]), None);
}

#[test]
fn sorting_by_counter() {
    let sorted = sort_by_counter(vec![(3, "c"), (1, "a"), (2, "b")]);
    assert_eq!(sorted, vec![(1, "a"), (2, "b"), (3, "c")]);
}

#[test]
fn finishing_reports_unclaimed_metadata() {
    let mut maps = empty_maps();
    maps.link.insert(8, meta("k", "v"));
    match finish_extraction(Vec::new(), maps, Vec::new()) {
        Err(errors) => {
            assert_eq!(errors.len(), 1);
            assert_eq!(errors[0].message, "link metadata for counter 8 has no corresponding link element");
        },
        Ok(_) => panic!("expected errors"),
    }
}

#[test]
fn extract_single_node() {
    let html = "<wb-node counter=\"1\" identifier=\"x\"><wb-title>X</wb-title><p>body</p></wb-node>";
    let nodes = extract(html, &spans(), empty_maps()).ok().expect("nodes");
    assert_eq!(nodes.len(), 1);
    assert_eq!(nodes[0].identifier, "x");
    assert_eq!(nodes[0].node.title, "X");
    assert_eq!(nodes[0].node.title_text, "X");
    assert_eq!(nodes[0].node.body_html, "<p>body</p>");
}

#[test]
fn extract_transcluded_subnode() {
    let mut s = spans();
    s.insert(3, Some(90));
    let html = "<wb-node counter=\"1\" identifier=\"a\"><wb-title>A</wb-title><wb-subnode counter=\"3\" identifier=\"b\" transclude=\"true\"><wb-title>B</wb-title><p>inner</p></wb-subnode><wb-subnode counter=\"3\" identifier=\"c\" transclude=\"false\"><wb-title>C</wb-title></wb-subnode></wb-node>";
    match extract(html, &s, empty_maps()) {
        Err(errors) => {
            let messages: Vec<&str> = errors.iter().map(|e| e.message.as_str()).collect();
            assert_eq!(messages, vec!["duplicate node counter: 3"]);
        },
        Ok(_) => panic!("expected a duplicate counter"),
    }
    let html = "<wb-node counter=\"1\" identifier=\"a\"><wb-title>A</wb-title><wb-subnode counter=\"3\" identifier=\"b\" transclude=\"true\"><wb-title>B</wb-title><p>inner</p></wb-subnode></wb-node>";
    let nodes = extract(html, &s, empty_maps()).ok().expect("nodes");
    assert_eq!(nodes.len(), 2);
    assert_eq!(nodes[0].identifier, "a");
    assert_eq!(nodes[0].transclusions, vec!["b".to_owned()]);
    assert_eq!(
        nodes[0].node.body_html,
        "<wb-transclude identifier=\"b\" counter=\"0\"></wb-transclude>"
    );
    assert_eq!(nodes[1].identifier, "b");
    assert_eq!(nodes[1].node.body_html, "<p>inner</p>");
    assert_eq!(nodes[1].node.span, Some(90));
}

#[test]
fn extract_without_node() {
    match extract("<p>nothing</p>", &spans(), empty_maps()) {
        Err(errors) => assert_eq!(errors[0].message, "source file produced no wb-node"),
        Ok(_) => panic!("expected an error"),
    }
}

#[test]
fn extract_with_two_nodes() {
    let html = "<wb-node counter=\"1\" identifier=\"x\"><wb-title>X</wb-title></wb-node><wb-node counter=\"1\" identifier=\"y\"><wb-title>Y</wb-title></wb-node>";
    match extract(html, &spans(), empty_maps()) {
        Err(errors) => {
            assert_eq!(errors.len(), 1);
            assert_eq!(errors[0].message, "source file produced multiple wb-node elements");
            assert_eq!(errors[0].span, Some(77));
            assert!(errors[0].message.contains("multiple"));
        },
        Ok(_) => panic!("expected an error"),
    }
}

#[test]
fn extract_file_reports_span_errors_first() {
    let output = FileOutput {
        html: String::new(),
        elements: vec![ElementInfo { tag: "wb-node".to_owned(), counter: None, span: Some(1) }],
        items: Vec::new(),
    };
    match extract_file(output) {
        Err(errors) => assert!(!errors.is_empty()),
        Ok(_) => panic!("expected errors"),
    }
}

#[test]
fn html_notice_is_dropped() {
    assert!(!keep_warning(true, "html export is under active development and incomplete"));
    assert!(keep_warning(false, "html export is under active development and incomplete"));
    assert!(keep_warning(true, "something else"));
}

#[test]
fn node_without_span_keeps_none() {
    let mut maps = empty_maps();
    let mut seen = HashSet::new();
    let mut errors = Vec::new();
    let (_, out) = extract_node_content(element(Some("2"), Some("x"), true), false, &spans(), &mut maps, &mut seen, &mut errors)
        .expect("node");
    assert!(errors.is_empty());
    assert_eq!(out.node.span, None);
}

fn detached_spans(counters: &[u32]) -> HashMap<u32, Option<u64>> {
    counters.iter().map(|&c| (c, None)).collect()
}

#[test]
fn missing_wb_node() {
    let errors = extract("", &HashMap::new(), empty_maps()).err().expect("errors");
    assert!(errors.iter().any(|e| e.message == "source file produced no wb-node"));
}

#[test]
fn multiple_wb_nodes() {
    let html = r#"<wb-node identifier="n0" counter="0"><wb-title>A</wb-title></wb-node><wb-node identifier="n1" counter="1"><wb-title>B</wb-title></wb-node>"#;
    let errors = extract(html, &detached_spans(&[0, 1]), empty_maps()).err().expect("errors");
    assert!(errors.iter().any(|e| e.message == "source file produced multiple wb-node elements"));
}

#[test]
fn missing_node_counter() {
    let html = r#"<wb-node identifier="n0"><wb-title>A</wb-title></wb-node>"#;
    let errors = extract(html, &HashMap::new(), empty_maps()).err().expect("errors");
    assert!(errors.iter().any(|e| e.message == "wb-node is missing a counter attribute"));
}

#[test]
fn invalid_node_counter() {
    let html = r#"<wb-node identifier="n0" counter="nan"><wb-title>A</wb-title></wb-node>"#;
    let errors = extract(html, &HashMap::new(), empty_maps()).err().expect("errors");
    let expected = weibian::extract::invalid_node_counter_diagnostic(None, false, "nan");
    assert!(errors.iter().any(|e| e.message == expected.message && e.span == expected.span));
}

#[test]
fn duplicate_node_counter() {
    let html = r#"<wb-node identifier="n0" counter="0"><wb-title>A</wb-title><wb-subnode identifier="n1" counter="0" transclude="false"><wb-title>B</wb-title></wb-subnode></wb-node>"#;
    let errors = extract(html, &detached_spans(&[0]), empty_maps()).err().expect("errors");
    let expected = weibian::extract::duplicate_node_counter_diagnostic(0);
    assert!(errors.iter().any(|e| e.message == expected.message && e.span == expected.span));
}

#[test]
fn orphaned_node_metadata_counter() {
    let html = r#"<wb-node identifier="n0" counter="0"><wb-title>A</wb-title></wb-node>"#;
    let mut maps = empty_maps();
    maps.node.insert(1, meta("k", "v"));
    let errors = extract(html, &detached_spans(&[0]), maps).err().expect("errors");
    let expected = weibian::extract::orphaned_node_metadata_diagnostic(1);
    assert_eq!(errors.len(), 1);
    assert_eq!(errors[0].message, expected.message);
    assert_eq!(errors[0].span, expected.span);
}
