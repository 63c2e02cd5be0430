use std::collections::HashMap;

use weibian::compiler::Metadata;
use weibian::extract::{
    collect_links, collect_metadata, collect_node_spans, collect_transclusions,
    duplicate_node_counter_diagnostic, invalid_node_counter_diagnostic,
    missing_identifier_diagnostic, missing_node_counter_diagnostic, missing_title_diagnostic,
    orphaned_link_metadata_diagnostic, orphaned_node_metadata_diagnostic,
    orphaned_transclusion_metadata_diagnostic, strip_wb_prefix, transclude_flag, AnchorAttrs,
    ElementInfo, Marker, MarkerValue, MetadataItem, TranscludeAttrs,
};

fn element(tag: &str, counter: Option<&str>, span: u64) -> ElementInfo {
    ElementInfo { tag: tag.to_owned(), counter: counter.map(str::to_owned), span: Some(span) }
}

fn meta(key: &str, value: &str) -> Metadata {
    HashMap::from([(key.to_owned(), vec![value.to_owned()])])
}

fn item(marker: Marker, fields: Metadata) -> MetadataItem {
    MetadataItem { span: Some(7), marker, fields }
}

fn array(kind: &str, value: MarkerValue) -> Marker {
    Marker::Array(vec![MarkerValue::Str(kind.to_owned()), value])
}

#[test]
fn node_spans_by_counter() {
    let elements = vec![
        element("html", None, 1),
        element("wb-node", Some("0"), 2),
        element("p", None, 3),
        element("wb-subnode", Some("1"), 4),
    ];
    let (spans, errors) = collect_node_spans(&elements);
    assert!(errors.is_empty());
    assert_eq!(spans, HashMap::from([(0, Some(2)), (1, Some(4))]));
}

#[test]
fn node_span_errors() {
    let elements = vec![
        element("wb-node", None, 2),
        element("wb-subnode", Some("nan"), 3),
        element("wb-subnode", Some("5"), 4),
        element("wb-subnode", Some("5"), 6),
    ];
    let (spans, errors) = collect_node_spans(&elements);
    assert_eq!(spans, HashMap::from([(5, Some(4))]));
    let messages: Vec<&str> = errors.iter().map(|e| e.message.as_str()).collect();
    assert_eq!(
        messages,
        vec![
            "wb-node is missing a counter attribute",
            "wb-subnode has invalid counter: \"nan\"",
            "duplicate node counter: 5",
        ]
    );
    assert_eq!(errors[0].span, Some(2));
    assert_eq!(errors[2].span, None);
}

#[test]
fn metadata_sorted_by_kind() {
    let spans = HashMap::from([(0, Some(1))]);
    let items = vec![
        item(array("node", MarkerValue::Int(0)), meta("a", "1")),
        item(array("transclude", MarkerValue::Int(3)), meta("b", "2")),
        item(array("link", MarkerValue::Int(4)), meta("c", "3")),
        item(Marker::Absent, meta("d", "4")),
    ];
    let (node, transclusion, link, errors) = collect_metadata(items, &spans);
    assert!(errors.is_empty());
    assert_eq!(node, HashMap::from([(0, meta("a", "1"))]));
    assert_eq!(transclusion, HashMap::from([(3, meta("b", "2"))]));
    assert_eq!(link, HashMap::from([(4, meta("c", "3"))]));
}

#[test]
fn metadata_errors() {
    let spans = HashMap::from([(0, Some(1))]);
    let items = vec![
        item(Marker::NotArray, HashMap::new()),
        item(Marker::Array(vec![MarkerValue::Int(1)]), HashMap::new()),
        item(array("page", MarkerValue::Int(1)), HashMap::new()),
        item(array("node", MarkerValue::Other), HashMap::new()),
        item(array("link", MarkerValue::Int(-1)), HashMap::new()),
        item(array("node", MarkerValue::Int(9)), HashMap::new()),
        item(array("transclude", MarkerValue::Int(2)), HashMap::new()),
        item(array("transclude", MarkerValue::Int(2)), HashMap::new()),
    ];
    let (_, transclusion, _, errors) = collect_metadata(items, &spans);
    assert_eq!(transclusion.len(), 1);
    let messages: Vec<&str> = errors.iter().map(|e| e.message.as_str()).collect();
    assert_eq!(
        messages,
        vec![
            "\"wb-metadata\" must be a [kind, discriminant] array",
            "\"wb-metadata\" must be a two-element [kind, discriminant] array",
            "unknown \"wb-metadata\" kind: \"page\"",
            "\"wb-metadata\" node counter must be an integer",
            "\"wb-metadata\" link counter out of range: -1",
            "metadata for unknown node counter: 9",
            "duplicate metadata for transclusion counter: 2",
        ]
    );
    assert!(errors.iter().all(|e| e.span == Some(7)));
}

#[test]
fn transclusions_take_their_metadata() {
    let mut metadata = HashMap::from([(0, meta("k", "v")), (5, meta("x", "y"))]);
    let elements = vec![
        TranscludeAttrs { identifier: Some("a".to_owned()), counter: Some("0".to_owned()) },
        TranscludeAttrs { identifier: None, counter: Some("1".to_owned()) },
        TranscludeAttrs { identifier: Some("b".to_owned()), counter: None },
        TranscludeAttrs { identifier: Some("c".to_owned()), counter: Some("x".to_owned()) },
        TranscludeAttrs { identifier: Some("d".to_owned()), counter: Some("2".to_owned()) },
    ];
    let (targets, taken, errors) = collect_transclusions(elements, &mut metadata);
    assert_eq!(targets, vec!["a".to_owned(), "d".to_owned()]);
    assert_eq!(taken, HashMap::from([(0, meta("k", "v"))]));
    assert_eq!(metadata, HashMap::from([(5, meta("x", "y"))]));
    let messages: Vec<&str> = errors.iter().map(|e| e.message.as_str()).collect();
    assert_eq!(
        messages,
        vec![
            "wb-transclude is missing an identifier",
            "wb-transclude is missing a counter attribute",
            "wb-transclude has invalid counter: \"x\"",
        ]
    );
}

#[test]
fn links_keep_only_wb_addresses() {
    let mut metadata = HashMap::from([(1, meta("k", "v"))]);
    let anchors = vec![
        AnchorAttrs { href: Some("https://x.org".to_owned()), counter: None },
        AnchorAttrs { href: Some("wb:a".to_owned()), counter: Some("1".to_owned()) },
        AnchorAttrs { href: None, counter: Some("2".to_owned()) },
        AnchorAttrs { href: Some("wb:b".to_owned()), counter: None },
        AnchorAttrs { href: Some("wb:c".to_owned()), counter: Some("-1".to_owned()) },
    ];
    let (targets, taken, errors) = collect_links(anchors, &mut metadata);
    assert_eq!(targets, vec!["a".to_owned()]);
    assert_eq!(taken, HashMap::from([(1, meta("k", "v"))]));
    assert!(metadata.is_empty());
    let messages: Vec<&str> = errors.iter().map(|e| e.message.as_str()).collect();
    assert_eq!(
        messages,
        vec!["link is missing a data-counter attribute", "link has invalid data-counter: \"-1\""]
    );
}

#[test]
fn wb_prefix() {
    assert_eq!(strip_wb_prefix("wb:node"), Some("node"));
    assert_eq!(strip_wb_prefix("wb:"), Some(""));
    assert_eq!(strip_wb_prefix("wx:node"), None);
    assert_eq!(strip_wb_prefix("w"), None);
}

#[test]
fn transclude_attribute_values() {
    assert!(matches!(transclude_flag(Some("true"), None), Ok(true)));
    assert!(matches!(transclude_flag(Some("false"), None), Ok(false)));
    let err = transclude_flag(Some("yes"), Some(3)).unwrap_err();
    assert_eq!(err.message, "wb-subnode has invalid transclude value: \"yes\"");
    assert_eq!(err.span, None);
    let err = transclude_flag(None, Some(3)).unwrap_err();
    assert_eq!(err.message, "wb-subnode is missing the transclude attribute");
    assert_eq!(err.span, Some(3));
}

#[test]
fn diagnostic_texts() {
    assert_eq!(missing_identifier_diagnostic(true).message, "wb-subnode is missing an identifier");
    assert_eq!(missing_identifier_diagnostic(false).message, "wb-node is missing an identifier");
    assert_eq!(
        missing_title_diagnostic(false).message,
        "wb-node's first child must be a wb-title element"
    );
    assert_eq!(
        missing_node_counter_diagnostic(Some(1), true).message,
        "wb-subnode is missing a counter attribute"
    );
    assert_eq!(
        invalid_node_counter_diagnostic(None, false, "x").message,
        "wb-node has invalid counter: \"x\""
    );
    assert_eq!(duplicate_node_counter_diagnostic(12).message, "duplicate node counter: 12");
    assert_eq!(
        orphaned_node_metadata_diagnostic(3).message,
        "node metadata for counter 3 has no corresponding node element"
    );
    assert_eq!(
        orphaned_transclusion_metadata_diagnostic(4).message,
        "transclusion metadata for counter 4 has no corresponding wb-transclude element"
    );
    assert_eq!(
        orphaned_link_metadata_diagnostic(5).message,
        "link metadata for counter 5 has no corresponding link element"
    );
}
