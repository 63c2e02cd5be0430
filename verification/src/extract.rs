use std::collections::HashMap;

use vstd::prelude::*;
use vstd::string::{StrSliceExecFns, StringExecFns};

use crate::compiler::Metadata;
use crate::diagnostics::{debug_quoted, debug_str};

verus! {

broadcast use vstd::std_specs::hash::group_hash_axioms;

/// An error found while extracting nodes, at a source span (Typst's raw
/// span number) or at none.
pub struct ExtractError {
    pub span: Option<u64>,
    pub message: String,
}

/// The abstract value of an [`ExtractError`].
pub struct ExtractErrorView {
    pub span: Option<u64>,
    pub message: Seq<char>,
}

impl View for ExtractError {
    type V = ExtractErrorView;

    open spec fn view(&self) -> ExtractErrorView {
        ExtractErrorView { span: self.span, message: self.message@ }
    }
}

/// The views of a list of errors.
pub open spec fn errors_view(errors: Seq<ExtractError>) -> Seq<ExtractErrorView> {
    errors.map_values(|e: ExtractError| e@)
}

/// An element of the compiled HTML, in document order: its tag, its
/// `counter` attribute and its span.
pub struct ElementInfo {
    pub tag: String,
    pub counter: Option<String>,
    pub span: Option<u64>,
}

/// The value of a decimal number as `str::parse::<u32>` reads it: an
/// optional `+` and at least one digit, within the range of `u32`.
pub open spec fn decimal_u32(s: Seq<char>) -> Option<u32> {
    let digits = if s.len() > 0 && s[0] == '+' {
        s.drop_first()
    } else {
        s
    };
    if digits.len() > 0 && forall|i: int| 0 <= i < digits.len() ==> '0' <= #[trigger] digits[i] <= '9' {
        let value = crate::args::digits_value(digits);
        if value <= u32::MAX {
            Some(value as u32)
        } else {
            None
        }
    } else {
        None
    }
}

/// std's `str::parse::<u32>`.
#[verifier::external_body]
pub(crate) fn parse_u32(s: &str) -> (r: Option<u32>)
    ensures
        r == decimal_u32(s@),
{
    s.parse::<u32>().ok()
}

/// The message for a node element without a counter.
pub open spec fn missing_counter_message(is_subnode: bool) -> Seq<char> {
    if is_subnode {
        "wb-subnode is missing a counter attribute"@
    } else {
        "wb-node is missing a counter attribute"@
    }
}

/// The message for a node element with a counter that is not a number.
pub open spec fn invalid_counter_message(is_subnode: bool, value: Seq<char>) -> Seq<char> {
    if is_subnode {
        "wb-subnode has invalid counter: "@ + debug_str(value)
    } else {
        "wb-node has invalid counter: "@ + debug_str(value)
    }
}

/// The decimal digit for `d` (below 10).
pub open spec fn digit_char(d: nat) -> char {
    if d == 0 {
        '0'
    } else if d == 1 {
        '1'
    } else if d == 2 {
        '2'
    } else if d == 3 {
        '3'
    } else if d == 4 {
        '4'
    } else if d == 5 {
        '5'
    } else if d == 6 {
        '6'
    } else if d == 7 {
        '7'
    } else if d == 8 {
        '8'
    } else {
        '9'
    }
}

/// The decimal digits of `n`, without leading zeros (`0` for zero).
pub open spec fn digits_text(n: nat) -> Seq<char>
    decreases n,
{
    if n < 10 {
        seq![digit_char(n)]
    } else {
        digits_text(n / 10).push(digit_char(n % 10))
    }
}

/// std's `Display` of a `u32`: its decimal digits, without leading zeros.
pub open spec fn decimal_text(n: u32) -> Seq<char> {
    digits_text(n as nat)
}

/// std's `u32::to_string`.
#[verifier::external_body]
pub(crate) fn u32_text(n: u32) -> (s: String)
    ensures
        s@ == decimal_text(n),
{
    n.to_string()
}

/// An error for a node element without a counter.
pub fn missing_node_counter_diagnostic(span: Option<u64>, is_subnode: bool) -> (e: ExtractError)
    ensures
        e@ == (ExtractErrorView { span, message: missing_counter_message(is_subnode) }),
{
    let message = if is_subnode {
        String::from_str("wb-subnode is missing a counter attribute")
    } else {
        String::from_str("wb-node is missing a counter attribute")
    };
    ExtractError { span, message }
}

/// An error for a node element whose counter is not a number.
pub fn invalid_node_counter_diagnostic(span: Option<u64>, is_subnode: bool, value: &str) -> (e: ExtractError)
    ensures
        e@ == (ExtractErrorView { span, message: invalid_counter_message(is_subnode, value@) }),
{
    let prefix = if is_subnode {
        String::from_str("wb-subnode has invalid counter: ")
    } else {
        String::from_str("wb-node has invalid counter: ")
    };
    ExtractError { span, message: prefix.concat(debug_quoted(value).as_str()) }
}

/// An error for a counter used by two node elements.
pub fn duplicate_node_counter_diagnostic(counter: u32) -> (e: ExtractError)
    ensures
        e@ == (ExtractErrorView { span: None, message: "duplicate node counter: "@ + decimal_text(counter) }),
{
    ExtractError { span: None, message: String::from_str("duplicate node counter: ").concat(u32_text(counter).as_str()) }
}

/// Whether `tag` names a node or a subnode element, and which.
fn node_tag(tag: &str) -> (r: (bool, bool))
    ensures
        r.0 == (tag@ == "wb-node"@ || tag@ == "wb-subnode"@),
        r.1 == (tag@ == "wb-subnode"@),
{
    let node = crate::config::same_str(tag, "wb-node");
    let subnode = crate::config::same_str(tag, "wb-subnode");
    (node || subnode, subnode)
}

/// The spans of the node elements, by counter, and the errors, after the
/// first `k` elements.
pub open spec fn node_spans_upto(elements: Seq<ElementInfo>, k: nat) -> (Map<u32, Option<u64>>, Seq<ExtractErrorView>)
    decreases k,
{
    if k == 0 {
        (Map::empty(), Seq::empty())
    } else {
        let (spans, errors) = node_spans_upto(elements, (k - 1) as nat);
        let e = elements[k - 1];
        let is_node = e.tag@ == "wb-node"@ || e.tag@ == "wb-subnode"@;
        let is_subnode = e.tag@ == "wb-subnode"@;
        if !is_node {
            (spans, errors)
        } else {
            match e.counter {
                None => (spans, errors.push(ExtractErrorView { span: e.span, message: missing_counter_message(is_subnode) })),
                Some(c) => match decimal_u32(c@) {
                    None => (spans, errors.push(ExtractErrorView { span: e.span, message: invalid_counter_message(is_subnode, c@) })),
                    Some(n) => if spans.contains_key(n) {
                        (spans, errors.push(ExtractErrorView { span: None, message: "duplicate node counter: "@ + decimal_text(n) }))
                    } else {
                        (spans.insert(n, e.span), errors)
                    },
                },
            }
        }
    }
}

/// Records the span of each node and subnode element by its counter, in
/// document order; reports elements without a counter or with a counter
/// that is not a number, and counters used twice (the first use keeps its
/// span).
pub fn collect_node_spans(elements: &Vec<ElementInfo>) -> (r: (HashMap<u32, Option<u64>>, Vec<ExtractError>))
    ensures
        r.0@ == node_spans_upto(elements@, elements@.len()).0,
        errors_view(r.1@) == node_spans_upto(elements@, elements@.len()).1,
{
    let mut spans: HashMap<u32, Option<u64>> = HashMap::new();
    let mut errors: Vec<ExtractError> = Vec::new();
    let mut k: usize = 0;
    while k < elements.len()
        invariant
            k <= elements@.len(),
            spans@ == node_spans_upto(elements@, k as nat).0,
            errors_view(errors@) == node_spans_upto(elements@, k as nat).1,
        decreases elements@.len() - k,
    {
        let e = &elements[k];
        let (is_node, is_subnode) = node_tag(e.tag.as_str());
        let ghost before = errors@;
        if is_node {
            match &e.counter {
                None => {
                    errors.push(missing_node_counter_diagnostic(e.span, is_subnode));
                },
                Some(c) => match parse_u32(c.as_str()) {
                    None => {
                        errors.push(invalid_node_counter_diagnostic(e.span, is_subnode, c.as_str()));
                    },
                    Some(n) => {
                        if spans.contains_key(&n) {
                            errors.push(duplicate_node_counter_diagnostic(n));
                        } else {
                            spans.insert(n, e.span);
                        }
                    },
                },
            }
        }
        proof {
            assert(elements@[k as int] == *e);
            if errors@.len() > before.len() {
                assert(errors_view(errors@) =~= errors_view(before).push(errors@.last()@));
            } else {
                assert(errors_view(errors@) =~= errors_view(before));
            }
        }
        k = k + 1;
    }
    (spans, errors)
}


/// A member of the `wb-metadata` array of a `#metadata` element.
pub enum MarkerValue {
    Str(String),
    Int(i64),
    Other,
}

/// The `wb-metadata` entry of a `#metadata` element: absent (the element is
/// not Weibian metadata), present but not an array, or an array.
pub enum Marker {
    Absent,
    NotArray,
    Array(Vec<MarkerValue>),
}

/// A `#metadata` element: its span, its `wb-metadata` entry and its other
/// fields, normalized.
pub struct MetadataItem {
    pub span: Option<u64>,
    pub marker: Marker,
    pub fields: Metadata,
}

/// What a metadata element describes.
#[derive(Clone, Copy, Debug, PartialEq, Eq, Structural)]
pub enum MetadataKind {
    Node,
    Transclusion,
    Link,
}

/// What one metadata element amounts to: nothing, an error message, or
/// metadata for a counter of some kind.
pub enum ItemOutcome {
    Skip,
    Error(Seq<char>),
    Entry(MetadataKind, u32),
}

/// std's `Display` of an `i64`: its decimal digits, without leading zeros,
/// after `-` when it is negative.
pub open spec fn signed_text(n: i64) -> Seq<char> {
    if n < 0 {
        seq!['-'] + digits_text((-(n as int)) as nat)
    } else {
        digits_text(n as nat)
    }
}

/// std's `i64::to_string`.
#[verifier::external_body]
fn i64_text(n: i64) -> (s: String)
    ensures
        s@ == signed_text(n),
{
    n.to_string()
}

/// The word that names a kind in messages.
pub open spec fn kind_word(kind: MetadataKind) -> Seq<char> {
    match kind {
        MetadataKind::Node => "node"@,
        MetadataKind::Transclusion => "transclude"@,
        MetadataKind::Link => "link"@,
    }
}

/// What a metadata element amounts to, given the counters of the node
/// elements: its `[kind, discriminant]` array must name `node`,
/// `transclude` or `link` and give a counter that fits a `u32`; node
/// metadata must refer to a node element.
pub open spec fn item_outcome(marker: Marker, has_node: Set<u32>) -> ItemOutcome {
    match marker {
        Marker::Absent => ItemOutcome::Skip,
        Marker::NotArray => ItemOutcome::Error("\"wb-metadata\" must be a [kind, discriminant] array"@),
        Marker::Array(values) => {
            if values@.len() >= 2 && values@[0] is Str {
                let kind_text = values@[0]->Str_0@;
                let kind = if kind_text == "node"@ {
                    Some(MetadataKind::Node)
                } else if kind_text == "transclude"@ {
                    Some(MetadataKind::Transclusion)
                } else if kind_text == "link"@ {
                    Some(MetadataKind::Link)
                } else {
                    None
                };
                match kind {
                    None => ItemOutcome::Error("unknown \"wb-metadata\" kind: "@ + debug_str(kind_text)),
                    Some(k) => match values@[1] {
                        MarkerValue::Int(v) => if 0 <= v <= u32::MAX {
                            if k == MetadataKind::Node && !has_node.contains(v as u32) {
                                ItemOutcome::Error("metadata for unknown node counter: "@ + decimal_text(v as u32))
                            } else {
                                ItemOutcome::Entry(k, v as u32)
                            }
                        } else {
                            ItemOutcome::Error("\"wb-metadata\" "@ + kind_word(k) + " counter out of range: "@ + signed_text(v))
                        },
                        _ => ItemOutcome::Error("\"wb-metadata\" "@ + kind_word(k) + " counter must be an integer"@),
                    },
                }
            } else {
                ItemOutcome::Error("\"wb-metadata\" must be a two-element [kind, discriminant] array"@)
            }
        },
    }
}

/// The word that names a kind in duplicate messages.
pub open spec fn duplicate_word(kind: MetadataKind) -> Seq<char> {
    match kind {
        MetadataKind::Node => "node"@,
        MetadataKind::Transclusion => "transclusion"@,
        MetadataKind::Link => "link"@,
    }
}

/// The metadata maps for nodes, transclusions and links, and the errors,
/// after the first `k` elements: the first metadata for a counter of a
/// kind is kept, later ones are errors.
pub open spec fn metadata_upto(items: Seq<MetadataItem>, has_node: Set<u32>, k: nat) -> (
    Map<u32, Metadata>,
    Map<u32, Metadata>,
    Map<u32, Metadata>,
    Seq<ExtractErrorView>,
)
    decreases k,
{
    if k == 0 {
        (Map::empty(), Map::empty(), Map::empty(), Seq::empty())
    } else {
        let (n, t, l, errors) = metadata_upto(items, has_node, (k - 1) as nat);
        let item = items[k - 1];
        match item_outcome(item.marker, has_node) {
            ItemOutcome::Skip => (n, t, l, errors),
            ItemOutcome::Error(m) => (n, t, l, errors.push(ExtractErrorView { span: item.span, message: m })),
            ItemOutcome::Entry(kind, c) => {
                let map = match kind {
                    MetadataKind::Node => n,
                    MetadataKind::Transclusion => t,
                    MetadataKind::Link => l,
                };
                if map.contains_key(c) {
                    (n, t, l, errors.push(ExtractErrorView {
                        span: item.span,
                        message: "duplicate metadata for "@ + duplicate_word(kind) + " counter: "@ + decimal_text(c),
                    }))
                } else {
                    match kind {
                        MetadataKind::Node => (n.insert(c, item.fields), t, l, errors),
                        MetadataKind::Transclusion => (n, t.insert(c, item.fields), l, errors),
                        MetadataKind::Link => (n, t, l.insert(c, item.fields), errors),
                    }
                }
            },
        }
    }
}

/// Decides what one metadata element amounts to.
fn classify_item(marker: &Marker, spans: &HashMap<u32, Option<u64>>) -> (r: Result<(MetadataKind, u32), Option<String>>)
    ensures
        match item_outcome(*marker, spans@.dom()) {
            ItemOutcome::Skip => r == Err::<(MetadataKind, u32), Option<String>>(None),
            ItemOutcome::Error(m) => r is Err && r->Err_0 is Some && r->Err_0->Some_0@ == m,
            ItemOutcome::Entry(k, c) => r == Ok::<(MetadataKind, u32), Option<String>>((k, c)),
        },
{
    match marker {
        Marker::Absent => Err(None),
        Marker::NotArray => Err(Some(String::from_str("\"wb-metadata\" must be a [kind, discriminant] array"))),
        Marker::Array(values) => {
            if values.len() < 2 {
                return Err(Some(String::from_str("\"wb-metadata\" must be a two-element [kind, discriminant] array")));
            }
            let kind_text = match &values[0] {
                MarkerValue::Str(s) => s.as_str(),
                _ => {
                    return Err(Some(String::from_str("\"wb-metadata\" must be a two-element [kind, discriminant] array")));
                },
            };
            let kind = if crate::config::same_str(kind_text, "node") {
                MetadataKind::Node
            } else if crate::config::same_str(kind_text, "transclude") {
                MetadataKind::Transclusion
            } else if crate::config::same_str(kind_text, "link") {
                MetadataKind::Link
            } else {
                return Err(Some(String::from_str("unknown \"wb-metadata\" kind: ").concat(debug_quoted(kind_text).as_str())));
            };
            let word = match kind {
                MetadataKind::Node => "node",
                MetadataKind::Transclusion => "transclude",
                MetadataKind::Link => "link",
            };
            match &values[1] {
                MarkerValue::Int(v) => {
                    let v = *v;
                    if 0 <= v && v <= 0xFFFF_FFFF {
                        let c = v as u32;
                        if kind == MetadataKind::Node && !spans.contains_key(&c) {
                            Err(Some(String::from_str("metadata for unknown node counter: ").concat(u32_text(c).as_str())))
                        } else {
                            Ok((kind, c))
                        }
                    } else {
                        Err(Some(String::from_str("\"wb-metadata\" ").concat(word).concat(" counter out of range: ").concat(i64_text(v).as_str())))
                    }
                },
                _ => Err(Some(String::from_str("\"wb-metadata\" ").concat(word).concat(" counter must be an integer"))),
            }
        },
    }
}

/// Sorts the metadata elements into node, transclusion and link metadata
/// by counter, in order; reports malformed `wb-metadata` entries, node
/// metadata for counters that no node element has, and second metadata for
/// the same counter of the same kind.
pub fn collect_metadata(items: Vec<MetadataItem>, spans: &HashMap<u32, Option<u64>>) -> (r: (
    HashMap<u32, Metadata>,
    HashMap<u32, Metadata>,
    HashMap<u32, Metadata>,
    Vec<ExtractError>,
))
    ensures
        ({
            let (n, t, l, errors) = metadata_upto(items@, spans@.dom(), items@.len());
            &&& r.0@ == n
            &&& r.1@ == t
            &&& r.2@ == l
            &&& errors_view(r.3@) == errors
        }),
{
    let ghost all = items@;
    let mut node: HashMap<u32, Metadata> = HashMap::new();
    let mut transclusion: HashMap<u32, Metadata> = HashMap::new();
    let mut link: HashMap<u32, Metadata> = HashMap::new();
    let mut errors: Vec<ExtractError> = Vec::new();
    proof {
        assert(all.take(0) =~= Seq::<MetadataItem>::empty());
    }
    for item in it: items
        invariant
            all == it.seq(),
            ({
                let (n, t, l, e) = metadata_upto(all, spans@.dom(), it.index() as nat);
                &&& node@ == n
                &&& transclusion@ == t
                &&& link@ == l
                &&& errors_view(errors@) == e
            }),
    {
        let ghost i = it.index() as int;
        let ghost before = errors@;
        proof {
            assert(all[i] == item);
        }
        let MetadataItem { span, marker, fields } = item;
        match classify_item(&marker, spans) {
            Err(None) => {},
            Err(Some(message)) => {
                errors.push(ExtractError { span, message });
                proof {
                    assert(errors_view(errors@) =~= errors_view(before).push(errors@.last()@));
                }
            },
            Ok((kind, c)) => {
                let taken = match kind {
                    MetadataKind::Node => node.contains_key(&c),
                    MetadataKind::Transclusion => transclusion.contains_key(&c),
                    MetadataKind::Link => link.contains_key(&c),
                };
                if taken {
                    let word = match kind {
                        MetadataKind::Node => "node",
                        MetadataKind::Transclusion => "transclusion",
                        MetadataKind::Link => "link",
                    };
                    let message = String::from_str("duplicate metadata for ").concat(word).concat(" counter: ").concat(u32_text(c).as_str());
                    errors.push(ExtractError { span, message });
                    proof {
                        assert(errors_view(errors@) =~= errors_view(before).push(errors@.last()@));
                    }
                } else {
                    match kind {
                        MetadataKind::Node => {
                            node.insert(c, fields);
                        },
                        MetadataKind::Transclusion => {
                            transclusion.insert(c, fields);
                        },
                        MetadataKind::Link => {
                            link.insert(c, fields);
                        },
                    }
                }
            },
        }
    }
    (node, transclusion, link, errors)
}

/// The map of one kind among the node, transclusion and link maps.
pub open spec fn kind_map(
    maps: (Map<u32, Metadata>, Map<u32, Metadata>, Map<u32, Metadata>, Seq<ExtractErrorView>),
    kind: MetadataKind,
) -> Map<u32, Metadata> {
    match kind {
        MetadataKind::Node => maps.0,
        MetadataKind::Transclusion => maps.1,
        MetadataKind::Link => maps.2,
    }
}

/// Some element before position `k` is metadata of kind `kind` for counter `c`.
pub open spec fn entry_before(items: Seq<MetadataItem>, has_node: Set<u32>, k: int, kind: MetadataKind, c: u32) -> bool {
    exists|i: int| 0 <= i < k && #[trigger] item_outcome(items[i].marker, has_node) == ItemOutcome::Entry(kind, c)
}

/// Each kind of metadata is collected on its own: the map of a kind holds
/// exactly the counters that elements of that kind give, and for each the
/// fields of the first such element, whatever elements of the other kinds
/// give the same counter.
pub proof fn lemma_metadata_first_of_kind(items: Seq<MetadataItem>, has_node: Set<u32>)
    ensures
        forall|kind: MetadataKind, c: u32|
            #[trigger] kind_map(metadata_upto(items, has_node, items.len()), kind).contains_key(c)
                <==> entry_before(items, has_node, items.len() as int, kind, c),
        forall|kind: MetadataKind, c: u32, i: int|
            0 <= i < items.len() && #[trigger] item_outcome(items[i].marker, has_node) == ItemOutcome::Entry(kind, c)
                && !entry_before(items, has_node, i, kind, c) ==> #[trigger] kind_map(
                metadata_upto(items, has_node, items.len()),
                kind,
            )[c] == items[i].fields,
{
    lemma_metadata_first_upto(items, has_node, items.len());
}

proof fn lemma_metadata_first_upto(items: Seq<MetadataItem>, has_node: Set<u32>, k: nat)
    requires
        k <= items.len(),
    ensures
        forall|kind: MetadataKind, c: u32|
            #[trigger] kind_map(metadata_upto(items, has_node, k), kind).contains_key(c)
                <==> entry_before(items, has_node, k as int, kind, c),
        forall|kind: MetadataKind, c: u32, i: int|
            0 <= i < k && #[trigger] item_outcome(items[i].marker, has_node) == ItemOutcome::Entry(kind, c)
                && !entry_before(items, has_node, i, kind, c) ==> #[trigger] kind_map(
                metadata_upto(items, has_node, k),
                kind,
            )[c] == items[i].fields,
    decreases k,
{
    if k > 0 {
        let j = (k - 1) as nat;
        lemma_metadata_first_upto(items, has_node, j);
        let prev = metadata_upto(items, has_node, j);
        let cur = metadata_upto(items, has_node, k);
        let last = item_outcome(items[j as int].marker, has_node);
        assert forall|kind: MetadataKind, c: u32|
            entry_before(items, has_node, k as int, kind, c) <==> (entry_before(items, has_node, j as int, kind, c)
                || last == ItemOutcome::Entry(kind, c)) by {
            if entry_before(items, has_node, k as int, kind, c) {
                let w = choose|w: int| 0 <= w < k && #[trigger] item_outcome(items[w].marker, has_node) == ItemOutcome::Entry(kind, c);
                if w < j {
                    assert(entry_before(items, has_node, j as int, kind, c));
                }
            }
            if last == ItemOutcome::Entry(kind, c) {
                assert(item_outcome(items[j as int].marker, has_node) == ItemOutcome::Entry(kind, c));
            }
            if entry_before(items, has_node, j as int, kind, c) {
                let w = choose|w: int| 0 <= w < j && #[trigger] item_outcome(items[w].marker, has_node) == ItemOutcome::Entry(kind, c);
                assert(item_outcome(items[w].marker, has_node) == ItemOutcome::Entry(kind, c));
            }
        }
        match last {
            ItemOutcome::Entry(kd, c0) => {
                if kind_map(prev, kd).contains_key(c0) {
                    assert(forall|kind: MetadataKind| kind_map(cur, kind) == kind_map(prev, kind));
                } else {
                    assert(kind_map(cur, kd) == kind_map(prev, kd).insert(c0, items[j as int].fields));
                    assert(forall|kind: MetadataKind| kind != kd ==> kind_map(cur, kind) == kind_map(prev, kind));
                }
            },
            _ => {
                assert(forall|kind: MetadataKind| kind_map(cur, kind) == kind_map(prev, kind));
            },
        }
    }
}

/// Node metadata is kept only for counters that some node element has.
pub proof fn lemma_node_metadata_known(items: Seq<MetadataItem>, has_node: Set<u32>)
    ensures
        forall|c: u32|
            #[trigger] metadata_upto(items, has_node, items.len()).0.contains_key(c) ==> has_node.contains(c),
{
    lemma_metadata_first_upto(items, has_node, items.len());
    assert forall|c: u32| #[trigger] metadata_upto(items, has_node, items.len()).0.contains_key(c) implies has_node.contains(c) by {
        assert(kind_map(metadata_upto(items, has_node, items.len()), MetadataKind::Node).contains_key(c));
        let w = choose|w: int|
            0 <= w < items.len() && #[trigger] item_outcome(items[w].marker, has_node) == ItemOutcome::Entry(MetadataKind::Node, c);
        assert(item_outcome(items[w].marker, has_node) == ItemOutcome::Entry(MetadataKind::Node, c));
    }
}

/// How many of the first `k` elements are refused: malformed ones, and
/// those that repeat the counter of an earlier element of their kind.
pub open spec fn refused_count(items: Seq<MetadataItem>, has_node: Set<u32>, k: nat) -> nat
    decreases k,
{
    if k == 0 {
        0
    } else {
        let i = k - 1;
        let refused = match item_outcome(items[i].marker, has_node) {
            ItemOutcome::Skip => false,
            ItemOutcome::Error(_) => true,
            ItemOutcome::Entry(kind, c) => entry_before(items, has_node, i, kind, c),
        };
        refused_count(items, has_node, i as nat) + if refused { 1nat } else { 0nat }
    }
}

/// Every refused metadata element gives one error, and no other element
/// gives one: a malformed element, or one whose counter an earlier element
/// of the same kind already gave.
pub proof fn lemma_metadata_error_count(items: Seq<MetadataItem>, has_node: Set<u32>)
    ensures
        metadata_upto(items, has_node, items.len()).3.len() == refused_count(items, has_node, items.len()),
{
    lemma_metadata_error_count_upto(items, has_node, items.len());
}

proof fn lemma_metadata_error_count_upto(items: Seq<MetadataItem>, has_node: Set<u32>, k: nat)
    requires
        k <= items.len(),
    ensures
        metadata_upto(items, has_node, k).3.len() == refused_count(items, has_node, k),
    decreases k,
{
    if k > 0 {
        let j = (k - 1) as nat;
        lemma_metadata_error_count_upto(items, has_node, j);
        lemma_metadata_first_upto(items, has_node, j);
        let prev = metadata_upto(items, has_node, j);
        match item_outcome(items[j as int].marker, has_node) {
            ItemOutcome::Entry(kd, c0) => {
                assert(kind_map(prev, kd).contains_key(c0) == entry_before(items, has_node, j as int, kd, c0));
            },
            _ => {},
        }
    }
}

/// Metadata of different kinds never conflict: when every metadata element
/// is well formed and no two elements of one kind give the same counter,
/// no error comes, and the map of each kind holds exactly the counters of
/// its own elements, each with that element's fields.
pub proof fn lemma_metadata_kinds_independent(items: Seq<MetadataItem>, has_node: Set<u32>)
    requires
        forall|i: int| 0 <= i < items.len() ==> !(#[trigger] item_outcome(items[i].marker, has_node) is Error),
        forall|i: int, j: int|
            0 <= i < j < items.len() && #[trigger] item_outcome(items[i].marker, has_node) is Entry
                ==> #[trigger] item_outcome(items[j].marker, has_node) != item_outcome(items[i].marker, has_node),
    ensures
        metadata_upto(items, has_node, items.len()).3.len() == 0,
        forall|kind: MetadataKind, c: u32|
            #[trigger] kind_map(metadata_upto(items, has_node, items.len()), kind).contains_key(c)
                <==> exists|i: int| 0 <= i < items.len() && #[trigger] item_outcome(items[i].marker, has_node) == ItemOutcome::Entry(kind, c),
        forall|kind: MetadataKind, c: u32, i: int|
            0 <= i < items.len() && #[trigger] item_outcome(items[i].marker, has_node) == ItemOutcome::Entry(kind, c)
                ==> #[trigger] kind_map(metadata_upto(items, has_node, items.len()), kind)[c] == items[i].fields,
{
    lemma_metadata_no_errors_upto(items, has_node, items.len());
    lemma_metadata_first_upto(items, has_node, items.len());
    assert forall|kind: MetadataKind, c: u32, i: int|
        0 <= i < items.len() && item_outcome(items[i].marker, has_node) == ItemOutcome::Entry(kind, c)
            implies !#[trigger] entry_before(items, has_node, i, kind, c) by {
        if entry_before(items, has_node, i, kind, c) {
            let w = choose|w: int| 0 <= w < i && #[trigger] item_outcome(items[w].marker, has_node) == ItemOutcome::Entry(kind, c);
            assert(item_outcome(items[w].marker, has_node) == ItemOutcome::Entry(kind, c));
        }
    }
}

proof fn lemma_metadata_no_errors_upto(items: Seq<MetadataItem>, has_node: Set<u32>, k: nat)
    requires
        k <= items.len(),
        forall|i: int| 0 <= i < items.len() ==> !(#[trigger] item_outcome(items[i].marker, has_node) is Error),
        forall|i: int, j: int|
            0 <= i < j < items.len() && #[trigger] item_outcome(items[i].marker, has_node) is Entry
                ==> #[trigger] item_outcome(items[j].marker, has_node) != item_outcome(items[i].marker, has_node),
    ensures
        metadata_upto(items, has_node, k).3.len() == 0,
    decreases k,
{
    if k > 0 {
        let j = (k - 1) as nat;
        lemma_metadata_no_errors_upto(items, has_node, j);
        lemma_metadata_first_upto(items, has_node, j);
        let prev = metadata_upto(items, has_node, j);
        let last = item_outcome(items[j as int].marker, has_node);
        assert(!(last is Error));
        match last {
            ItemOutcome::Entry(kd, c0) => {
                if kind_map(prev, kd).contains_key(c0) {
                    let w = choose|w: int| 0 <= w < j && #[trigger] item_outcome(items[w].marker, has_node) == ItemOutcome::Entry(kd, c0);
                    assert(item_outcome(items[w].marker, has_node) == ItemOutcome::Entry(kd, c0));
                    assert(item_outcome(items[j as int].marker, has_node) == ItemOutcome::Entry(kd, c0));
                    assert(false);
                }
                assert(kind_map(prev, kd) == match kd {
                    MetadataKind::Node => prev.0,
                    MetadataKind::Transclusion => prev.1,
                    MetadataKind::Link => prev.2,
                });
            },
            _ => {},
        }
    }
}


/// A `wb-transclude` element: its `identifier` and `counter` attributes.
pub struct TranscludeAttrs {
    pub identifier: Option<String>,
    pub counter: Option<String>,
}

/// What the `wb-transclude` elements before position `k` give: their
/// targets, the metadata taken for their counters, the metadata left, and
/// the errors.
pub open spec fn transclusions_upto(elements: Seq<TranscludeAttrs>, meta: Map<u32, Metadata>, k: nat) -> (
    Seq<Seq<char>>,
    Map<u32, Metadata>,
    Map<u32, Metadata>,
    Seq<ExtractErrorView>,
)
    decreases k,
{
    if k == 0 {
        (Seq::empty(), Map::empty(), meta, Seq::empty())
    } else {
        let (targets, taken, left, errors) = transclusions_upto(elements, meta, (k - 1) as nat);
        let e = elements[k - 1];
        match e.identifier {
            None => (targets, taken, left, errors.push(ExtractErrorView { span: None, message: "wb-transclude is missing an identifier"@ })),
            Some(id) => match e.counter {
                None => (targets, taken, left, errors.push(ExtractErrorView { span: None, message: "wb-transclude is missing a counter attribute"@ })),
                Some(c) => match decimal_u32(c@) {
                    None => (targets, taken, left, errors.push(ExtractErrorView {
                        span: None,
                        message: "wb-transclude has invalid counter: "@ + debug_str(c@),
                    })),
                    Some(n) => if left.contains_key(n) {
                        (targets.push(id@), taken.insert(n, left[n]), left.remove(n), errors)
                    } else {
                        (targets.push(id@), taken, left, errors)
                    },
                },
            },
        }
    }
}

/// Collects the targets of the `wb-transclude` elements, in order, and
/// moves the metadata of their counters out of `metadata`; reports elements
/// without an identifier or a counter, or with a counter that is not a
/// number.
pub fn collect_transclusions(elements: Vec<TranscludeAttrs>, metadata: &mut HashMap<u32, Metadata>) -> (r: (
    Vec<String>,
    HashMap<u32, Metadata>,
    Vec<ExtractError>,
))
    ensures
        ({
            let (targets, taken, left, errors) = transclusions_upto(elements@, old(metadata)@, elements@.len());
            &&& r.0@.map_values(|t: String| t@) == targets
            &&& r.1@ == taken
            &&& final(metadata)@ == left
            &&& errors_view(r.2@) == errors
        }),
{
    let ghost all = elements@;
    let ghost meta0 = metadata@;
    let mut targets: Vec<String> = Vec::new();
    let mut taken: HashMap<u32, Metadata> = HashMap::new();
    let mut errors: Vec<ExtractError> = Vec::new();
    for e in it: elements
        invariant
            all == it.seq(),
            ({
                let (t, tk, left, errs) = transclusions_upto(all, meta0, it.index() as nat);
                &&& targets@.map_values(|t: String| t@) == t
                &&& taken@ == tk
                &&& metadata@ == left
                &&& errors_view(errors@) == errs
            }),
    {
        let ghost i = it.index() as int;
        let ghost errors_before = errors@;
        let ghost targets_before = targets@;
        proof {
            assert(all[i] == e);
        }
        let TranscludeAttrs { identifier, counter } = e;
        match identifier {
            None => {
                errors.push(ExtractError { span: None, message: String::from_str("wb-transclude is missing an identifier") });
                proof {
                    assert(errors_view(errors@) =~= errors_view(errors_before).push(errors@.last()@));
                }
            },
            Some(id) => match counter {
                None => {
                    errors.push(ExtractError { span: None, message: String::from_str("wb-transclude is missing a counter attribute") });
                    proof {
                        assert(errors_view(errors@) =~= errors_view(errors_before).push(errors@.last()@));
                    }
                },
                Some(c) => match parse_u32(c.as_str()) {
                    None => {
                        let message = String::from_str("wb-transclude has invalid counter: ").concat(debug_quoted(c.as_str()).as_str());
                        errors.push(ExtractError { span: None, message });
                        proof {
                            assert(errors_view(errors@) =~= errors_view(errors_before).push(errors@.last()@));
                        }
                    },
                    Some(n) => {
                        match metadata.remove(&n) {
                            Some(meta) => {
                                taken.insert(n, meta);
                            },
                            None => {},
                        }
                        targets.push(id);
                        proof {
                            assert(targets@.map_values(|t: String| t@) =~= targets_before.map_values(|t: String| t@).push(targets@.last()@));
                        }
                    },
                },
            },
        }
    }
    (targets, taken, errors)
}

/// An `a` element: its `href` and `data-counter` attributes.
pub struct AnchorAttrs {
    pub href: Option<String>,
    pub counter: Option<String>,
}

/// The target of a link address: what follows the `wb:` prefix, if any.
pub open spec fn link_target(href: Seq<char>) -> Option<Seq<char>> {
    if href.len() >= 3 && href[0] == 'w' && href[1] == 'b' && href[2] == ':' {
        Some(href.subrange(3, href.len() as int))
    } else {
        None
    }
}

/// What the anchors before position `k` give: the targets of the Weibian
/// links, the metadata taken for their counters, the metadata left, and the
/// errors.
pub open spec fn links_upto(anchors: Seq<AnchorAttrs>, meta: Map<u32, Metadata>, k: nat) -> (
    Seq<Seq<char>>,
    Map<u32, Metadata>,
    Map<u32, Metadata>,
    Seq<ExtractErrorView>,
)
    decreases k,
{
    if k == 0 {
        (Seq::empty(), Map::empty(), meta, Seq::empty())
    } else {
        let (targets, taken, left, errors) = links_upto(anchors, meta, (k - 1) as nat);
        let a = anchors[k - 1];
        let target = match a.href {
            Some(h) => link_target(h@),
            None => None,
        };
        match target {
            None => (targets, taken, left, errors),
            Some(id) => match a.counter {
                None => (targets, taken, left, errors.push(ExtractErrorView { span: None, message: "link is missing a data-counter attribute"@ })),
                Some(c) => match decimal_u32(c@) {
                    None => (targets, taken, left, errors.push(ExtractErrorView {
                        span: None,
                        message: "link has invalid data-counter: "@ + debug_str(c@),
                    })),
                    Some(n) => if left.contains_key(n) {
                        (targets.push(id), taken.insert(n, left[n]), left.remove(n), errors)
                    } else {
                        (targets.push(id), taken, left, errors)
                    },
                },
            },
        }
    }
}

/// The target of a `wb:` link address.
pub fn strip_wb_prefix(href: &str) -> (r: Option<&str>)
    ensures
        match link_target(href@) {
            Some(t) => r is Some && r->Some_0@ == t,
            None => r is None,
        },
{
    let n = href.unicode_len();
    if n >= 3 && href.get_char(0) == 'w' && href.get_char(1) == 'b' && href.get_char(2) == ':' {
        Some(href.substring_char(3, n))
    } else {
        None
    }
}

/// Collects the targets of the anchors whose address starts with `wb:`, in
/// order, and moves the metadata of their counters out of `metadata`;
/// reports such anchors without a `data-counter` or with one that is not a
/// number. Other anchors are passed over.
pub fn collect_links(anchors: Vec<AnchorAttrs>, metadata: &mut HashMap<u32, Metadata>) -> (r: (
    Vec<String>,
    HashMap<u32, Metadata>,
    Vec<ExtractError>,
))
    ensures
        ({
            let (targets, taken, left, errors) = links_upto(anchors@, old(metadata)@, anchors@.len());
            &&& r.0@.map_values(|t: String| t@) == targets
            &&& r.1@ == taken
            &&& final(metadata)@ == left
            &&& errors_view(r.2@) == errors
        }),
{
    let ghost all = anchors@;
    let ghost meta0 = metadata@;
    let mut targets: Vec<String> = Vec::new();
    let mut taken: HashMap<u32, Metadata> = HashMap::new();
    let mut errors: Vec<ExtractError> = Vec::new();
    for a in it: anchors
        invariant
            all == it.seq(),
            ({
                let (t, tk, left, errs) = links_upto(all, meta0, it.index() as nat);
                &&& targets@.map_values(|t: String| t@) == t
                &&& taken@ == tk
                &&& metadata@ == left
                &&& errors_view(errors@) == errs
            }),
    {
        let ghost i = it.index() as int;
        let ghost errors_before = errors@;
        let ghost targets_before = targets@;
        proof {
            assert(all[i] == a);
        }
        let AnchorAttrs { href, counter } = a;
        let target = match &href {
            Some(h) => strip_wb_prefix(h.as_str()),
            None => None,
        };
        match target {
            None => {},
            Some(id) => match counter {
                None => {
                    errors.push(ExtractError { span: None, message: String::from_str("link is missing a data-counter attribute") });
                    proof {
                        assert(errors_view(errors@) =~= errors_view(errors_before).push(errors@.last()@));
                    }
                },
                Some(c) => match parse_u32(c.as_str()) {
                    None => {
                        let message = String::from_str("link has invalid data-counter: ").concat(debug_quoted(c.as_str()).as_str());
                        errors.push(ExtractError { span: None, message });
                        proof {
                            assert(errors_view(errors@) =~= errors_view(errors_before).push(errors@.last()@));
                        }
                    },
                    Some(n) => {
                        match metadata.remove(&n) {
                            Some(meta) => {
                                taken.insert(n, meta);
                            },
                            None => {},
                        }
                        targets.push(String::from_str(id));
                        proof {
                            assert(targets@.map_values(|t: String| t@) =~= targets_before.map_values(|t: String| t@).push(targets@.last()@));
                        }
                    },
                },
            },
        }
    }
    (targets, taken, errors)
}

/// An error for a node element without an identifier.
pub fn missing_identifier_diagnostic(is_subnode: bool) -> (e: ExtractError)
    ensures
        e@ == (ExtractErrorView {
            span: None,
            message: if is_subnode {
                "wb-subnode is missing an identifier"@
            } else {
                "wb-node is missing an identifier"@
            },
        }),
{
    let message = if is_subnode {
        String::from_str("wb-subnode is missing an identifier")
    } else {
        String::from_str("wb-node is missing an identifier")
    };
    ExtractError { span: None, message }
}

/// An error for a node element whose first child is not its title.
pub fn missing_title_diagnostic(is_subnode: bool) -> (e: ExtractError)
    ensures
        e@ == (ExtractErrorView {
            span: None,
            message: if is_subnode {
                "wb-subnode's first child must be a wb-title element"@
            } else {
                "wb-node's first child must be a wb-title element"@
            },
        }),
{
    let message = if is_subnode {
        String::from_str("wb-subnode's first child must be a wb-title element")
    } else {
        String::from_str("wb-node's first child must be a wb-title element")
    };
    ExtractError { span: None, message }
}

/// An error for a subnode whose `transclude` attribute is neither `true`
/// nor `false`.
pub fn invalid_transclude_value_diagnostic(value: &str) -> (e: ExtractError)
    ensures
        e@ == (ExtractErrorView { span: None, message: "wb-subnode has invalid transclude value: "@ + debug_str(value@) }),
{
    ExtractError {
        span: None,
        message: String::from_str("wb-subnode has invalid transclude value: ").concat(debug_quoted(value).as_str()),
    }
}

/// An error for node metadata whose counter no node element has.
pub fn orphaned_node_metadata_diagnostic(counter: u32) -> (e: ExtractError)
    ensures
        e@ == (ExtractErrorView {
            span: None,
            message: "node metadata for counter "@ + decimal_text(counter) + " has no corresponding node element"@,
        }),
{
    ExtractError {
        span: None,
        message: String::from_str("node metadata for counter ").concat(u32_text(counter).as_str()).concat(
            " has no corresponding node element",
        ),
    }
}

/// An error for transclusion metadata whose counter no `wb-transclude`
/// element has.
pub fn orphaned_transclusion_metadata_diagnostic(counter: u32) -> (e: ExtractError)
    ensures
        e@ == (ExtractErrorView {
            span: None,
            message: "transclusion metadata for counter "@ + decimal_text(counter)
                + " has no corresponding wb-transclude element"@,
        }),
{
    ExtractError {
        span: None,
        message: String::from_str("transclusion metadata for counter ").concat(u32_text(counter).as_str()).concat(
            " has no corresponding wb-transclude element",
        ),
    }
}

/// An error for link metadata whose counter no link has.
pub fn orphaned_link_metadata_diagnostic(counter: u32) -> (e: ExtractError)
    ensures
        e@ == (ExtractErrorView {
            span: None,
            message: "link metadata for counter "@ + decimal_text(counter) + " has no corresponding link element"@,
        }),
{
    ExtractError {
        span: None,
        message: String::from_str("link metadata for counter ").concat(u32_text(counter).as_str()).concat(
            " has no corresponding link element",
        ),
    }
}

/// The value of a subnode's `transclude` attribute: `Ok(true)` or
/// `Ok(false)`, or the error for a missing or other value.
pub fn transclude_flag(value: Option<&str>, span: Option<u64>) -> (r: Result<bool, ExtractError>)
    ensures
        match value {
            None => r is Err && r->Err_0@ == (ExtractErrorView {
                span,
                message: "wb-subnode is missing the transclude attribute"@,
            }),
            Some(v) => if v@ == "true"@ {
                r == Ok::<bool, ExtractError>(true)
            } else if v@ == "false"@ {
                r == Ok::<bool, ExtractError>(false)
            } else {
                r is Err && r->Err_0@ == (ExtractErrorView {
                    span: None,
                    message: "wb-subnode has invalid transclude value: "@ + debug_str(v@),
                })
            },
        },
{
    match value {
        None => Err(ExtractError { span, message: String::from_str("wb-subnode is missing the transclude attribute") }),
        Some(v) => {
            if crate::config::same_str(v, "true") {
                Ok(true)
            } else if crate::config::same_str(v, "false") {
                Ok(false)
            } else {
                Err(invalid_transclude_value_diagnostic(v))
            }
        },
    }
}

} // verus!
