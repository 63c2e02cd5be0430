use std::collections::{HashMap, HashSet};

use vstd::prelude::*;

use crate::compiler::{Metadata, Node, NodeOutput};
use crate::extract::{
    collect_links, collect_transclusions, decimal_text, decimal_u32, duplicate_node_counter_diagnostic,
    errors_view, invalid_counter_message, invalid_node_counter_diagnostic, links_upto,
    missing_counter_message, missing_identifier_diagnostic, missing_node_counter_diagnostic,
    missing_title_diagnostic, parse_u32, transclusions_upto, AnchorAttrs, ExtractError, ExtractErrorView,
    TranscludeAttrs, collect_metadata, collect_node_spans, metadata_upto, node_spans_upto, transclude_flag,
    ElementInfo, MetadataItem,
};
use crate::html::{
    attribute_pairs, element_attribute, element_html, element_inner_pairs, first_child_content, first_child_html,
    first_child_tagged, html_attribute, html_first_child_inner, html_first_child_is, html_first_child_text,
    html_inner, html_inner_pairs, html_remove, html_remove_first_child, html_replace, html_tag_count,
    is_tag_name, tag_count, tagged_attributes, with_element_replaced, without_element, without_first_child,
};

verus! {

broadcast use vstd::std_specs::hash::group_hash_axioms;

/// The metadata of a file not yet claimed by an element, by counter: node
/// metadata, transclusion metadata and link metadata.
pub struct MetadataMaps {
    pub node: HashMap<u32, Metadata>,
    pub transclusion: HashMap<u32, Metadata>,
    pub link: HashMap<u32, Metadata>,
}

/// What is read of a `wb-node` or `wb-subnode` element: its `counter` and
/// `identifier` attributes, the `wb-transclude` and `a` elements inside it,
/// its title (the inner HTML and the text of its first child, when that is
/// a `wb-title` element) and the HTML inside it once the title is gone.
pub struct NodeElement {
    pub counter: Option<String>,
    pub identifier: Option<String>,
    pub transcludes: Vec<TranscludeAttrs>,
    pub anchors: Vec<AnchorAttrs>,
    pub title: Option<(String, String)>,
    pub body_html: String,
}

/// The message when the span of a node counter is unknown.
pub open spec fn unknown_span_message() -> Seq<char> {
    "bug: no span found for node counter"@
}

/// What the counter of a node element gives, in the order the checks are
/// made: the counter, or the error for a missing one, one that is not a
/// number, or one seen before.
pub open spec fn counter_outcome(counter: Option<String>, is_subnode: bool, seen: Set<u32>) -> Result<
    u32,
    ExtractErrorView,
> {
    match counter {
        None => Err(ExtractErrorView { span: None, message: missing_counter_message(is_subnode) }),
        Some(c) => match decimal_u32(c@) {
            None => Err(ExtractErrorView { span: None, message: invalid_counter_message(is_subnode, c@) }),
            Some(n) => if seen.contains(n) {
                Err(ExtractErrorView { span: None, message: "duplicate node counter: "@ + decimal_text(n) })
            } else {
                Ok(n)
            },
        },
    }
}

/// The error for a missing identifier.
pub open spec fn missing_identifier_view(is_subnode: bool) -> ExtractErrorView {
    ExtractErrorView {
        span: None,
        message: if is_subnode {
            "wb-subnode is missing an identifier"@
        } else {
            "wb-node is missing an identifier"@
        },
    }
}

/// The error for a missing title.
pub open spec fn missing_title_view(is_subnode: bool) -> ExtractErrorView {
    ExtractErrorView {
        span: None,
        message: if is_subnode {
            "wb-subnode's first child must be a wb-title element"@
        } else {
            "wb-node's first child must be a wb-title element"@
        },
    }
}

/// What extracting one node element does (see [`extract_node_content`]):
/// from the metadata `md0`, the counters `seen0` and the errors `errors0`
/// to the result `r`, the metadata `md1`, the counters `seen1` and the
/// errors `errors1`.
pub open spec fn node_content_result(
    element: NodeElement,
    is_subnode: bool,
    spans: Map<u32, Option<u64>>,
    md0: MetadataMaps,
    seen0: Set<u32>,
    errors0: Seq<ExtractErrorView>,
    r: Option<(u32, NodeOutput)>,
    md1: MetadataMaps,
    seen1: Set<u32>,
    errors1: Seq<ExtractErrorView>,
) -> bool {
    ({
        let (t_targets, t_taken, t_left, t_errors) = transclusions_upto(
            element.transcludes@,
            md0.transclusion@,
            element.transcludes@.len(),
        );
        let (l_targets, l_taken, l_left, l_errors) = links_upto(
            element.anchors@,
            md0.link@,
            element.anchors@.len(),
        );
        let before = errors0 + t_errors + l_errors;
        &&& md1.transclusion@ == t_left
        &&& md1.link@ == l_left
        &&& match counter_outcome(element.counter, is_subnode, seen0) {
            Err(e) => {
                &&& r is None
                &&& errors1 == before.push(e)
                &&& seen1 == seen0
                &&& md1.node@ == md0.node@
            },
            Ok(n) => {
                &&& seen1 == seen0.insert(n)
                &&& !spans.contains_key(n) ==> {
                    &&& r is None
                    &&& errors1 == before.push(
                        ExtractErrorView { span: None, message: unknown_span_message() },
                    )
                    &&& md1.node@ == md0.node@
                }
                &&& spans.contains_key(n) ==> {
                    &&& md1.node@ == md0.node@.remove(n)
                    &&& match (element.identifier, element.title) {
                        (None, _) => r is None && errors1 == before.push(
                            missing_identifier_view(is_subnode),
                        ),
                        (Some(_), None) => r is None && errors1 == before.push(
                            missing_title_view(is_subnode),
                        ),
                        (Some(id), Some((title, title_text))) => {
                            &&& errors1 == before
                            &&& r matches Some((c, out)) && {
                                &&& c == n
                                &&& out.identifier@ == id@
                                &&& out.transclusions@.map_values(|t: String| t@) == t_targets
                                &&& out.links@.map_values(|t: String| t@) == l_targets
                                &&& out.node.body_html@ == element.body_html@
                                &&& out.node.title@ == title@
                                &&& out.node.title_text@ == title_text@
                                &&& out.node.span == spans[n]
                                &&& out.node.node_metadata@ == (if md0.node@.contains_key(n) {
                                    md0.node@[n]@
                                } else {
                                    Map::<String, Vec<String>>::empty()
                                })
                                &&& out.node.transclusion_metadata@ == t_taken
                                &&& out.node.link_metadata@ == l_taken
                            }
                        },
                    }
                }
            },
        }
    })
}

/// Extracts one node element: collects its transclusions and links (taking
/// their metadata and reporting malformed ones), then checks its counter
/// (see [`counter_outcome`]; a good counter is marked seen), looks up its
/// span, takes its node metadata, and checks
/// its identifier and its title. Returns the node with its
/// counter when all checks pass; otherwise the first failed check's error
/// is reported and nothing is returned.
///
/// A counter without a span means the spans were collected from another
/// document: it is a bug of the caller, not of the source file. It is
/// reported as the error "bug: no span found for node counter" (see
/// [`unknown_span_message`]) rather than stopping the program, so that
/// extraction never panics.
pub fn extract_node_content(
    element: NodeElement,
    is_subnode: bool,
    spans: &HashMap<u32, Option<u64>>,
    metadata: &mut MetadataMaps,
    seen: &mut HashSet<u32>,
    errors: &mut Vec<ExtractError>,
) -> (r: Option<(u32, NodeOutput)>)
    ensures
        node_content_result(
            element,
            is_subnode,
            spans@,
            *old(metadata),
            old(seen)@,
            errors_view(old(errors)@),
            r,
            *final(metadata),
            final(seen)@,
            errors_view(final(errors)@),
        ),
{
    let NodeElement { counter, identifier, transcludes, anchors, title, body_html } = element;
    let (transclusions, transclusion_metadata, mut t_errors) = collect_transclusions(
        transcludes,
        &mut metadata.transclusion,
    );
    let (links, link_metadata, mut l_errors) = collect_links(anchors, &mut metadata.link);
    let ghost e0 = errors_view(errors@);
    let ghost te = errors_view(t_errors@);
    let ghost le = errors_view(l_errors@);
    errors.append(&mut t_errors);
    errors.append(&mut l_errors);
    let ghost before = errors_view(errors@);
    proof {
        assert(errors_view(errors@) =~= e0 + te + le);
    }
    let n = match &counter {
        None => {
            errors.push(missing_node_counter_diagnostic(None, is_subnode));
            proof {
                assert(errors_view(errors@) =~= before.push(errors@.last()@));
            }
            return None;
        },
        Some(c) => match parse_u32(c.as_str()) {
            None => {
                errors.push(invalid_node_counter_diagnostic(None, is_subnode, c.as_str()));
                proof {
                    assert(errors_view(errors@) =~= before.push(errors@.last()@));
                }
                return None;
            },
            Some(n) => n,
        },
    };
    if seen.contains(&n) {
        errors.push(duplicate_node_counter_diagnostic(n));
        proof {
            assert(errors_view(errors@) =~= before.push(errors@.last()@));
        }
        return None;
    }
    seen.insert(n);
    let span = match spans.get(&n) {
        None => {
            errors.push(ExtractError { span: None, message: String::from_str("bug: no span found for node counter") });
            proof {
                assert(errors_view(errors@) =~= before.push(errors@.last()@));
            }
            return None;
        },
        Some(s) => *s,
    };
    let node_metadata = match metadata.node.remove(&n) {
        Some(m) => m,
        None => HashMap::new(),
    };
    let identifier = match identifier {
        None => {
            errors.push(missing_identifier_diagnostic(is_subnode));
            proof {
                assert(errors_view(errors@) =~= before.push(errors@.last()@));
            }
            return None;
        },
        Some(id) => id,
    };
    let (title, title_text) = match title {
        None => {
            errors.push(missing_title_diagnostic(is_subnode));
            proof {
                assert(errors_view(errors@) =~= before.push(errors@.last()@));
            }
            return None;
        },
        Some(t) => t,
    };
    Some(
        (
            n,
            NodeOutput {
                identifier,
                node: Node {
                    body_html,
                    title,
                    title_text,
                    span,
                    node_metadata,
                    transclusion_metadata,
                    link_metadata,
                },
                transclusions,
                links,
            },
        ),
    )
}

/// The keys of a metadata map, each once, in the map's order.
pub fn map_keys(m: &HashMap<u32, Metadata>) -> (out: Vec<u32>)
    ensures
        out@.to_set() == m@.dom(),
        out@.no_duplicates(),
{
    let mut out: Vec<u32> = Vec::new();
    for x in it: m.keys()
        invariant
            it.seq().unref().to_set() == m@.dom(),
            it.seq().unref().no_duplicates(),
            out@ == it.seq().take(it.index()).unref(),
            forall|y: u32| out@.contains(y) ==> m@.dom().contains(y),
            forall|y: u32|
                m@.dom().contains(y) ==> (out@.contains(y) || exists|k: int|
                    it.index() <= k < it.seq().len() && *it.seq()[k] == y),
    {
        let ghost before = out@;
        out.push(*x);
        proof {
            assert(out@[out@.len() - 1] == *x);
            assert forall|y: u32| m@.dom().contains(y) implies (out@.contains(y) || exists|k: int|
                it.index() + 1 <= k < it.seq().len() && *it.seq()[k] == y) by {
                if before.contains(y) {
                    let w = choose|w: int| 0 <= w < before.len() && before[w] == y;
                    assert(out@[w] == y);
                } else {
                    let k = choose|k: int| it.index() <= k < it.seq().len() && *it.seq()[k] == y;
                    if k == it.index() {
                        assert(out@.contains(y));
                    }
                }
            }
            assert forall|y: u32| out@.contains(y) implies m@.dom().contains(y) by {
                if y != *x {
                    let w = choose|w: int| 0 <= w < out@.len() && out@[w] == y;
                    assert(before[w] == y);
                    assert(before.contains(y));
                } else {
                    assert(it.seq().unref()[it.index()] == *x);
                    assert(it.seq().unref().contains(*x));
                    assert(it.seq().unref().to_set().contains(*x));
                    assert(m@.dom().contains(*x));
                }
            }
            assert(it.seq().take(it.index() + 1).unref() =~= it.seq().take(it.index()).unref().push(*x));
        }
    }
    proof {
        assert(out@.to_set() =~= m@.dom());
    }
    out
}

/// The error for node metadata whose counter no node element has.
pub open spec fn orphan_node_view(c: u32) -> ExtractErrorView {
    ExtractErrorView {
        span: None,
        message: "node metadata for counter "@ + decimal_text(c) + " has no corresponding node element"@,
    }
}

/// The error for transclusion metadata whose counter no `wb-transclude`
/// element has.
pub open spec fn orphan_transclusion_view(c: u32) -> ExtractErrorView {
    ExtractErrorView {
        span: None,
        message: "transclusion metadata for counter "@ + decimal_text(c)
            + " has no corresponding wb-transclude element"@,
    }
}

/// The error for link metadata whose counter no link has.
pub open spec fn orphan_link_view(c: u32) -> ExtractErrorView {
    ExtractErrorView {
        span: None,
        message: "link metadata for counter "@ + decimal_text(c) + " has no corresponding link element"@,
    }
}

/// `keys` lists the keys of `m`, each once.
pub open spec fn lists_keys(keys: Seq<u32>, m: Map<u32, Metadata>) -> bool {
    keys.no_duplicates() && keys.to_set() == m.dom()
}

/// The counters are in increasing order, equal ones side by side.
pub open spec fn counters_sorted<T>(entries: Seq<(u32, T)>) -> bool {
    forall|i: int, j: int| 0 <= i < j < entries.len() ==> (#[trigger] entries[i]).0 <= (#[trigger] entries[j]).0
}

/// The entries in increasing order of their counters.
pub fn sort_by_counter<T>(entries: Vec<(u32, T)>) -> (out: Vec<(u32, T)>)
    ensures
        out@.to_multiset() == entries@.to_multiset(),
        counters_sorted(out@),
{
    broadcast use vstd::seq_lib::group_to_multiset_ensures;

    let ghost all = entries@;
    let mut rest = entries;
    let mut out: Vec<(u32, T)> = Vec::new();
    while rest.len() > 0
        invariant
            out@.to_multiset().add(rest@.to_multiset()) == all.to_multiset(),
            counters_sorted(out@),
            forall|i: int, r: int| 0 <= i < out@.len() && 0 <= r < rest@.len() ==> (#[trigger] out@[i]).0 <= (#[trigger] rest@[r]).0,
        decreases rest@.len(),
    {
        let mut m: usize = 0;
        let mut k: usize = 1;
        while k < rest.len()
            invariant
                0 <= m < rest@.len(),
                m < k <= rest@.len(),
                forall|q: int| 0 <= q < k ==> rest@[m as int].0 <= (#[trigger] rest@[q]).0,
            decreases rest@.len() - k,
        {
            if rest[k].0 < rest[m].0 {
                m = k;
            }
            k = k + 1;
        }
        let ghost before_rest = rest@;
        let ghost before_out = out@;
        let x = rest.remove(m);
        let ghost xv = x;
        out.push(x);
        proof {
            before_rest.to_multiset_ensures();
            before_out.to_multiset_ensures();
            assert(rest@ == before_rest.remove(m as int));
            assert(before_rest[m as int] == xv);
            assert(before_rest.remove(m as int).to_multiset() =~= before_rest.to_multiset().remove(xv));
            assert(before_out.push(xv).to_multiset() =~= before_out.to_multiset().insert(xv));
            assert(before_rest.to_multiset().count(xv) > 0);
            assert(out@.to_multiset().add(rest@.to_multiset()) =~= before_out.to_multiset().add(before_rest.to_multiset()));
            assert forall|i: int, j: int| 0 <= i < j < out@.len() implies (#[trigger] out@[i]).0 <= (#[trigger] out@[j]).0 by {
                if j < before_out.len() {
                    assert(out@[i] == before_out[i] && out@[j] == before_out[j]);
                } else {
                    assert(out@[j] == before_rest[m as int]);
                    assert(out@[i] == before_out[i]);
                }
            }
            assert forall|i: int, r: int| 0 <= i < out@.len() && 0 <= r < rest@.len() implies (#[trigger] out@[i]).0 <= (#[trigger] rest@[r]).0 by {
                let rr = if r < m { r } else { r + 1 };
                assert(rest@[r] == before_rest[rr]);
                if i < before_out.len() {
                    assert(out@[i] == before_out[i]);
                } else {
                    assert(out@[i] == before_rest[m as int]);
                }
            }
        }
    }
    proof {
        assert(rest@ =~= Seq::<(u32, T)>::empty());
        assert(rest@.to_multiset() =~= vstd::multiset::Multiset::empty());
        assert(out@.to_multiset() =~= all.to_multiset());
    }
    out
}

/// What ending an extraction gives (see [`finish_extraction`]) from the
/// nodes `nodes`, the unclaimed metadata `metadata` and the errors
/// `errors`.
pub open spec fn finish_result(
    nodes: Seq<(u32, NodeOutput)>,
    metadata: MetadataMaps,
    errors: Seq<ExtractErrorView>,
    r: Result<Vec<NodeOutput>, Vec<ExtractError>>,
) -> bool {
    match r {
        Ok(out) => {
            &&& errors.len() == 0
            &&& metadata.node@.dom().is_empty()
            &&& metadata.transclusion@.dom().is_empty()
            &&& metadata.link@.dom().is_empty()
            &&& exists|sorted: Seq<(u32, NodeOutput)>|
                #![trigger counters_sorted(sorted)]
                sorted.to_multiset() == nodes.to_multiset() && counters_sorted(sorted) && out@
                    == sorted.map_values(|p: (u32, NodeOutput)| p.1)
        },
        Err(all) => exists|nk: Seq<u32>, tk: Seq<u32>, lk: Seq<u32>|
            #![trigger lists_keys(nk, metadata.node@), lists_keys(tk, metadata.transclusion@), lists_keys(lk, metadata.link@)]
            {
                &&& lists_keys(nk, metadata.node@)
                &&& lists_keys(tk, metadata.transclusion@)
                &&& lists_keys(lk, metadata.link@)
                &&& errors_view(all@) == errors + nk.map_values(|c: u32| orphan_node_view(c))
                    + tk.map_values(|c: u32| orphan_transclusion_view(c)) + lk.map_values(
                    |c: u32| orphan_link_view(c),
                )
                &&& all@.len() > 0
            },
    }
}

/// Ends an extraction: reports the metadata left unclaimed (node, then
/// transclusion, then link metadata, each counter once) after `errors`.
/// With no error at all, returns the nodes in increasing order of their
/// counters; otherwise returns the errors.
pub fn finish_extraction(nodes: Vec<(u32, NodeOutput)>, metadata: MetadataMaps, errors: Vec<ExtractError>) -> (r: Result<
    Vec<NodeOutput>,
    Vec<ExtractError>,
>)
    ensures
        finish_result(nodes@, metadata, errors_view(errors@), r),
{
    let mut errors = errors;
    let nk = map_keys(&metadata.node);
    let tk = map_keys(&metadata.transclusion);
    let lk = map_keys(&metadata.link);
    let ghost e0 = errors_view(errors@);
    let mut i: usize = 0;
    while i < nk.len()
        invariant
            0 <= i <= nk@.len(),
            errors_view(errors@) == e0 + nk@.take(i as int).map_values(|c: u32| orphan_node_view(c)),
        decreases nk@.len() - i,
    {
        let ghost before = errors_view(errors@);
        errors.push(crate::extract::orphaned_node_metadata_diagnostic(nk[i]));
        proof {
            assert(nk@.take(i + 1) =~= nk@.take(i as int).push(nk@[i as int]));
            assert(errors_view(errors@) =~= before.push(orphan_node_view(nk@[i as int])));
            assert(errors_view(errors@) =~= e0 + nk@.take(i + 1).map_values(|c: u32| orphan_node_view(c)));
        }
        i = i + 1;
    }
    let ghost e1 = errors_view(errors@);
    let mut i: usize = 0;
    while i < tk.len()
        invariant
            0 <= i <= tk@.len(),
            errors_view(errors@) == e1 + tk@.take(i as int).map_values(|c: u32| orphan_transclusion_view(c)),
        decreases tk@.len() - i,
    {
        let ghost before = errors_view(errors@);
        errors.push(crate::extract::orphaned_transclusion_metadata_diagnostic(tk[i]));
        proof {
            assert(tk@.take(i + 1) =~= tk@.take(i as int).push(tk@[i as int]));
            assert(errors_view(errors@) =~= before.push(orphan_transclusion_view(tk@[i as int])));
            assert(errors_view(errors@) =~= e1 + tk@.take(i + 1).map_values(|c: u32| orphan_transclusion_view(c)));
        }
        i = i + 1;
    }
    let ghost e2 = errors_view(errors@);
    let mut i: usize = 0;
    while i < lk.len()
        invariant
            0 <= i <= lk@.len(),
            errors_view(errors@) == e2 + lk@.take(i as int).map_values(|c: u32| orphan_link_view(c)),
        decreases lk@.len() - i,
    {
        let ghost before = errors_view(errors@);
        errors.push(crate::extract::orphaned_link_metadata_diagnostic(lk[i]));
        proof {
            assert(lk@.take(i + 1) =~= lk@.take(i as int).push(lk@[i as int]));
            assert(errors_view(errors@) =~= before.push(orphan_link_view(lk@[i as int])));
            assert(errors_view(errors@) =~= e2 + lk@.take(i + 1).map_values(|c: u32| orphan_link_view(c)));
        }
        i = i + 1;
    }
    proof {
        assert(nk@.take(nk@.len() as int) =~= nk@);
        assert(tk@.take(tk@.len() as int) =~= tk@);
        assert(lk@.take(lk@.len() as int) =~= lk@);
        assert(lists_keys(nk@, metadata.node@));
        assert(lists_keys(tk@, metadata.transclusion@));
        assert(lists_keys(lk@, metadata.link@));
    }
    if errors.len() == 0 {
        proof {
            assert(errors_view(errors@).len() == 0);
            if !metadata.node@.dom().is_empty() {
                let c = metadata.node@.dom().choose();
                assert(nk@.to_set().contains(c));
            }
            if !metadata.transclusion@.dom().is_empty() {
                let c = metadata.transclusion@.dom().choose();
                assert(tk@.to_set().contains(c));
            }
            if !metadata.link@.dom().is_empty() {
                let c = metadata.link@.dom().choose();
                assert(lk@.to_set().contains(c));
            }
        }
        let sorted = sort_by_counter(nodes);
        let ghost sv = sorted@;
        let mut out: Vec<NodeOutput> = Vec::new();
        let mut rest = sorted;
        while rest.len() > 0
            invariant
                rest@.len() <= sv.len(),
                rest@ =~= sv.subrange(out@.len() as int, sv.len() as int),
                out@ =~= sv.take(out@.len() as int).map_values(|p: (u32, NodeOutput)| p.1),
                out@.len() + rest@.len() == sv.len(),
            decreases rest@.len(),
        {
            let ghost k: int = out@.len() as int;
            let (_, o) = rest.remove(0);
            proof {
                assert(sv.subrange(k, sv.len() as int)[0] == sv[k]);
            }
            out.push(o);
            proof {
                assert(sv.take(k + 1) =~= sv.take(k).push(sv[k]));
                assert(rest@ =~= sv.subrange(k + 1, sv.len() as int));
            }
        }
        proof {
            assert(sv.take(sv.len() as int) =~= sv);
            assert(counters_sorted(sv));
        }
        Ok(out)
    } else {
        Err(errors)
    }
}

/// The marker that takes the place of a transcluded subnode.
pub open spec fn marker_html(identifier: Seq<char>, counter: u32) -> Seq<char> {
    "<wb-transclude identifier=\""@ + identifier + "\" counter=\""@ + decimal_text(counter)
        + "\"></wb-transclude>"@
}

/// The `wb-transclude` element that takes the place of a transcluded
/// subnode.
pub fn transclusion_marker(identifier: &str, counter: u32) -> (r: String)
    ensures
        r@ == marker_html(identifier@, counter),
{
    let r = String::from_str("<wb-transclude identifier=\"");
    let r = r.concat(identifier);
    let r = r.concat("\" counter=\"");
    let r = r.concat(crate::extract::u32_text(counter).as_str());
    r.concat("\"></wb-transclude>")
}

/// The transclusion counters in use: those of the `wb-transclude` elements
/// that are numbers, and those that metadata is kept for.
pub open spec fn used_counters(
    markers: Seq<(Option<Seq<char>>, Option<Seq<char>>)>,
    keys: Seq<u32>,
) -> Set<u32> {
    Set::new(
        |c: u32|
            keys.contains(c) || exists|i: int|
                0 <= i < markers.len() && (#[trigger] markers[i]).1 is Some && decimal_u32(markers[i].1->Some_0) == Some(c),
    )
}

/// The first counter above every transclusion counter in use (0 when none
/// is), or `None` when the largest one in use is the largest `u32`.
pub fn first_free_counter(markers: &Vec<(Option<String>, Option<String>)>, keys: &Vec<u32>) -> (r: Option<u32>)
    ensures
        ({
            let used = used_counters(markers@.map_values(|p: (Option<String>, Option<String>)| crate::html::pair_view(p)), keys@);
            match r {
                Some(n) => (forall|c: u32| #[trigger] used.contains(c) ==> c < n) && (n == 0 || used.contains((n - 1) as u32)),
                None => used.contains(u32::MAX),
            }
        }),
{
    let ghost mv = markers@.map_values(|p: (Option<String>, Option<String>)| crate::html::pair_view(p));
    let ghost used = used_counters(mv, keys@);
    let mut best: Option<u32> = None;
    let mut i: usize = 0;
    while i < markers.len()
        invariant
            mv == markers@.map_values(|p: (Option<String>, Option<String>)| crate::html::pair_view(p)),
            used == used_counters(mv, keys@),
            0 <= i <= markers@.len(),
            match best {
                Some(b) => used.contains(b) && forall|q: int|
                    0 <= q < i && (#[trigger] mv[q]).1 is Some && decimal_u32(mv[q].1->Some_0) is Some
                        ==> decimal_u32(mv[q].1->Some_0)->Some_0 <= b,
                None => forall|q: int| 0 <= q < i ==> !((#[trigger] mv[q]).1 is Some && decimal_u32(mv[q].1->Some_0) is Some),
            },
        decreases markers@.len() - i,
    {
        proof {
            assert(mv[i as int] == crate::html::pair_view(markers@[i as int]));
        }
        match &markers[i].1 {
            Some(c) => match parse_u32(c.as_str()) {
                Some(n) => {
                    proof {
                        assert(mv[i as int].1 is Some && decimal_u32(mv[i as int].1->Some_0) == Some(n));
                        assert(used.contains(n));
                    }
                    best = match best {
                        Some(b) => if n > b { Some(n) } else { Some(b) },
                        None => Some(n),
                    };
                },
                None => {},
            },
            None => {},
        }
        i = i + 1;
    }
    let mut j: usize = 0;
    while j < keys.len()
        invariant
            mv == markers@.map_values(|p: (Option<String>, Option<String>)| crate::html::pair_view(p)),
            used == used_counters(mv, keys@),
            0 <= j <= keys@.len(),
            match best {
                Some(b) => used.contains(b) && (forall|q: int|
                    0 <= q < mv.len() && (#[trigger] mv[q]).1 is Some && decimal_u32(mv[q].1->Some_0) is Some
                        ==> decimal_u32(mv[q].1->Some_0)->Some_0 <= b) && forall|q: int| 0 <= q < j ==> #[trigger] keys@[q] <= b,
                None => (forall|q: int| 0 <= q < mv.len() ==> !((#[trigger] mv[q]).1 is Some && decimal_u32(mv[q].1->Some_0) is Some))
                    && j == 0,
            },
        decreases keys@.len() - j,
    {
        let n = keys[j];
        proof {
            assert(keys@.contains(n));
            assert(used.contains(n));
        }
        best = match best {
            Some(b) => if n > b { Some(n) } else { Some(b) },
            None => Some(n),
        };
        j = j + 1;
    }
    proof {
        match best {
            Some(b) => {
                assert forall|c: u32| #[trigger] used.contains(c) implies c <= b by {
                    if keys@.contains(c) {
                        let q = choose|q: int| 0 <= q < keys@.len() && keys@[q] == c;
                    } else {
                        let q = choose|q: int|
                            0 <= q < mv.len() && (#[trigger] mv[q]).1 is Some && decimal_u32(mv[q].1->Some_0) == Some(c);
                    }
                }
            },
            None => {
                assert(used =~= Set::<u32>::empty()) by {
                    assert forall|c: u32| !used.contains(c) by {
                        if keys@.contains(c) {
                            let q = choose|q: int| 0 <= q < keys@.len() && keys@[q] == c;
                        }
                    }
                }
            },
        }
    }
    match best {
        None => Some(0),
        Some(b) => if b == u32::MAX { None } else { Some(b + 1) },
    }
}

/// The attributes of a `wb-transclude` element, as read.
pub open spec fn transclude_pair(t: TranscludeAttrs) -> (Option<Seq<char>>, Option<Seq<char>>) {
    (crate::html::opt_view(t.identifier), crate::html::opt_view(t.counter))
}

/// The attributes of an `a` element, as read.
pub open spec fn anchor_pair(a: AnchorAttrs) -> (Option<Seq<char>>, Option<Seq<char>>) {
    (crate::html::opt_view(a.href), crate::html::opt_view(a.counter))
}

/// What reading the element at `index` among those with tag `tag` in
/// `html` gives, and the document after it: the element's `counter` and
/// `identifier` attributes, the `identifier` and `counter` of the
/// `wb-transclude` elements inside it and the `href` and `data-counter` of
/// its `a` elements; when its first child element is a `wb-title`, the
/// HTML and the text of that child as its title, and the document without
/// that child; and the HTML inside the element in the document that
/// results.
pub open spec fn node_element_read(
    html: Seq<char>,
    tag: Seq<char>,
    index: usize,
    e: NodeElement,
    after: Seq<char>,
) -> bool {
    &&& crate::html::opt_view(e.counter) == element_attribute(html, tag, index, "counter"@)
    &&& crate::html::opt_view(e.identifier) == element_attribute(html, tag, index, "identifier"@)
    &&& e.transcludes@.map_values(|t: TranscludeAttrs| transclude_pair(t)) == element_inner_pairs(
        html,
        tag,
        index,
        "wb-transclude"@,
        "identifier"@,
        "counter"@,
    )
    &&& e.anchors@.map_values(|a: AnchorAttrs| anchor_pair(a)) == element_inner_pairs(
        html,
        tag,
        index,
        "a"@,
        "href"@,
        "data-counter"@,
    )
    &&& if first_child_tagged(html, tag, index, "wb-title"@) {
        &&& e.title matches Some((t, tt)) && t@ == first_child_html(html, tag, index) && tt@ == first_child_content(
            html,
            tag,
            index,
        )
        &&& after == without_first_child(html, tag, index)
    } else {
        &&& e.title is None
        &&& after == html
    }
    &&& e.body_html@ == element_html(after, tag, index)
}

/// Reads a node element: the one at `index` among the elements with tag
/// `tag`. Its title, when it has one, is taken out of the document, which
/// is returned beside the element (see [`node_element_read`]).
fn read_node_element(html: &str, tag: &str, index: usize) -> (r: (NodeElement, String))
    requires
        is_tag_name(tag@),
    ensures
        node_element_read(html@, tag@, index, r.0, r.1@),
{
    let counter_attr = "counter";
    let identifier_attr = "identifier";
    let marker_tag = "wb-transclude";
    let anchor_tag = "a";
    let href_attr = "href";
    let data_counter_attr = "data-counter";
    let title_tag = "wb-title";
    proof {
        reveal_strlit("wb-transclude");
        reveal_strlit("a");
    }
    let counter = html_attribute(html, tag, index, counter_attr);
    let identifier = html_attribute(html, tag, index, identifier_attr);
    let pairs = html_inner_pairs(html, tag, index, marker_tag, identifier_attr, counter_attr);
    let ghost pv = pairs@.map_values(|p: (Option<String>, Option<String>)| crate::html::pair_view(p));
    proof {
        assert(pv.subrange(0, pv.len() as int) =~= pv);
        assert(pv.take(0) =~= Seq::<(Option<Seq<char>>, Option<Seq<char>>)>::empty());
    }
    let mut rest = pairs;
    let mut transcludes: Vec<TranscludeAttrs> = Vec::new();
    while rest.len() > 0
        invariant
            transcludes@.len() + rest@.len() == pv.len(),
            rest@.map_values(|p: (Option<String>, Option<String>)| crate::html::pair_view(p)) == pv.subrange(
                transcludes@.len() as int,
                pv.len() as int,
            ),
            transcludes@.map_values(|t: TranscludeAttrs| transclude_pair(t)) == pv.take(transcludes@.len() as int),
        decreases rest@.len(),
    {
        let ghost k = transcludes@.len() as int;
        let ghost first = crate::html::pair_view(rest@[0]);
        let ghost old_rest = rest@;
        proof {
            assert(rest@.map_values(|p: (Option<String>, Option<String>)| crate::html::pair_view(p))[0] == first);
        }
        let (identifier, counter) = rest.remove(0);
        transcludes.push(TranscludeAttrs { identifier, counter });
        proof {
            assert(pv[k] == first);
            assert(pv.take(k + 1) =~= pv.take(k).push(pv[k]));
            assert(transcludes@.map_values(|t: TranscludeAttrs| transclude_pair(t)) =~= pv.take(k + 1));
            assert forall|j: int| 0 <= j < rest@.len() implies crate::html::pair_view(#[trigger] rest@[j]) == pv[k + 1 + j] by {
                assert(rest@[j] == old_rest[j + 1]);
                assert(old_rest.map_values(|p: (Option<String>, Option<String>)| crate::html::pair_view(p))[j + 1] == pv.subrange(
                    k,
                    pv.len() as int,
                )[j + 1]);
            }
            assert(rest@.map_values(|p: (Option<String>, Option<String>)| crate::html::pair_view(p)) =~= pv.subrange(
                k + 1,
                pv.len() as int,
            ));
        }
    }
    proof {
        assert(pv.take(pv.len() as int) =~= pv);
    }
    let pairs = html_inner_pairs(html, tag, index, anchor_tag, href_attr, data_counter_attr);
    let ghost av = pairs@.map_values(|p: (Option<String>, Option<String>)| crate::html::pair_view(p));
    proof {
        assert(av.subrange(0, av.len() as int) =~= av);
        assert(av.take(0) =~= Seq::<(Option<Seq<char>>, Option<Seq<char>>)>::empty());
    }
    let mut rest = pairs;
    let mut anchors: Vec<AnchorAttrs> = Vec::new();
    while rest.len() > 0
        invariant
            anchors@.len() + rest@.len() == av.len(),
            rest@.map_values(|p: (Option<String>, Option<String>)| crate::html::pair_view(p)) == av.subrange(
                anchors@.len() as int,
                av.len() as int,
            ),
            anchors@.map_values(|a: AnchorAttrs| anchor_pair(a)) == av.take(anchors@.len() as int),
        decreases rest@.len(),
    {
        let ghost k = anchors@.len() as int;
        let ghost first = crate::html::pair_view(rest@[0]);
        let ghost old_rest = rest@;
        proof {
            assert(rest@.map_values(|p: (Option<String>, Option<String>)| crate::html::pair_view(p))[0] == first);
        }
        let (href, counter) = rest.remove(0);
        anchors.push(AnchorAttrs { href, counter });
        proof {
            assert(av[k] == first);
            assert(av.take(k + 1) =~= av.take(k).push(av[k]));
            assert(anchors@.map_values(|a: AnchorAttrs| anchor_pair(a)) =~= av.take(k + 1));
            assert forall|j: int| 0 <= j < rest@.len() implies crate::html::pair_view(#[trigger] rest@[j]) == av[k + 1 + j] by {
                assert(rest@[j] == old_rest[j + 1]);
                assert(old_rest.map_values(|p: (Option<String>, Option<String>)| crate::html::pair_view(p))[j + 1] == av.subrange(
                    k,
                    av.len() as int,
                )[j + 1]);
            }
            assert(rest@.map_values(|p: (Option<String>, Option<String>)| crate::html::pair_view(p)) =~= av.subrange(
                k + 1,
                av.len() as int,
            ));
        }
    }
    proof {
        assert(av.take(av.len() as int) =~= av);
    }
    let (title, after) = if html_first_child_is(html, tag, index, title_tag) {
        let inner = html_first_child_inner(html, tag, index);
        let text = html_first_child_text(html, tag, index);
        let after = html_remove_first_child(html, tag, index);
        (Some((inner, text)), after)
    } else {
        (None, String::from_str(html))
    };
    let body_html = html_inner(after.as_str(), tag, index);
    (NodeElement { counter, identifier, transcludes, anchors, title, body_html }, after)
}

/// The error when transclusion counters run out.
pub open spec fn overflow_view() -> ExtractErrorView {
    ExtractErrorView { span: None, message: "transclusion counter overflow"@ }
}

/// The error for a file without a `wb-node`.
pub open spec fn no_node_view() -> ExtractErrorView {
    ExtractErrorView { span: None, message: "source file produced no wb-node"@ }
}

/// The error for each `wb-node` after the first, with its span.
pub open spec fn multiple_nodes_view(span: Option<u64>) -> ExtractErrorView {
    ExtractErrorView { span, message: "source file produced multiple wb-node elements"@ }
}

/// What the `transclude` attribute of a subnode gives: `true` or `false`,
/// or the error for a missing or other value.
pub open spec fn transclude_outcome(value: Option<Seq<char>>, span: Option<u64>) -> Result<bool, ExtractErrorView> {
    match value {
        None => Err(ExtractErrorView { span, message: "wb-subnode is missing the transclude attribute"@ }),
        Some(v) => if v == "true"@ {
            Ok(true)
        } else if v == "false"@ {
            Ok(false)
        } else {
            Err(
                ExtractErrorView {
                    span: None,
                    message: "wb-subnode has invalid transclude value: "@ + crate::diagnostics::debug_str(v),
                },
            )
        },
    }
}

/// The transclusion counters in use in `html` and its metadata: those of
/// the `wb-transclude` elements that are numbers, and `transclusion`.
pub open spec fn counters_in_use(html: Seq<char>, transclusion: Set<u32>) -> Set<u32> {
    let markers = tagged_attributes(html, "wb-transclude"@, "identifier"@, "counter"@);
    Set::new(
        |c: u32|
            transclusion.contains(c) || exists|i: int|
                0 <= i < markers.len() && (#[trigger] markers[i]).1 is Some && decimal_u32(markers[i].1->Some_0) == Some(c),
    )
}

/// `n` is above every counter in `used` and is 0 or one past a counter in
/// `used`.
pub open spec fn just_above(used: Set<u32>, n: u32) -> bool {
    (forall|c: u32| #[trigger] used.contains(c) ==> c < n) && (n == 0 || used.contains((n - 1) as u32))
}

/// The first counter above every counter in `used` (0 when it is empty),
/// or none when `used` holds the largest `u32`.
pub open spec fn first_free(used: Set<u32>) -> Option<u32> {
    if used.contains(u32::MAX) {
        None
    } else {
        Some(choose|n: u32| #[trigger] just_above(used, n))
    }
}

/// Where an extraction stands between steps: the document, the metadata
/// not yet claimed, the node counters seen, the errors, the nodes
/// extracted with their counters, and the next free transclusion counter.
pub struct ExtractState {
    pub doc: Seq<char>,
    pub metadata: MetadataMaps,
    pub seen: Set<u32>,
    pub errors: Seq<ExtractErrorView>,
    pub nodes: Seq<(u32, NodeOutput)>,
    pub synthetic: u32,
}

/// What follows extracting subnode `k` of `pre`, read as `after` and giving
/// `r`, `md1`, `seen1` and `errors1`: nothing more when no node came out;
/// otherwise its `transclude` attribute decides: an error is recorded, or
/// the subnode is taken out, or (when a counter is free, else the
/// extraction stops with `overflow`) it is replaced by a marker with the
/// next free counter, which carries the node's metadata as transclusion
/// metadata when there is any.
pub open spec fn subnode_outcome(
    k: usize,
    pre: ExtractState,
    after: Seq<char>,
    r: Option<(u32, NodeOutput)>,
    md1: MetadataMaps,
    seen1: Set<u32>,
    errors1: Seq<ExtractErrorView>,
    post: ExtractState,
    overflow: bool,
) -> bool {
    match r {
        None => !overflow && post == (ExtractState {
            doc: after,
            metadata: md1,
            seen: seen1,
            errors: errors1,
            nodes: pre.nodes,
            synthetic: pre.synthetic,
        }),
        Some(found) => match transclude_outcome(element_attribute(after, "wb-subnode"@, k, "transclude"@), found.1.node.span) {
            Err(ev) => !overflow && post == (ExtractState {
                doc: after,
                metadata: md1,
                seen: seen1,
                errors: errors1.push(ev),
                nodes: pre.nodes,
                synthetic: pre.synthetic,
            }),
            Ok(false) => !overflow && post == (ExtractState {
                doc: without_element(after, "wb-subnode"@, k),
                metadata: md1,
                seen: seen1,
                errors: errors1,
                nodes: pre.nodes.push(found),
                synthetic: pre.synthetic,
            }),
            Ok(true) => if pre.synthetic == u32::MAX {
                overflow && post.errors == errors1.push(overflow_view())
            } else {
                &&& !overflow
                &&& post.doc == with_element_replaced(
                    after,
                    "wb-subnode"@,
                    k,
                    marker_html(found.1.identifier@, pre.synthetic),
                )
                &&& post.metadata.node == md1.node
                &&& post.metadata.link == md1.link
                &&& if found.1.node.node_metadata@.is_empty() {
                    post.metadata.transclusion == md1.transclusion
                } else {
                    exists|m: Metadata|
                        m@ == found.1.node.node_metadata@ && post.metadata.transclusion@
                            == #[trigger] md1.transclusion@.insert(pre.synthetic, m)
                }
                &&& post.seen == seen1
                &&& post.errors == errors1
                &&& post.nodes == pre.nodes.push(found)
                &&& post.synthetic == pre.synthetic + 1
            },
        },
    }
}

/// One subnode step: subnode `k` of `pre`'s document is read and extracted
/// (see [`node_element_read`] and [`node_content_result`]), and
/// [`subnode_outcome`] says what follows.
pub open spec fn subnode_step(
    spans: Map<u32, Option<u64>>,
    k: usize,
    pre: ExtractState,
    post: ExtractState,
    overflow: bool,
) -> bool {
    exists|e: NodeElement, after: Seq<char>, r: Option<(u32, NodeOutput)>, md1: MetadataMaps, seen1: Set<u32>, errors1: Seq<ExtractErrorView>|
        #![trigger node_element_read(pre.doc, "wb-subnode"@, k, e, after), node_content_result(e, true, spans, pre.metadata, pre.seen, pre.errors, r, md1, seen1, errors1)]
        node_element_read(pre.doc, "wb-subnode"@, k, e, after) && node_content_result(
            e,
            true,
            spans,
            pre.metadata,
            pre.seen,
            pre.errors,
            r,
            md1,
            seen1,
            errors1,
        ) && subnode_outcome(k, pre, after, r, md1, seen1, errors1, post, overflow)
}

/// The subnode steps of an extraction over `count` subnodes, deepest (last)
/// first: each state of `trace` follows from the one before; all steps are
/// taken unless the last one stopped on an overflow (`stopped`).
pub open spec fn subnodes_run(
    spans: Map<u32, Option<u64>>,
    count: usize,
    trace: Seq<ExtractState>,
    stopped: bool,
) -> bool {
    &&& 1 <= trace.len() <= count + 1
    &&& stopped ==> trace.len() >= 2
    &&& !stopped ==> trace.len() == count + 1
    &&& forall|i: int|
        #![trigger trace[i]]
        0 <= i < trace.len() - 1 ==> subnode_step(
            spans,
            (count - 1 - i) as usize,
            trace[i],
            trace[i + 1],
            stopped && i == trace.len() - 2,
        )
}

/// The span of the `wb-node` at `j` in `doc`, by its counter.
pub open spec fn extra_span(doc: Seq<char>, spans: Map<u32, Option<u64>>, j: usize) -> Option<u64> {
    match element_attribute(doc, "wb-node"@, j, "counter"@) {
        Some(c) => match decimal_u32(c) {
            Some(n) => if spans.contains_key(n) {
                spans[n]
            } else {
                None
            },
            None => None,
        },
        None => None,
    }
}

/// The `wb-node` step after the subnodes, from `pre` to the nodes, the
/// metadata and the errors handed to [`finish_extraction`]: without a
/// `wb-node`, an error; otherwise the first is read and extracted, and each
/// further one is an error with its span.
pub open spec fn root_phase(
    spans: Map<u32, Option<u64>>,
    pre: ExtractState,
    nodes: Seq<(u32, NodeOutput)>,
    metadata: MetadataMaps,
    errors: Seq<ExtractErrorView>,
) -> bool {
    let count = tag_count(pre.doc, "wb-node"@);
    if count == 0 {
        nodes == pre.nodes && metadata == pre.metadata && errors == pre.errors.push(no_node_view())
    } else {
        exists|e: NodeElement, after: Seq<char>, r: Option<(u32, NodeOutput)>, md1: MetadataMaps, seen1: Set<u32>, errors1: Seq<ExtractErrorView>|
            #![trigger node_element_read(pre.doc, "wb-node"@, 0, e, after), node_content_result(e, false, spans, pre.metadata, pre.seen, pre.errors, r, md1, seen1, errors1)]
            node_element_read(pre.doc, "wb-node"@, 0, e, after) && node_content_result(
                e,
                false,
                spans,
                pre.metadata,
                pre.seen,
                pre.errors,
                r,
                md1,
                seen1,
                errors1,
            ) && nodes == (match r {
                Some(f) => pre.nodes.push(f),
                None => pre.nodes,
            }) && metadata == md1 && errors == errors1 + Seq::new(
                (count - 1) as nat,
                |j: int| multiple_nodes_view(extra_span(pre.doc, spans, (j + 1) as usize)),
            )
    }
}

/// The error when transclusion counters run out.
fn counter_overflow() -> (e: ExtractError)
    ensures
        e@ == (ExtractErrorView { span: None, message: "transclusion counter overflow"@ }),
{
    ExtractError { span: None, message: String::from_str("transclusion counter overflow") }
}

/// What extracting the nodes of `html` gives (see [`extract`]), from the
/// spans `spans` of its node elements and its metadata `metadata`.
pub open spec fn extract_outcome(
    html: Seq<char>,
    spans: Map<u32, Option<u64>>,
    metadata: MetadataMaps,
    r: Result<Vec<NodeOutput>, Vec<ExtractError>>,
) -> bool {
    match first_free(counters_in_use(html, metadata.transclusion@.dom())) {
        None => r matches Err(errors) && errors_view(errors@) == seq![overflow_view()],
        Some(n0) => exists|trace: Seq<ExtractState>, stopped: bool|
            #![trigger subnodes_run(spans, tag_count(html, "wb-subnode"@), trace, stopped)]
            {
                &&& trace[0] == (ExtractState {
                    doc: html,
                    metadata,
                    seen: Set::empty(),
                    errors: Seq::empty(),
                    nodes: Seq::empty(),
                    synthetic: n0,
                })
                &&& subnodes_run(spans, tag_count(html, "wb-subnode"@), trace, stopped)
                &&& if stopped {
                    r matches Err(errors) && errors_view(errors@) == trace.last().errors
                } else {
                    exists|nodes: Seq<(u32, NodeOutput)>, md: MetadataMaps, errors: Seq<ExtractErrorView>|
                        #![trigger root_phase(spans, trace.last(), nodes, md, errors)]
                        root_phase(spans, trace.last(), nodes, md, errors) && finish_result(nodes, md, errors, r)
                }
            },
    }
}

/// Extracts the nodes of a file's HTML, given the spans of its node
/// elements and its metadata. Subnodes are extracted deepest first; a
/// transcluded subnode leaves a `wb-transclude` element with a fresh
/// counter (above every counter in use) in its place, carrying its node
/// metadata as transclusion metadata, and any other subnode is taken out.
/// Then the `wb-node` is extracted; a file without one, or with more than
/// one, is an error. The extraction ends as [`finish_extraction`] says:
/// any error, unclaimed metadata included, makes the result `Err` with all
/// of them. A node counter without a span is reported as a bug error (see
/// [`extract_node_content`]) rather than stopping the program.
pub fn extract(html: &str, spans: &HashMap<u32, Option<u64>>, metadata: MetadataMaps) -> (r: Result<
    Vec<NodeOutput>,
    Vec<ExtractError>,
>)
    ensures
        extract_outcome(html@, spans@, metadata, r),
        r matches Err(errors) ==> errors@.len() > 0,
{
    let ghost md_in = metadata;
    let mut meta = metadata;
    let mut errors: Vec<ExtractError> = Vec::new();
    let marker_tag = "wb-transclude";
    let subnode_tag = "wb-subnode";
    let node_tag = "wb-node";
    let transclude_attr = "transclude";
    let counter_attr = "counter";
    proof {
        reveal_strlit("wb-transclude");
        reveal_strlit("wb-subnode");
        reveal_strlit("wb-node");
        reveal_strlit("transclude");
        reveal_strlit("counter");
        reveal_strlit("identifier");
    }
    let markers = attribute_pairs(html, marker_tag, "identifier", counter_attr);
    let keys = map_keys(&meta.transclusion);
    let free = first_free_counter(&markers, &keys);
    let ghost used = counters_in_use(html@, md_in.transclusion@.dom());
    proof {
        let mv = markers@.map_values(|p: (Option<String>, Option<String>)| crate::html::pair_view(p));
        assert(used_counters(mv, keys@) =~= used) by {
            assert forall|c: u32| keys@.contains(c) <==> md_in.transclusion@.dom().contains(c) by {
                assert(keys@.contains(c) <==> keys@.to_set().contains(c));
            }
        }
        lemma_first_free(used, free);
    }
    let mut synthetic = match free {
        Some(n) => n,
        None => {
            errors.push(counter_overflow());
            proof {
                assert(errors_view(errors@) =~= seq![overflow_view()]);
            }
            return Err(errors);
        },
    };
    let mut doc = String::from_str(html);
    let mut nodes: Vec<(u32, NodeOutput)> = Vec::new();
    let mut seen: HashSet<u32> = HashSet::new();
    let mut k = html_tag_count(doc.as_str(), subnode_tag);
    let ghost count = k;
    let ghost init = ExtractState {
        doc: html@,
        metadata: md_in,
        seen: Set::empty(),
        errors: Seq::empty(),
        nodes: Seq::empty(),
        synthetic,
    };
    let ghost mut trace: Seq<ExtractState> = seq![init];
    proof {
        assert(errors_view(errors@) =~= Seq::<ExtractErrorView>::empty());
        assert(seen@ =~= Set::<u32>::empty());
    }
    while k > 0
        invariant
            subnode_tag@ == "wb-subnode"@,
            transclude_attr@ == "transclude"@,
            is_tag_name(subnode_tag@),
            count == tag_count(html@, "wb-subnode"@),
            md_in == metadata,
            init == (ExtractState {
                doc: html@,
                metadata: md_in,
                seen: Set::empty(),
                errors: Seq::empty(),
                nodes: Seq::empty(),
                synthetic: init.synthetic,
            }),
            first_free(counters_in_use(html@, md_in.transclusion@.dom())) == Some(init.synthetic),
            k <= count,
            trace.len() == count - k + 1,
            trace[0] == init,
            forall|i: int|
                #![trigger trace[i]]
                0 <= i < trace.len() - 1 ==> subnode_step(
                    spans@,
                    (count - 1 - i) as usize,
                    trace[i],
                    trace[i + 1],
                    false,
                ),
            trace.last() == (ExtractState {
                doc: doc@,
                metadata: meta,
                seen: seen@,
                errors: errors_view(errors@),
                nodes: nodes@,
                synthetic,
            }),
        decreases k,
    {
        k = k - 1;
        let ghost pre = trace.last();
        let ghost i0 = trace.len() - 1;
        assert((count - 1 - i0) as usize == k);
        let (element, after) = read_node_element(doc.as_str(), subnode_tag, k);
        let ghost e = element;
        let ghost after_v = after@;
        doc = after;
        let res = extract_node_content(element, true, spans, &mut meta, &mut seen, &mut errors);
        let ghost md1 = meta;
        let ghost seen1 = seen@;
        let ghost errs1 = errors_view(errors@);
        let ghost gres = res;
        proof {
            assert(node_element_read(pre.doc, "wb-subnode"@, k, e, after_v));
            assert(node_content_result(e, true, spans@, pre.metadata, pre.seen, pre.errors, gres, md1, seen1, errs1));
        }
        let (counter, output) = match res {
            Some(found) => found,
            None => {
                proof {
                    let post = ExtractState {
                        doc: after_v,
                        metadata: md1,
                        seen: seen1,
                        errors: errs1,
                        nodes: pre.nodes,
                        synthetic: pre.synthetic,
                    };
                    assert(subnode_outcome(k, pre, after_v, gres, md1, seen1, errs1, post, false));
                    assert(subnode_step(spans@, k, pre, post, false));
                    trace = trace.push(post);
                    assert(trace[i0] == pre);
                }
                continue;
            },
        };
        let value = html_attribute(doc.as_str(), subnode_tag, k, transclude_attr);
        let flag = match &value {
            Some(v) => transclude_flag(Some(v.as_str()), output.node.span),
            None => transclude_flag(None, output.node.span),
        };
        let ghost outcome = transclude_outcome(element_attribute(after_v, "wb-subnode"@, k, "transclude"@), output.node.span);
        let transclude = match flag {
            Ok(b) => b,
            Err(err) => {
                let ghost ev = err@;
                errors.push(err);
                proof {
                    assert(outcome == Err::<bool, ExtractErrorView>(ev));
                    let post = ExtractState {
                        doc: after_v,
                        metadata: md1,
                        seen: seen1,
                        errors: errs1.push(ev),
                        nodes: pre.nodes,
                        synthetic: pre.synthetic,
                    };
                    assert(errors_view(errors@) =~= errs1.push(ev));
                    assert(subnode_outcome(k, pre, after_v, gres, md1, seen1, errs1, post, false));
                    assert(subnode_step(spans@, k, pre, post, false));
                    trace = trace.push(post);
                    assert(trace[i0] == pre);
                }
                continue;
            },
        };
        proof {
            assert(outcome == Ok::<bool, ExtractErrorView>(transclude));
        }
        let ghost found = (counter, output);
        if transclude {
            let marker_counter = synthetic;
            if synthetic == u32::MAX {
                errors.push(counter_overflow());
                proof {
                    let post = ExtractState {
                        doc: after_v,
                        metadata: md1,
                        seen: seen1,
                        errors: errs1.push(overflow_view()),
                        nodes: pre.nodes,
                        synthetic: pre.synthetic,
                    };
                    assert(errors_view(errors@) =~= errs1.push(overflow_view()));
                    assert(subnode_outcome(k, pre, after_v, gres, md1, seen1, errs1, post, true));
                    assert(subnode_step(spans@, k, pre, post, true));
                    let t2 = trace.push(post);
                    assert(t2[i0] == pre);
                    assert forall|i: int| #![trigger t2[i]] 0 <= i < t2.len() - 1 implies subnode_step(
                        spans@,
                        (count - 1 - i) as usize,
                        t2[i],
                        t2[i + 1],
                        true && i == t2.len() - 2,
                    ) by {
                        if i < t2.len() - 2 {
                            assert(t2[i] == trace[i] && t2[i + 1] == trace[i + 1]);
                        }
                    }
                    assert(subnodes_run(spans@, count, t2, true));
                    assert(t2[0] == init);
                }
                return Err(errors);
            }
            synthetic = synthetic + 1;
            let ghost md_before = meta;
            if !output.node.node_metadata.is_empty() {
                let copy = output.node.node_metadata.clone();
                meta.transclusion.insert(marker_counter, copy);
            }
            let marker = transclusion_marker(output.identifier.as_str(), marker_counter);
            doc = html_replace(doc.as_str(), subnode_tag, k, marker.as_str());
            nodes.push((counter, output));
            proof {
                let post = ExtractState {
                    doc: doc@,
                    metadata: meta,
                    seen: seen@,
                    errors: errors_view(errors@),
                    nodes: nodes@,
                    synthetic,
                };
                assert(nodes@ == pre.nodes.push(found));
                assert(subnode_outcome(k, pre, after_v, gres, md1, seen1, errs1, post, false));
                assert(subnode_step(spans@, k, pre, post, false));
                trace = trace.push(post);
                assert(trace[i0] == pre);
            }
        } else {
            doc = html_remove(doc.as_str(), subnode_tag, k);
            nodes.push((counter, output));
            proof {
                let post = ExtractState {
                    doc: doc@,
                    metadata: meta,
                    seen: seen@,
                    errors: errors_view(errors@),
                    nodes: nodes@,
                    synthetic,
                };
                assert(nodes@ == pre.nodes.push(found));
                assert(subnode_outcome(k, pre, after_v, gres, md1, seen1, errs1, post, false));
                assert(subnode_step(spans@, k, pre, post, false));
                trace = trace.push(post);
                assert(trace[i0] == pre);
            }
        }
    }
    let ghost mid = trace.last();
    proof {
        assert(subnodes_run(spans@, count, trace, false));
    }
    let node_count = html_tag_count(doc.as_str(), node_tag);
    if node_count == 0 {
        errors.push(ExtractError { span: None, message: String::from_str("source file produced no wb-node") });
        proof {
            assert(errors_view(errors@) =~= mid.errors.push(no_node_view()));
            assert(root_phase(spans@, mid, nodes@, meta, errors_view(errors@)));
        }
    } else {
        let mut extra_spans: Vec<Option<u64>> = Vec::new();
        let mut j: usize = 1;
        while j < node_count
            invariant
                node_tag@ == "wb-node"@,
                counter_attr@ == "counter"@,
                is_tag_name(node_tag@),
                1 <= j <= node_count,
                extra_spans@ =~= Seq::new((j - 1) as nat, |i: int| extra_span(doc@, spans@, (i + 1) as usize)),
            decreases node_count - j,
        {
            let span = match html_attribute(doc.as_str(), node_tag, j, counter_attr) {
                Some(c) => match parse_u32(c.as_str()) {
                    Some(n) => match spans.get(&n) {
                        Some(Some(s)) => Some(*s),
                        _ => None,
                    },
                    None => None,
                },
                None => None,
            };
            proof {
                assert(span == extra_span(doc@, spans@, j));
            }
            extra_spans.push(span);
            j = j + 1;
        }
        let (element, _after) = read_node_element(doc.as_str(), node_tag, 0);
        let ghost e = element;
        let ghost after_v = _after@;
        let res = extract_node_content(element, false, spans, &mut meta, &mut seen, &mut errors);
        let ghost gres = res;
        let ghost errs1 = errors_view(errors@);
        proof {
            assert(node_element_read(mid.doc, "wb-node"@, 0, e, after_v));
            assert(node_content_result(e, false, spans@, mid.metadata, mid.seen, mid.errors, gres, meta, seen@, errs1));
        }
        match res {
            Some(found) => nodes.push(found),
            None => {},
        }
        let mut i: usize = 0;
        while i < extra_spans.len()
            invariant
                0 <= i <= extra_spans@.len(),
                errors_view(errors@) == errs1 + extra_spans@.take(i as int).map_values(|sp: Option<u64>| multiple_nodes_view(sp)),
            decreases extra_spans.len() - i,
        {
            let ghost before = errors_view(errors@);
            errors.push(
                ExtractError { span: extra_spans[i], message: String::from_str("source file produced multiple wb-node elements") },
            );
            proof {
                assert(extra_spans@.take(i + 1) =~= extra_spans@.take(i as int).push(extra_spans@[i as int]));
                assert(errors_view(errors@) =~= before.push(multiple_nodes_view(extra_spans@[i as int])));
                assert(errors_view(errors@) =~= errs1 + extra_spans@.take(i + 1).map_values(|sp: Option<u64>| multiple_nodes_view(sp)));
            }
            i = i + 1;
        }
        proof {
            assert(extra_spans@.take(extra_spans@.len() as int) =~= extra_spans@);
            assert(errors_view(errors@) =~= errs1 + Seq::new(
                (node_count - 1) as nat,
                |j: int| multiple_nodes_view(extra_span(mid.doc, spans@, (j + 1) as usize)),
            ));
            assert(root_phase(spans@, mid, nodes@, meta, errors_view(errors@)));
        }
    }
    let ghost fin_nodes = nodes@;
    let ghost fin_md = meta;
    let ghost fin_errors = errors_view(errors@);
    let r = finish_extraction(nodes, meta, errors);
    proof {
        assert(root_phase(spans@, trace.last(), fin_nodes, fin_md, fin_errors) && finish_result(fin_nodes, fin_md, fin_errors, r));
        assert(trace[0] == init);
    }
    r
}

/// The first free counter of `used`, as [`first_free_counter`] finds it.
proof fn lemma_first_free(used: Set<u32>, free: Option<u32>)
    requires
        match free {
            Some(n) => (forall|c: u32| #[trigger] used.contains(c) ==> c < n) && (n == 0 || used.contains((n - 1) as u32)),
            None => used.contains(u32::MAX),
        },
    ensures
        first_free(used) == free,
{
    if let Some(n) = free {
        assert(!used.contains(u32::MAX));
        assert(just_above(used, n));
        let m = choose|m: u32| #[trigger] just_above(used, m);
        if m < n {
            assert(used.contains((n - 1) as u32));
        } else if n < m {
            assert(used.contains((m - 1) as u32));
        }
    }
}

/// What compiling a file into HTML gave, read into the plain values that
/// extraction needs: the HTML, the elements of the HTML document in order,
/// and the metadata elements.
pub struct FileOutput {
    pub html: String,
    pub elements: Vec<ElementInfo>,
    pub items: Vec<MetadataItem>,
}

/// Extracts the nodes of a compiled file: collects the spans of its node
/// elements and its metadata; when that reports errors, they are the
/// result; otherwise the nodes are extracted (see [`extract`]).
pub fn extract_file(output: FileOutput) -> (r: Result<Vec<NodeOutput>, Vec<ExtractError>>)
    ensures
        ({
            let (spans, span_errors) = node_spans_upto(output.elements@, output.elements@.len());
            let (_, _, _, meta_errors) = metadata_upto(output.items@, spans.dom(), output.items@.len());
            let (node, transclusion, link, _) = metadata_upto(output.items@, spans.dom(), output.items@.len());
            &&& span_errors + meta_errors != Seq::<ExtractErrorView>::empty() ==> (r matches Err(errors)
                && errors_view(errors@) == span_errors + meta_errors)
            &&& span_errors + meta_errors == Seq::<ExtractErrorView>::empty() ==> exists|md: MetadataMaps|
                #![trigger extract_outcome(output.html@, spans, md, r)]
                md.node@ == node && md.transclusion@ == transclusion && md.link@ == link && extract_outcome(
                    output.html@,
                    spans,
                    md,
                    r,
                )
            &&& r matches Err(errors) ==> errors@.len() > 0
        }),
{
    let FileOutput { html, elements, items } = output;
    let (spans, mut span_errors) = collect_node_spans(&elements);
    let (node, transclusion, link, mut meta_errors) = collect_metadata(items, &spans);
    let ghost se = errors_view(span_errors@);
    let ghost me = errors_view(meta_errors@);
    span_errors.append(&mut meta_errors);
    proof {
        assert(errors_view(span_errors@) =~= se + me);
    }
    if span_errors.len() > 0 {
        return Err(span_errors);
    }
    proof {
        assert(errors_view(span_errors@).len() == 0);
        assert(se + me =~= Seq::<ExtractErrorView>::empty());
    }
    let md = MetadataMaps { node, transclusion, link };
    let ghost gmd = md;
    let r = extract(html.as_str(), &spans, md);
    proof {
        assert(extract_outcome(html@, spans@, gmd, r));
    }
    r
}

/// Whether a compiler warning is kept: all are but Typst's notice that its
/// HTML export is unfinished, which this tool relies on.
pub fn keep_warning(is_warning: bool, message: &str) -> (r: bool)
    ensures
        r == !(is_warning && message@ == "html export is under active development and incomplete"@),
{
    !(is_warning && crate::config::same_str(message, "html export is under active development and incomplete"))
}

} // verus!
