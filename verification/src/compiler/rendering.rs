use std::collections::HashMap;

use vstd::prelude::*;

use crate::compiler::{is_single, key_of, plan_outcome, Compiler, EntryView, Metadata, Node, RenderPlan};
use crate::process::RenderItem;
use crate::diagnostics::{is_sorted, sort_entries};
use crate::extract::{decimal_u32, link_target, parse_u32, strip_wb_prefix};
use crate::html::{attribute_pairs, pair_view, tagged_attributes};
use crate::interner::NodeId;
use crate::render::{
    entry_view, BackmatterInput, BackmatterNode, BodyInput, LinkInput, LinkView, NodeInput, Render,
    RenderFailure, ResolvedLink, ResolvedTransclusion, ResolvedTransclusionView, TargetView,
    TransclusionInput, TransclusionView,
};

verus! {

broadcast use vstd::std_specs::hash::group_hash_axioms;

/// What is shown of node `k` when it is defined exactly once.
pub open spec fn target_view(store: Map<u32, Seq<EntryView>>, k: u32) -> Option<TargetView> {
    if is_single(store, k) {
        let node = store[k][0].node;
        Some(TargetView { title: node.title@, title_text: node.title_text@, metadata: node.node_metadata })
    } else {
        None
    }
}

/// The anchors of a body: the `href` and `data-counter` of each `a`
/// element.
pub open spec fn body_anchors(html: Seq<char>) -> Seq<(Option<Seq<char>>, Option<Seq<char>>)> {
    tagged_attributes(html, "a"@, "href"@, "data-counter"@)
}

/// The transclusion markers of a body: the `identifier` and `counter` of
/// each `wb-transclude` element.
pub open spec fn body_transcludes(html: Seq<char>) -> Seq<(Option<Seq<char>>, Option<Seq<char>>)> {
    tagged_attributes(html, "wb-transclude"@, "identifier"@, "counter"@)
}

/// The metadata under counter `c`, if any.
pub open spec fn metadata_at(m: Map<u32, Metadata>, c: u32) -> Option<Metadata> {
    if m.contains_key(c) {
        Some(m[c])
    } else {
        None
    }
}

/// The link inputs of the first `k` anchors, by counter, a later anchor
/// replacing an earlier one with the same counter. Anchors whose address
/// does not start with `wb:` are passed over; a Weibian link without a
/// counter, with a counter that is not a number, or to a name that was
/// never interned leaves no input (`None`).
pub open spec fn body_links(
    anchors: Seq<(Option<Seq<char>>, Option<Seq<char>>)>,
    names: Seq<Seq<char>>,
    store: Map<u32, Seq<EntryView>>,
    meta: Map<u32, Metadata>,
    k: nat,
) -> Option<Map<u32, LinkView>>
    decreases k,
{
    if k == 0 {
        Some(Map::empty())
    } else {
        match body_links(anchors, names, store, meta, (k - 1) as nat) {
            None => None,
            Some(links) => {
                let (href, counter) = anchors[k - 1];
                let target = match href {
                    Some(h) => link_target(h),
                    None => None,
                };
                match target {
                    None => Some(links),
                    Some(id) => match counter {
                        None => None,
                        Some(c) => match decimal_u32(c) {
                            None => None,
                            Some(n) => if names.contains(id) {
                                Some(
                                    links.insert(
                                        n,
                                        LinkView {
                                            identifier: id,
                                            metadata: metadata_at(meta, n),
                                            resolution: target_view(store, key_of(names, id)),
                                        },
                                    ),
                                )
                            } else {
                                None
                            },
                        },
                    },
                }
            },
        }
    }
}

/// The transclusion inputs of the first `k` markers, by counter, a later
/// marker replacing an earlier one with the same counter. A marker without
/// an identifier or a counter, with a counter that is not a number, naming a
/// name that was never interned, or transcluding a defined node whose body
/// was not rendered leaves no input (`None`).
pub open spec fn body_transclusions<B>(
    markers: Seq<(Option<Seq<char>>, Option<Seq<char>>)>,
    names: Seq<Seq<char>>,
    store: Map<u32, Seq<EntryView>>,
    meta: Map<u32, Metadata>,
    bodies: Map<u32, B>,
    k: nat,
) -> Option<Map<u32, TransclusionView<B>>>
    decreases k,
{
    if k == 0 {
        Some(Map::empty())
    } else {
        match body_transclusions(markers, names, store, meta, bodies, (k - 1) as nat) {
            None => None,
            Some(found) => {
                let (identifier, counter) = markers[k - 1];
                match (identifier, counter) {
                    (Some(id), Some(c)) => match decimal_u32(c) {
                        None => None,
                        Some(n) => if !names.contains(id) {
                            None
                        } else {
                            let key = key_of(names, id);
                            match target_view(store, key) {
                                None => Some(
                                    found.insert(
                                        n,
                                        TransclusionView { metadata: metadata_at(meta, n), resolution: None },
                                    ),
                                ),
                                Some(t) => if bodies.contains_key(key) {
                                    Some(
                                        found.insert(
                                            n,
                                            TransclusionView {
                                                metadata: metadata_at(meta, n),
                                                resolution: Some(
                                                    ResolvedTransclusionView { identifier: id, target: t, body: bodies[key] },
                                                ),
                                            },
                                        ),
                                    )
                                } else {
                                    None
                                },
                            }
                        },
                    },
                    _ => None,
                }
            },
        }
    }
}

/// Once the links of a prefix leave no input, no longer prefix does.
proof fn lemma_links_none_stays(
    anchors: Seq<(Option<Seq<char>>, Option<Seq<char>>)>,
    names: Seq<Seq<char>>,
    store: Map<u32, Seq<EntryView>>,
    meta: Map<u32, Metadata>,
    k: nat,
    k2: nat,
)
    requires
        k <= k2,
        body_links(anchors, names, store, meta, k) is None,
    ensures
        body_links(anchors, names, store, meta, k2) is None,
    decreases k2 - k,
{
    if k2 > k {
        lemma_links_none_stays(anchors, names, store, meta, k, (k2 - 1) as nat);
    }
}

/// Once the transclusions of a prefix leave no input, no longer prefix does.
proof fn lemma_transclusions_none_stays<B>(
    markers: Seq<(Option<Seq<char>>, Option<Seq<char>>)>,
    names: Seq<Seq<char>>,
    store: Map<u32, Seq<EntryView>>,
    meta: Map<u32, Metadata>,
    bodies: Map<u32, B>,
    k: nat,
    k2: nat,
)
    requires
        k <= k2,
        body_transclusions(markers, names, store, meta, bodies, k) is None,
    ensures
        body_transclusions(markers, names, store, meta, bodies, k2) is None,
    decreases k2 - k,
{
    if k2 > k {
        lemma_transclusions_none_stays(markers, names, store, meta, bodies, k, (k2 - 1) as nat);
    }
}

/// The backmatter entries of the nodes `ids`: each name, with what is shown
/// of the node when it is defined.
pub open spec fn wanted_entries(
    ids: Seq<u32>,
    names: Seq<Seq<char>>,
    store: Map<u32, Seq<EntryView>>,
) -> Seq<(Seq<char>, Option<TargetView>)> {
    ids.map_values(|x: u32| (names[x as int], target_view(store, x)))
}

/// `out` lists the entries of `ids` in order of their names.
pub open spec fn lists_entries(
    out: Seq<(String, Option<BackmatterNode>)>,
    ids: Seq<u32>,
    names: Seq<Seq<char>>,
    store: Map<u32, Seq<EntryView>>,
) -> bool {
    let got = out.map_values(|e: (String, Option<BackmatterNode>)| entry_view(e));
    let want = wanted_entries(ids, names, store);
    &&& got.len() == want.len()
    &&& forall|a: int| 0 <= a < got.len() ==> want.contains(#[trigger] got[a])
    &&& forall|b: int| 0 <= b < want.len() ==> got.contains(#[trigger] want[b])
    &&& is_sorted(got.map_values(|e: (Seq<char>, Option<TargetView>)| e.0))
}

/// `input` is the input for the page of node `k` in `c` (see
/// [`Compiler::node_input`]).
pub open spec fn is_node_input<'a, B, M, D>(c: Compiler<B, M, D>, k: u32, input: NodeInput<'a, B, M>) -> bool {
    let node = c.store()[k][0].node;
    &&& is_single(c.store(), k)
    &&& c.rendered_bodies().contains_key(k)
    &&& c.rendered_backmatters().contains_key(k)
    &&& input.identifier@ == c.names()[k as int]
    &&& input.title@ == node.title@
    &&& input.title_text@ == node.title_text@
    &&& *input.metadata == node.node_metadata
    &&& *input.body == c.rendered_bodies()[k]
    &&& *input.backmatter == c.rendered_backmatters()[k]
}

/// `page` is what `renderer` returned for the input of the page of node
/// `k` in `c`.
pub open spec fn page_rendered<B, M, D, R: Render<Body = B, Backmatter = M>>(
    c: Compiler<B, M, D>,
    renderer: &R,
    k: u32,
    page: R::Node,
) -> bool {
    exists|input: NodeInput<'_, B, M>|
        #[trigger] is_node_input(c, k, input) && call_ensures(
            R::render_node,
            (renderer, input),
            Ok::<R::Node, R::Error>(page),
        )
}

/// `body` is what `renderer` returned for an input with the HTML of node
/// `k` in `c` and its links (see [`Compiler::body_input`]).
pub open spec fn body_rendered<B, M, D, R: Render<Body = B, Backmatter = M>>(
    c: Compiler<B, M, D>,
    renderer: &R,
    k: u32,
    body: B,
) -> bool {
    let node = c.store()[k][0].node;
    exists|input: BodyInput<'_, B>|
        #![trigger call_ensures(R::render_body, (renderer, input), Ok::<B, R::Error>(body))]
        input@.body_html == node.body_html@ && body_links(
            body_anchors(node.body_html@),
            c.names(),
            c.store(),
            node.link_metadata@,
            body_anchors(node.body_html@).len(),
        ) == Some(input@.links) && call_ensures(R::render_body, (renderer, input), Ok::<B, R::Error>(body))
}

/// `backmatter` is what `renderer` returned for the input of the backmatter
/// of node `k` in `c` (see [`Compiler::backmatter_input`]).
pub open spec fn backmatter_rendered<B, M, D, R: Render<Body = B, Backmatter = M>>(
    c: Compiler<B, M, D>,
    renderer: &R,
    k: u32,
    backmatter: M,
) -> bool {
    let store = c.store();
    let names = c.names();
    exists|input: BackmatterInput<'_>|
        #![trigger call_ensures(R::render_backmatter, (renderer, input), Ok::<M, R::Error>(backmatter))]
        {
            &&& input.node.0@ == names[k as int]
            &&& target_view(store, k) == Some(input.node.1@)
            &&& lists_entries(input.contexts@, c.backmatters()[k].contexts@, names, store)
            &&& lists_entries(input.backlinks@, c.backmatters()[k].backlinks@, names, store)
            &&& lists_entries(input.outlinks@, c.backmatters()[k].outlinks@, names, store)
            &&& call_ensures(R::render_backmatter, (renderer, input), Ok::<M, R::Error>(backmatter))
        }
}

/// `renderer` returned the error `e` for an input with the HTML of node `k`
/// in `c` and its links (see [`Compiler::body_input`]).
pub open spec fn body_failed<B, M, D, R: Render<Body = B, Backmatter = M>>(
    c: Compiler<B, M, D>,
    renderer: &R,
    k: u32,
    e: R::Error,
) -> bool {
    let node = c.store()[k][0].node;
    exists|input: BodyInput<'_, B>|
        #![trigger call_ensures(R::render_body, (renderer, input), Err::<B, R::Error>(e))]
        input@.body_html == node.body_html@ && body_links(
            body_anchors(node.body_html@),
            c.names(),
            c.store(),
            node.link_metadata@,
            body_anchors(node.body_html@).len(),
        ) == Some(input@.links) && call_ensures(R::render_body, (renderer, input), Err::<B, R::Error>(e))
}

/// `renderer` returned the error `e` for the input of the backmatter of
/// node `k` in `c` (see [`Compiler::backmatter_input`]).
pub open spec fn backmatter_failed<B, M, D, R: Render<Body = B, Backmatter = M>>(
    c: Compiler<B, M, D>,
    renderer: &R,
    k: u32,
    e: R::Error,
) -> bool {
    let store = c.store();
    let names = c.names();
    exists|input: BackmatterInput<'_>|
        #![trigger call_ensures(R::render_backmatter, (renderer, input), Err::<M, R::Error>(e))]
        {
            &&& input.node.0@ == names[k as int]
            &&& target_view(store, k) == Some(input.node.1@)
            &&& lists_entries(input.contexts@, c.backmatters()[k].contexts@, names, store)
            &&& lists_entries(input.backlinks@, c.backmatters()[k].backlinks@, names, store)
            &&& lists_entries(input.outlinks@, c.backmatters()[k].outlinks@, names, store)
            &&& call_ensures(R::render_backmatter, (renderer, input), Err::<M, R::Error>(e))
        }
}

/// `renderer` returned the error `e` for the input of the page of node `k`
/// in `c`.
pub open spec fn page_failed<B, M, D, R: Render<Body = B, Backmatter = M>>(
    c: Compiler<B, M, D>,
    renderer: &R,
    k: u32,
    e: R::Error,
) -> bool {
    exists|input: NodeInput<'_, B, M>|
        #[trigger] is_node_input(c, k, input) && call_ensures(R::render_node, (renderer, input), Err::<R::Node, R::Error>(e))
}

/// Rendering `item` in `c` stopped on the renderer's error `e`: the call
/// for its body (when it needs one), for its backmatter (when it needs
/// one) or for its page returned `e`.
pub open spec fn item_failed<B, M, D, R: Render<Body = B, Backmatter = M>>(
    c: Compiler<B, M, D>,
    renderer: &R,
    item: RenderItem,
    e: R::Error,
) -> bool {
    let k = item.node_id.0;
    ||| item.needs_body && body_failed(c, renderer, k, e)
    ||| item.needs_backmatter && backmatter_failed(c, renderer, k, e)
    ||| page_failed(c, renderer, k, e)
}

/// The body of node `k` in `c` cannot be given an input (see
/// [`Compiler::body_input`]).
pub open spec fn body_unavailable<B, M, D>(c: Compiler<B, M, D>, k: u32) -> bool {
    let store = c.store();
    let node = store[k][0].node;
    ||| !is_single(store, k)
    ||| body_links(
        body_anchors(node.body_html@),
        c.names(),
        store,
        node.link_metadata@,
        body_anchors(node.body_html@).len(),
    ) is None
    ||| body_transclusions(
        body_transcludes(node.body_html@),
        c.names(),
        store,
        node.transclusion_metadata@,
        c.rendered_bodies(),
        body_transcludes(node.body_html@).len(),
    ) is None
}

/// The backmatter of node `k` in `c` cannot be given an input (see
/// [`Compiler::backmatter_input`]).
pub open spec fn backmatter_unavailable<B, M, D>(c: Compiler<B, M, D>, k: u32) -> bool {
    !is_single(c.store(), k) || !c.backmatters().contains_key(k)
}

/// The page of node `k` in `c` cannot be given an input (see
/// [`Compiler::node_input`]).
pub open spec fn page_unavailable<B, M, D>(c: Compiler<B, M, D>, k: u32) -> bool {
    !is_single(c.store(), k) || !c.rendered_bodies().contains_key(k) || !c.rendered_backmatters().contains_key(k)
}

/// Item `item` cannot be rendered in `c`: a part it needs, or its page,
/// cannot be given an input.
pub open spec fn item_unavailable<B, M, D>(c: Compiler<B, M, D>, item: RenderItem) -> bool {
    let k = item.node_id.0;
    ||| item.needs_body && body_unavailable(c, k)
    ||| item.needs_backmatter && backmatter_unavailable(c, k)
    ||| page_unavailable(c, k)
}

/// Compilers holding the same rendered bodies and backmatters agree on
/// them.
pub(super) proof fn lemma_same_rendered<B, M, D>(a: Compiler<B, M, D>, b: Compiler<B, M, D>)
    requires
        a.rendered_bodies@ == b.rendered_bodies@,
        a.rendered_backmatters@ == b.rendered_backmatters@,
    ensures
        a.rendered_bodies() == b.rendered_bodies(),
        a.rendered_backmatters() == b.rendered_backmatters(),
{
}

impl<B, M, D> Compiler<B, M, D> {
    /// The rendered body kept for each node.
    pub closed spec fn rendered_bodies(&self) -> Map<u32, B> {
        self.rendered_bodies@
    }

    /// The rendered backmatter kept for each node.
    pub closed spec fn rendered_backmatters(&self) -> Map<u32, M> {
        self.rendered_backmatters@
    }

    /// The node `k` when it is defined exactly once.
    fn single_node(&self, k: u32) -> (r: Option<&Node>)
        ensures
            match r {
                Some(node) => is_single(self.store(), k) && *node == self.store()[k][0].node,
                None => !is_single(self.store(), k),
            },
    {
        match self.nodes.get(&k) {
            Some(entries) => {
                if entries.len() == 1 {
                    Some(&entries[0].node)
                } else {
                    None
                }
            },
            None => None,
        }
    }

    /// The input for rendering the body of `node_id`: its HTML and, by
    /// counter, its Weibian links and its transclusions with what is known
    /// of their targets. `None` when the node is not defined exactly once
    /// or its links or transclusions leave no input (see [`body_links`] and
    /// [`body_transclusions`]).
    pub fn body_input(&self, node_id: NodeId) -> (r: Option<BodyInput<'_, B>>)
        requires
            self.wf(),
        ensures
            ({
                let store = self.store();
                let k = node_id.0;
                let node = store[k][0].node;
                let links = body_links(
                    body_anchors(node.body_html@),
                    self.names(),
                    store,
                    node.link_metadata@,
                    body_anchors(node.body_html@).len(),
                );
                let transclusions = body_transclusions(
                    body_transcludes(node.body_html@),
                    self.names(),
                    store,
                    node.transclusion_metadata@,
                    self.rendered_bodies(),
                    body_transcludes(node.body_html@).len(),
                );
                match r {
                    Some(input) => {
                        &&& is_single(store, k)
                        &&& input@.body_html == node.body_html@
                        &&& links == Some(input@.links)
                        &&& transclusions == Some(input@.transclusions)
                    },
                    None => !is_single(store, k) || links is None || transclusions is None,
                }
            }),
    {
        let ghost store = self.store();
        let ghost names = self.names();
        let node = match self.single_node(node_id.0) {
            Some(node) => node,
            None => return None,
        };
        let ghost html = node.body_html@;
        let a_tag = "a";
        let href_attr = "href";
        let counter_attr = "data-counter";
        proof {
            reveal_strlit("a");
        }
        let anchors = attribute_pairs(node.body_html.as_str(), a_tag, href_attr, counter_attr);
        let ghost av = anchors@.map_values(|p: (Option<String>, Option<String>)| pair_view(p));
        proof {
            assert(av == body_anchors(html));
        }
        let mut links: HashMap<u32, LinkInput<'_>> = HashMap::new();
        let mut i: usize = 0;
        while i < anchors.len()
            invariant
                self.wf(),
                store == self.store(),
                names == self.names(),
                is_single(store, node_id.0),
                *node == store[node_id.0][0].node,
                av == anchors@.map_values(|p: (Option<String>, Option<String>)| pair_view(p)),
                av == body_anchors(node.body_html@),
                0 <= i <= anchors@.len(),
                body_links(av, names, store, node.link_metadata@, i as nat) == Some(
                    links@.map_values(|l: LinkInput| l@),
                ),
            decreases anchors@.len() - i,
        {
            proof {
                assert(av[i as int] == pair_view(anchors@[i as int]));
            }
            let (href, counter) = &anchors[i];
            let target = match href {
                Some(h) => strip_wb_prefix(h.as_str()),
                None => None,
            };
            match target {
                None => {},
                Some(id) => {
                    let ghost lm = node.link_metadata@;
                    let c = match counter {
                        Some(c) => c,
                        None => {
                            proof {
                                lemma_links_none_stays(av, names, store, lm, (i + 1) as nat, av.len());
                            }
                            return None;
                        },
                    };
                    let n = match parse_u32(c.as_str()) {
                        Some(n) => n,
                        None => {
                            proof {
                                lemma_links_none_stays(av, names, store, lm, (i + 1) as nat, av.len());
                            }
                            return None;
                        },
                    };
                    let t = match self.interner.get(id) {
                        Some(t) => t,
                        None => {
                            proof {
                                lemma_links_none_stays(av, names, store, lm, (i + 1) as nat, av.len());
                            }
                            return None;
                        },
                    };
                    proof {
                        self.interner.lemma_distinct_names();
                        assert(names[t.0 as int] == id@);
                        assert(names.contains(id@));
                        assert(key_of(names, id@) == t.0);
                    }
                    let identifier = self.interner.name(t);
                    let metadata = node.link_metadata.get(&n);
                    let resolution = match self.single_node(t.0) {
                        Some(target) => Some(
                            ResolvedLink {
                                title: target.title.as_str(),
                                title_text: target.title_text.as_str(),
                                metadata: &target.node_metadata,
                            },
                        ),
                        None => None,
                    };
                    let ghost before = links@.map_values(|l: LinkInput| l@);
                    let input = LinkInput { identifier, metadata, resolution };
                    proof {
                        assert(input@.metadata == metadata_at(node.link_metadata@, n));
                        assert(input@.resolution == target_view(store, t.0));
                    }
                    links.insert(n, input);
                    proof {
                        assert(links@.map_values(|l: LinkInput| l@) =~= before.insert(n, input@));
                    }
                },
            }
            i = i + 1;
        }
        proof {
            assert(anchors@.len() == av.len());
        }
        let w_tag = "wb-transclude";
        let identifier_attr = "identifier";
        let count_attr = "counter";
        proof {
            reveal_strlit("wb-transclude");
        }
        let markers = attribute_pairs(node.body_html.as_str(), w_tag, identifier_attr, count_attr);
        let ghost mv = markers@.map_values(|p: (Option<String>, Option<String>)| pair_view(p));
        proof {
            assert(mv == body_transcludes(html));
        }
        let mut transclusions: HashMap<u32, TransclusionInput<'_, B>> = HashMap::new();
        let mut j: usize = 0;
        while j < markers.len()
            invariant
                self.wf(),
                store == self.store(),
                names == self.names(),
                is_single(store, node_id.0),
                *node == store[node_id.0][0].node,
                mv == markers@.map_values(|p: (Option<String>, Option<String>)| pair_view(p)),
                mv == body_transcludes(node.body_html@),
                0 <= j <= markers@.len(),
                body_transclusions(mv, names, store, node.transclusion_metadata@, self.rendered_bodies(), j as nat)
                    == Some(transclusions@.map_values(|t: TransclusionInput<B>| t@)),
            decreases markers@.len() - j,
        {
            proof {
                assert(mv[j as int] == pair_view(markers@[j as int]));
            }
            let (identifier_value, counter) = &markers[j];
            let ghost tm = node.transclusion_metadata@;
            let ghost bodies = self.rendered_bodies();
            let id = match identifier_value {
                Some(id) => id,
                None => {
                proof {
                    lemma_transclusions_none_stays(mv, names, store, tm, bodies, (j + 1) as nat, mv.len());
                }
                return None;
                },
            };
            let c = match counter {
                Some(c) => c,
                None => {
                proof {
                    lemma_transclusions_none_stays(mv, names, store, tm, bodies, (j + 1) as nat, mv.len());
                }
                return None;
                },
            };
            let n = match parse_u32(c.as_str()) {
                Some(n) => n,
                None => {
                proof {
                    lemma_transclusions_none_stays(mv, names, store, tm, bodies, (j + 1) as nat, mv.len());
                }
                return None;
                },
            };
            let t = match self.interner.get(id.as_str()) {
                Some(t) => t,
                None => {
                proof {
                    lemma_transclusions_none_stays(mv, names, store, tm, bodies, (j + 1) as nat, mv.len());
                }
                return None;
                },
            };
            proof {
                self.interner.lemma_distinct_names();
                assert(names[t.0 as int] == id@);
                assert(names.contains(id@));
                assert(key_of(names, id@) == t.0);
            }
            let identifier = self.interner.name(t);
            let metadata = node.transclusion_metadata.get(&n);
            let resolution = match self.single_node(t.0) {
                Some(target) => {
                    let body = match self.rendered_bodies.get(&t.0) {
                        Some(body) => body,
                        None => {
                            proof {
                                lemma_transclusions_none_stays(mv, names, store, tm, bodies, (j + 1) as nat, mv.len());
                            }
                            return None;
                        },
                    };
                    Some(
                        ResolvedTransclusion {
                            identifier,
                            title: target.title.as_str(),
                            title_text: target.title_text.as_str(),
                            metadata: &target.node_metadata,
                            body,
                        },
                    )
                },
                None => None,
            };
            let ghost before = transclusions@.map_values(|t: TransclusionInput<B>| t@);
            let input = TransclusionInput { metadata, resolution };
            transclusions.insert(n, input);
            proof {
                assert(transclusions@.map_values(|t: TransclusionInput<B>| t@) =~= before.insert(n, input@));
            }
            j = j + 1;
        }
        proof {
            assert(markers@.len() == mv.len());
        }
        Some(BodyInput { body_html: node.body_html.as_str(), links, transclusions })
    }
}

/// Some item of the plan renders the body of `k`.
pub open spec fn planned_body(items: Seq<RenderItem>, k: u32) -> bool {
    exists|a: int| 0 <= a < items.len() && (#[trigger] items[a]).node_id.0 == k && items[a].needs_body
}

/// Some item of the plan renders the backmatter of `k`.
pub open spec fn planned_backmatter(items: Seq<RenderItem>, k: u32) -> bool {
    exists|a: int| 0 <= a < items.len() && (#[trigger] items[a]).node_id.0 == k && items[a].needs_backmatter
}

/// `after` keeps what `before` held for every node that the plan does not
/// render, and holds only those nodes and the planned ones.
pub open spec fn kept_outside_plan<T>(
    before: Map<u32, T>,
    after: Map<u32, T>,
    planned: spec_fn(u32) -> bool,
) -> bool {
    &&& forall|k: u32| #[trigger] after.contains_key(k) ==> before.contains_key(k) || planned(k)
    &&& forall|k: u32|
        before.contains_key(k) && !planned(k) ==> #[trigger] after.contains_key(k) && after[k] == before[k]
}

/// One more item of the plan: what held of the items before it holds of the
/// items up to it, whether or not it replaced the value of `key`.
proof fn lemma_kept_step<T>(
    orig: Map<u32, T>,
    before: Map<u32, T>,
    after: Map<u32, T>,
    prev: spec_fn(u32) -> bool,
    next: spec_fn(u32) -> bool,
    key: u32,
    changed: bool,
)
    requires
        kept_outside_plan(orig, before, prev),
        forall|k: u32| #[trigger] prev(k) ==> next(k),
        forall|k: u32| #[trigger] next(k) && k != key ==> prev(k),
        changed ==> next(key) && after == before.insert(key, after[key]),
        !changed ==> after == before && forall|k: u32| #[trigger] next(k) ==> prev(k),
    ensures
        kept_outside_plan(orig, after, next),
{
    assert forall|k: u32| #[trigger] after.contains_key(k) implies orig.contains_key(k) || next(k) by {
        if k != key || !changed {
            assert(before.contains_key(k));
            if !orig.contains_key(k) {
                assert(prev(k));
            }
        }
    }
    assert forall|k: u32| orig.contains_key(k) && !next(k) implies #[trigger] after.contains_key(k) && after[k] == orig[k] by {
        assert(!prev(k));
    }
}

/// What a prefix of the plan keeps, the whole plan keeps.
proof fn lemma_kept_widens<T>(before: Map<u32, T>, after: Map<u32, T>, items: Seq<RenderItem>, j: int, body: bool)
    requires
        0 <= j <= items.len(),
        body ==> kept_outside_plan(before, after, |k: u32| planned_body(items.take(j), k)),
        !body ==> kept_outside_plan(before, after, |k: u32| planned_backmatter(items.take(j), k)),
    ensures
        body ==> kept_outside_plan(before, after, |k: u32| planned_body(items, k)),
        !body ==> kept_outside_plan(before, after, |k: u32| planned_backmatter(items, k)),
{
    assert forall|k: u32| planned_body(items.take(j), k) implies planned_body(items, k) by {
        let a = choose|a: int| 0 <= a < items.take(j).len() && (#[trigger] items.take(j)[a]).node_id.0 == k && items.take(j)[a].needs_body;
        assert(items[a] == items.take(j)[a]);
    }
    assert forall|k: u32| planned_backmatter(items.take(j), k) implies planned_backmatter(items, k) by {
        let a = choose|a: int| 0 <= a < items.take(j).len() && (#[trigger] items.take(j)[a]).node_id.0 == k && items.take(j)[a].needs_backmatter;
        assert(items[a] == items.take(j)[a]);
    }
}

impl<B, M, D> Compiler<B, M, D> {
    /// The backmatter entries of the nodes `ids`, in order of their names.
    fn backmatter_entries(&self, ids: &Vec<u32>) -> (out: Vec<(String, Option<BackmatterNode<'_>>)>)
        requires
            self.wf(),
            forall|q: int| 0 <= q < ids@.len() ==> (#[trigger] ids@[q] as int) < self.names().len(),
        ensures
            lists_entries(out@, ids@, self.names(), self.store()),
    {
        let ghost names = self.names();
        let ghost store = self.store();
        let mut entries: Vec<(String, Option<BackmatterNode<'_>>)> = Vec::new();
        let mut i: usize = 0;
        while i < ids.len()
            invariant
                self.wf(),
                names == self.names(),
                store == self.store(),
                forall|q: int| 0 <= q < ids@.len() ==> (#[trigger] ids@[q] as int) < names.len(),
                0 <= i <= ids@.len(),
                entries@.map_values(|e: (String, Option<BackmatterNode>)| entry_view(e)) == wanted_entries(
                    ids@.take(i as int),
                    names,
                    store,
                ),
            decreases ids@.len() - i,
        {
            let x = ids[i];
            let name = self.interner.name(NodeId(x)).to_owned();
            let shown = match self.single_node(x) {
                Some(target) => Some(
                    BackmatterNode {
                        title: target.title.as_str(),
                        title_text: target.title_text.as_str(),
                        metadata: &target.node_metadata,
                    },
                ),
                None => None,
            };
            let ghost before = entries@.map_values(|e: (String, Option<BackmatterNode>)| entry_view(e));
            entries.push((name, shown));
            proof {
                assert(ids@.take(i + 1) =~= ids@.take(i as int).push(x));
                assert(entries@.map_values(|e: (String, Option<BackmatterNode>)| entry_view(e)) =~= before.push(
                    (names[x as int], target_view(store, x)),
                ));
                assert(wanted_entries(ids@.take(i + 1), names, store) =~= wanted_entries(
                    ids@.take(i as int),
                    names,
                    store,
                ).push((names[x as int], target_view(store, x))));
            }
            i = i + 1;
        }
        proof {
            assert(ids@.take(ids@.len() as int) =~= ids@);
        }
        let ghost all = entries@;
        let out = sort_entries(entries);
        proof {
            let got = out@.map_values(|e: (String, Option<BackmatterNode>)| entry_view(e));
            let want = wanted_entries(ids@, names, store);
            assert forall|a: int| 0 <= a < got.len() implies want.contains(#[trigger] got[a]) by {
                assert(all.contains(out@[a]));
                let b = choose|b: int| 0 <= b < all.len() && all[b] == out@[a];
                assert(want[b] == got[a]);
            }
            assert forall|b: int| 0 <= b < want.len() implies got.contains(#[trigger] want[b]) by {
                assert(out@.contains(all[b]));
                let a = choose|a: int| 0 <= a < out@.len() && out@[a] == all[b];
                assert(got[a] == want[b]);
            }
            assert(got.map_values(|e: (Seq<char>, Option<TargetView>)| e.0) =~= out@.map_values(
                |e: (String, Option<BackmatterNode>)| e.0@,
            ));
        }
        out
    }

    /// The input for rendering the backmatter of `node_id`: the node, and
    /// the nodes that transclude it, link to it and that it links to, each
    /// list in order of the names. `None` when the node is not defined
    /// exactly once or has no recorded backmatter.
    pub fn backmatter_input(&self, node_id: NodeId) -> (r: Option<BackmatterInput<'_>>)
        requires
            self.wf(),
        ensures
            ({
                let store = self.store();
                let names = self.names();
                let k = node_id.0;
                match r {
                    Some(input) => {
                        &&& is_single(store, k)
                        &&& self.backmatters().contains_key(k)
                        &&& input.node.0@ == names[k as int]
                        &&& target_view(store, k) == Some(input.node.1@)
                        &&& lists_entries(input.contexts@, self.backmatters()[k].contexts@, names, store)
                        &&& lists_entries(input.backlinks@, self.backmatters()[k].backlinks@, names, store)
                        &&& lists_entries(input.outlinks@, self.backmatters()[k].outlinks@, names, store)
                    },
                    None => !is_single(store, k) || !self.backmatters().contains_key(k),
                }
            }),
    {
        let node = match self.single_node(node_id.0) {
            Some(node) => node,
            None => return None,
        };
        let backmatter = match self.backmatters.get(&node_id.0) {
            Some(b) => b,
            None => return None,
        };
        proof {
            let bm = self.backmatters@[node_id.0];
            assert forall|q: int| 0 <= q < bm.contexts@.len() implies (#[trigger] bm.contexts@[q] as int)
                < self.names().len() by {
                assert(bm@.contexts.contains(bm.contexts@[q]));
            }
            assert forall|q: int| 0 <= q < bm.backlinks@.len() implies (#[trigger] bm.backlinks@[q] as int)
                < self.names().len() by {
                assert(bm@.backlinks.contains(bm.backlinks@[q]));
            }
            assert forall|q: int| 0 <= q < bm.outlinks@.len() implies (#[trigger] bm.outlinks@[q] as int)
                < self.names().len() by {
                assert(bm@.outlinks.contains(bm.outlinks@[q]));
            }
        }
        let name = self.interner.name(node_id).to_owned();
        let shown = BackmatterNode {
            title: node.title.as_str(),
            title_text: node.title_text.as_str(),
            metadata: &node.node_metadata,
        };
        let contexts = self.backmatter_entries(&backmatter.contexts);
        let backlinks = self.backmatter_entries(&backmatter.backlinks);
        let outlinks = self.backmatter_entries(&backmatter.outlinks);
        Some(BackmatterInput { node: (name, shown), contexts, backlinks, outlinks })
    }

    /// The input for rendering the page of `node_id`: the node with its
    /// rendered body and backmatter. `None` when the node is not defined
    /// exactly once or either was not rendered.
    pub fn node_input(&self, node_id: NodeId) -> (r: Option<NodeInput<'_, B, M>>)
        requires
            self.wf(),
        ensures
            ({
                let store = self.store();
                let k = node_id.0;
                let node = store[k][0].node;
                match r {
                    Some(input) => {
                        &&& is_single(store, k)
                        &&& self.rendered_bodies().contains_key(k)
                        &&& self.rendered_backmatters().contains_key(k)
                        &&& input.identifier@ == self.names()[k as int]
                        &&& input.title@ == node.title@
                        &&& input.title_text@ == node.title_text@
                        &&& *input.metadata == node.node_metadata
                        &&& *input.body == self.rendered_bodies()[k]
                        &&& *input.backmatter == self.rendered_backmatters()[k]
                    },
                    None => !is_single(store, k) || !self.rendered_bodies().contains_key(k)
                        || !self.rendered_backmatters().contains_key(k),
                }
            }),
    {
        let node = match self.single_node(node_id.0) {
            Some(node) => node,
            None => return None,
        };
        let body = match self.rendered_bodies.get(&node_id.0) {
            Some(b) => b,
            None => return None,
        };
        let backmatter = match self.rendered_backmatters.get(&node_id.0) {
            Some(b) => b,
            None => return None,
        };
        Some(
            NodeInput {
                identifier: self.interner.name(node_id).to_owned(),
                title: node.title.as_str(),
                title_text: node.title_text.as_str(),
                metadata: &node.node_metadata,
                body,
                backmatter,
            },
        )
    }

    /// Renders the plan in order: for each item, its body when it needs one
    /// and its backmatter when it needs one (each kept for later items and
    /// later runs), then its page. Returns the pages by node name, in plan
    /// order. Stops at the first renderer error, or at the first item whose
    /// input cannot be assembled.
    #[verifier::spinoff_prover]
    pub fn render<R: Render<Body = B, Backmatter = M>>(&mut self, renderer: &R, plan: &RenderPlan) -> (r: Result<
        Vec<(String, R::Node)>,
        RenderFailure<R::Error>,
    >)
        requires
            old(self).wf(),
        ensures
            final(self).wf(),
            final(self).store() == old(self).store(),
            final(self).names() == old(self).names(),
            final(self).file_nodes() == old(self).file_nodes(),
            final(self).compile_diagnostics_map() == old(self).compile_diagnostics_map(),
            final(self).dirty() == old(self).dirty(),
            final(self).removed() == old(self).removed(),
            final(self).outputs() == old(self).outputs(),
            final(self).backmatters() == old(self).backmatters(),
            final(self).process_diagnostics_map() == old(self).process_diagnostics_map(),
            kept_outside_plan(
                old(self).rendered_bodies(),
                final(self).rendered_bodies(),
                |k: u32| planned_body(plan.items@, k),
            ),
            kept_outside_plan(
                old(self).rendered_backmatters(),
                final(self).rendered_backmatters(),
                |k: u32| planned_backmatter(plan.items@, k),
            ),
            match r {
                Ok(pages) => {
                    &&& pages@.len() == plan.items@.len()
                    &&& forall|a: int|
                        0 <= a < pages@.len() ==> (#[trigger] pages@[a]).0@ == old(self).names()[plan.items@[a].node_id.0 as int]
                    &&& forall|k: u32| planned_body(plan.items@, k) ==> #[trigger] final(self).rendered_bodies().contains_key(k)
                    &&& forall|k: u32|
                        planned_backmatter(plan.items@, k) ==> #[trigger] final(self).rendered_backmatters().contains_key(k)
                },
                Err(RenderFailure::Unavailable(id)) => exists|a: int|
                    0 <= a < plan.items@.len() && (#[trigger] plan.items@[a]).node_id == id && item_unavailable(
                        *final(self),
                        plan.items@[a],
                    ),
                Err(RenderFailure::Renderer(e)) => exists|a: int|
                    0 <= a < plan.items@.len() && item_failed(*final(self), renderer, #[trigger] plan.items@[a], e),
            },
            plan.items@.len() == 0 ==> r is Ok,
            r matches Ok(pages) ==> forall|a: int|
                0 <= a < pages@.len() && (forall|b: int|
                    a < b < plan.items@.len() ==> plan.items@[b].node_id != plan.items@[a].node_id)
                    ==> page_rendered(*final(self), renderer, plan.items@[a].node_id.0, #[trigger] pages@[a].1),
            forall|k: u32|
                #[trigger] final(self).rendered_bodies().contains_key(k) && !(old(self).rendered_bodies().contains_key(k)
                    && old(self).rendered_bodies()[k] == final(self).rendered_bodies()[k]) ==> body_rendered(
                    *old(self),
                    renderer,
                    k,
                    final(self).rendered_bodies()[k],
                ),
            forall|k: u32|
                #[trigger] final(self).rendered_backmatters().contains_key(k) && !(old(self).rendered_backmatters().contains_key(k)
                    && old(self).rendered_backmatters()[k] == final(self).rendered_backmatters()[k]) ==> backmatter_rendered(
                    *old(self),
                    renderer,
                    k,
                    final(self).rendered_backmatters()[k],
                ),
    {
        let ghost orig = *self;
        let ghost items = plan.items@;
        let mut pages: Vec<(String, R::Node)> = Vec::new();
        let mut i: usize = 0;
        while i < plan.items.len()
            invariant
                self.wf(),
                orig == *old(self),
                items == plan.items@,
                0 <= i <= items.len(),
                self.store() == orig.store(),
                self.names() == orig.names(),
                self.file_nodes() == orig.file_nodes(),
                self.compile_diagnostics_map() == orig.compile_diagnostics_map(),
                self.dirty() == orig.dirty(),
                self.removed() == orig.removed(),
                self.outputs() == orig.outputs(),
                self.backmatters() == orig.backmatters(),
                self.process_diagnostics_map() == orig.process_diagnostics_map(),
                kept_outside_plan(
                    orig.rendered_bodies(),
                    self.rendered_bodies(),
                    |k: u32| planned_body(items.take(i as int), k),
                ),
                kept_outside_plan(
                    orig.rendered_backmatters(),
                    self.rendered_backmatters(),
                    |k: u32| planned_backmatter(items.take(i as int), k),
                ),
                pages@.len() == i,
                forall|a: int| 0 <= a < i ==> (#[trigger] pages@[a]).0@ == orig.names()[items[a].node_id.0 as int],
                forall|k: u32| planned_body(items.take(i as int), k) ==> #[trigger] self.rendered_bodies().contains_key(k),
                forall|k: u32|
                    planned_backmatter(items.take(i as int), k) ==> #[trigger] self.rendered_backmatters().contains_key(k),
                forall|a: int|
                    0 <= a < i && (forall|b: int| a < b < i ==> items[b].node_id != items[a].node_id)
                        ==> page_rendered(*self, renderer, items[a].node_id.0, #[trigger] pages@[a].1),
                forall|k: u32|
                    #[trigger] self.rendered_bodies().contains_key(k) && !(orig.rendered_bodies().contains_key(k)
                        && orig.rendered_bodies()[k] == self.rendered_bodies()[k]) ==> body_rendered(
                        orig,
                        renderer,
                        k,
                        self.rendered_bodies()[k],
                    ),
                forall|k: u32|
                    #[trigger] self.rendered_backmatters().contains_key(k) && !(orig.rendered_backmatters().contains_key(k)
                        && orig.rendered_backmatters()[k] == self.rendered_backmatters()[k]) ==> backmatter_rendered(
                        orig,
                        renderer,
                        k,
                        self.rendered_backmatters()[k],
                    ),
            decreases items.len() - i,
        {
            let item = &plan.items[i];
            let id = item.node_id;
            let ghost start = *self;
            let ghost before_bodies = self.rendered_bodies();
            let ghost before_backmatters = self.rendered_backmatters();
            proof {
                assert(items.take(i + 1) =~= items.take(i as int).push(items[i as int]));
                assert forall|k: u32| planned_body(items.take(i as int), k) implies planned_body(items.take(i + 1), k) by {
                    let a = choose|a: int| 0 <= a < items.take(i as int).len() && (#[trigger] items.take(i as int)[a]).node_id.0 == k && items.take(i as int)[a].needs_body;
                    assert(items.take(i + 1)[a] == items.take(i as int)[a]);
                }
                assert forall|k: u32| planned_backmatter(items.take(i as int), k) implies planned_backmatter(items.take(i + 1), k) by {
                    let a = choose|a: int| 0 <= a < items.take(i as int).len() && (#[trigger] items.take(i as int)[a]).node_id.0 == k && items.take(i as int)[a].needs_backmatter;
                    assert(items.take(i + 1)[a] == items.take(i as int)[a]);
                }
                assert(items.take(i + 1)[i as int] == items[i as int]);
            }
            if item.needs_body {
                let input = match self.body_input(id) {
                    Some(input) => input,
                    None => {
                        proof {
                            assert(plan.items@[i as int].node_id == id);
                            lemma_kept_widens(orig.rendered_bodies(), self.rendered_bodies(), items, i as int, true);
                            lemma_kept_widens(orig.rendered_backmatters(), self.rendered_backmatters(), items, i as int, false);
                        }
                        return Err(RenderFailure::Unavailable(id));
                    },
                };
                let ghost gin = input;
                let render_body = R::render_body;
                let out = render_body(renderer, input);
                let ghost gout = out;
                let body = match out {
                    Ok(body) => body,
                    Err(e) => {
                        proof {
                            lemma_kept_widens(orig.rendered_bodies(), self.rendered_bodies(), items, i as int, true);
                            lemma_kept_widens(orig.rendered_backmatters(), self.rendered_backmatters(), items, i as int, false);
                            assert(call_ensures(R::render_body, (renderer, gin), gout));
                            assert(body_failed(*self, renderer, id.0, e));
                            assert(item_failed(*self, renderer, plan.items@[i as int], e));
                        }
                        return Err(RenderFailure::Renderer(e));
                    },
                };
                proof {
                    assert(call_ensures(R::render_body, (renderer, gin), gout));
                    assert(body_rendered(orig, renderer, id.0, gout->Ok_0));
                }
                self.rendered_bodies.insert(id.0, body);
            }
            proof {
                assert forall|k: u32| #[trigger] planned_body(items.take(i as int), k) implies planned_body(items.take(i + 1), k) by {
                    let a = choose|a: int| 0 <= a < items.take(i as int).len() && (#[trigger] items.take(i as int)[a]).node_id.0 == k && items.take(i as int)[a].needs_body;
                    assert(items.take(i + 1)[a] == items.take(i as int)[a]);
                }
                assert forall|k: u32| #[trigger] planned_body(items.take(i + 1), k) && (k != id.0 || !item.needs_body) implies planned_body(items.take(i as int), k) by {
                    let a = choose|a: int| 0 <= a < items.take(i + 1).len() && (#[trigger] items.take(i + 1)[a]).node_id.0 == k && items.take(i + 1)[a].needs_body;
                    assert(a < i);
                    assert(items.take(i as int)[a] == items.take(i + 1)[a]);
                }
                if item.needs_body {
                    assert(planned_body(items.take(i + 1), id.0));
                    assert(self.rendered_bodies() == before_bodies.insert(id.0, self.rendered_bodies()[id.0]));
                }
                lemma_kept_step(
                    orig.rendered_bodies(),
                    before_bodies,
                    self.rendered_bodies(),
                    |k: u32| planned_body(items.take(i as int), k),
                    |k: u32| planned_body(items.take(i + 1), k),
                    id.0,
                    item.needs_body,
                );
                assert(forall|k: u32| planned_body(items.take(i + 1), k) ==> #[trigger] self.rendered_bodies().contains_key(k)) by {
                    assert forall|k: u32| planned_body(items.take(i + 1), k) implies #[trigger] self.rendered_bodies().contains_key(k) by {
                        let a = choose|a: int| 0 <= a < items.take(i + 1).len() && (#[trigger] items.take(i + 1)[a]).node_id.0 == k && items.take(i + 1)[a].needs_body;
                        if a < i {
                            assert(items.take(i as int)[a] == items.take(i + 1)[a]);
                            assert(planned_body(items.take(i as int), k));
                        }
                    }
                }
            }
            if item.needs_backmatter {
                let input = match self.backmatter_input(id) {
                    Some(input) => input,
                    None => {
                        proof {
                            assert(plan.items@[i as int].node_id == id);
                            lemma_kept_widens(orig.rendered_bodies(), self.rendered_bodies(), items, i + 1, true);
                            lemma_kept_widens(orig.rendered_backmatters(), self.rendered_backmatters(), items, i as int, false);
                        }
                        return Err(RenderFailure::Unavailable(id));
                    },
                };
                let ghost gin = input;
                let render_backmatter = R::render_backmatter;
                let out = render_backmatter(renderer, input);
                let ghost gout = out;
                let backmatter = match out {
                    Ok(b) => b,
                    Err(e) => {
                        proof {
                            lemma_kept_widens(orig.rendered_bodies(), self.rendered_bodies(), items, i + 1, true);
                            lemma_kept_widens(orig.rendered_backmatters(), self.rendered_backmatters(), items, i as int, false);
                            assert(call_ensures(R::render_backmatter, (renderer, gin), gout));
                            assert(backmatter_failed(*self, renderer, id.0, e));
                            assert(item_failed(*self, renderer, plan.items@[i as int], e));
                        }
                        return Err(RenderFailure::Renderer(e));
                    },
                };
                proof {
                    assert(call_ensures(R::render_backmatter, (renderer, gin), gout));
                    assert(backmatter_rendered(orig, renderer, id.0, gout->Ok_0));
                }
                self.rendered_backmatters.insert(id.0, backmatter);
            }
            proof {
                assert forall|k: u32| #[trigger] planned_backmatter(items.take(i as int), k) implies planned_backmatter(items.take(i + 1), k) by {
                    let a = choose|a: int| 0 <= a < items.take(i as int).len() && (#[trigger] items.take(i as int)[a]).node_id.0 == k && items.take(i as int)[a].needs_backmatter;
                    assert(items.take(i + 1)[a] == items.take(i as int)[a]);
                }
                assert forall|k: u32| #[trigger] planned_backmatter(items.take(i + 1), k) && (k != id.0 || !item.needs_backmatter) implies planned_backmatter(items.take(i as int), k) by {
                    let a = choose|a: int| 0 <= a < items.take(i + 1).len() && (#[trigger] items.take(i + 1)[a]).node_id.0 == k && items.take(i + 1)[a].needs_backmatter;
                    assert(a < i);
                    assert(items.take(i as int)[a] == items.take(i + 1)[a]);
                }
                if item.needs_backmatter {
                    assert(planned_backmatter(items.take(i + 1), id.0));
                    assert(self.rendered_backmatters() == before_backmatters.insert(id.0, self.rendered_backmatters()[id.0]));
                }
                lemma_kept_step(
                    orig.rendered_backmatters(),
                    before_backmatters,
                    self.rendered_backmatters(),
                    |k: u32| planned_backmatter(items.take(i as int), k),
                    |k: u32| planned_backmatter(items.take(i + 1), k),
                    id.0,
                    item.needs_backmatter,
                );
                assert(forall|k: u32| planned_backmatter(items.take(i + 1), k) ==> #[trigger] self.rendered_backmatters().contains_key(k)) by {
                    assert forall|k: u32| planned_backmatter(items.take(i + 1), k) implies #[trigger] self.rendered_backmatters().contains_key(k) by {
                        let a = choose|a: int| 0 <= a < items.take(i + 1).len() && (#[trigger] items.take(i + 1)[a]).node_id.0 == k && items.take(i + 1)[a].needs_backmatter;
                        if a < i {
                            assert(items.take(i as int)[a] == items.take(i + 1)[a]);
                            assert(planned_backmatter(items.take(i as int), k));
                        }
                    }
                }
            }
            let input = match self.node_input(id) {
                Some(input) => input,
                None => {
                    proof {
                        assert(plan.items@[i as int].node_id == id);
                        lemma_kept_widens(orig.rendered_bodies(), self.rendered_bodies(), items, i + 1, true);
                        lemma_kept_widens(orig.rendered_backmatters(), self.rendered_backmatters(), items, i + 1, false);
                    }
                    return Err(RenderFailure::Unavailable(id));
                },
            };
            let name = input.identifier.clone();
            let ghost gin = input;
            proof {
                assert(is_node_input(*self, id.0, gin));
            }
            let render_node = R::render_node;
            let out = render_node(renderer, input);
            let ghost gout = out;
            let page = match out {
                Ok(page) => page,
                Err(e) => {
                    proof {
                        lemma_kept_widens(orig.rendered_bodies(), self.rendered_bodies(), items, i + 1, true);
                        lemma_kept_widens(orig.rendered_backmatters(), self.rendered_backmatters(), items, i + 1, false);
                        assert(call_ensures(R::render_node, (renderer, gin), gout));
                        assert(page_failed(*self, renderer, id.0, e));
                        assert(item_failed(*self, renderer, plan.items@[i as int], e));
                    }
                    return Err(RenderFailure::Renderer(e));
                },
            };
            proof {
                assert(call_ensures(R::render_node, (renderer, gin), gout));
                assert(page_rendered(*self, renderer, id.0, gout->Ok_0));
            }
            let ghost pages0 = pages@;
            pages.push((name, page));
            proof {
                assert forall|a: int|
                    0 <= a < i + 1 && (forall|b: int| a < b < i + 1 ==> items[b].node_id != items[a].node_id)
                        implies page_rendered(*self, renderer, items[a].node_id.0, #[trigger] pages@[a].1) by {
                    if a < i {
                        assert(pages@[a] == pages0[a]);
                        assert(items[i as int].node_id != items[a].node_id);
                        assert(forall|b: int| a < b < i ==> items[b].node_id != items[a].node_id);
                        let ka = items[a].node_id.0;
                        assert(page_rendered(start, renderer, ka, pages0[a].1));
                        let input = choose|input: NodeInput<'_, B, M>|
                            #[trigger] is_node_input(start, ka, input) && call_ensures(
                                R::render_node,
                                (renderer, input),
                                Ok::<R::Node, R::Error>(pages0[a].1),
                            );
                        assert(is_node_input(*self, ka, input));
                    } else {
                        assert(items[a] == *item);
                    }
                }
            }
            i = i + 1;
        }
        proof {
            assert(items.take(items.len() as int) =~= items);
        }
        Ok(pages)
    }
}

/// What one processing run produces: the rendered pages by node name, and
/// the names of the nodes whose pages are to be deleted.
pub struct OutputPlan<N> {
    pub writes: Vec<(String, N)>,
    pub deletes: Vec<String>,
}

impl<B, M, D> Compiler<B, M, D> {
    /// Processes the changes since the last run: plans (see
    /// [`Compiler::plan`]) and renders the plan with `renderer` (see
    /// [`Compiler::render`]). With nothing changed or removed, there is
    /// nothing to write or delete.
    pub fn process<R: Render<Body = B, Backmatter = M>>(&mut self, renderer: &R) -> (r: Result<
        OutputPlan<R::Node>,
        RenderFailure<R::Error>,
    >)
        requires
            old(self).wf(),
        ensures
            final(self).wf(),
            final(self).store() == old(self).store(),
            final(self).names() == old(self).names(),
            final(self).file_nodes() == old(self).file_nodes(),
            final(self).compile_diagnostics_map() == old(self).compile_diagnostics_map(),
            final(self).dirty() == Set::<u32>::empty(),
            final(self).removed() == Set::<u32>::empty(),
            old(self).dirty().is_empty() && old(self).removed().is_empty() ==> {
                &&& r matches Ok(out) && out.writes@.len() == 0 && out.deletes@.len() == 0
                &&& final(self).outputs() == old(self).outputs()
                &&& final(self).backmatters() == old(self).backmatters()
                &&& final(self).process_diagnostics_map() == old(self).process_diagnostics_map()
            },
            !(old(self).dirty().is_empty() && old(self).removed().is_empty()) ==> exists|
                items: Seq<RenderItem>,
                deletes: Seq<Seq<char>>,
            |
                #![trigger plan_outcome(*old(self), *final(self), items, deletes)]
                {
                    &&& plan_outcome(*old(self), *final(self), items, deletes)
                    &&& r matches Ok(out) ==> {
                        &&& out.deletes@.map_values(|d: String| d@) == deletes
                        &&& out.writes@.len() == items.len()
                        &&& forall|a: int|
                            0 <= a < items.len() ==> (#[trigger] out.writes@[a]).0@ == old(self).names()[items[a].node_id.0 as int]
                        &&& forall|a: int|
                            0 <= a < items.len() ==> page_rendered(
                                *final(self),
                                renderer,
                                items[a].node_id.0,
                                (#[trigger] out.writes@[a]).1,
                            )
                    }
                    &&& items.len() == 0 ==> r is Ok
                    &&& r matches Err(RenderFailure::Renderer(e)) ==> exists|a: int|
                        0 <= a < items.len() && item_failed(*final(self), renderer, #[trigger] items[a], e)
                    &&& r matches Err(RenderFailure::Unavailable(id)) ==> exists|a: int|
                        0 <= a < items.len() && (#[trigger] items[a]).node_id == id && item_unavailable(
                            *final(self),
                            items[a],
                        )
                    &&& forall|k: u32|
                        #[trigger] final(self).rendered_bodies().contains_key(k) && !(old(self).rendered_bodies().contains_key(k)
                            && old(self).rendered_bodies()[k] == final(self).rendered_bodies()[k]) ==> body_rendered(
                            *old(self),
                            renderer,
                            k,
                            final(self).rendered_bodies()[k],
                        )
                },
    {
        let ghost orig = *self;
        if self.dirty.is_empty() && self.removed.is_empty() {
            proof {
                assert(self.dirty@ =~= Set::<u32>::empty());
                assert(self.removed@ =~= Set::<u32>::empty());
            }
            return Ok(OutputPlan { writes: Vec::new(), deletes: Vec::new() });
        }
        let plan = self.plan();
        let ghost planned = *self;
        let writes = self.render(renderer, &plan);
        proof {
            if !(orig.dirty().is_empty() && orig.removed().is_empty()) {
                assert(plan_outcome(orig, planned, plan.items@, plan.deletes@.map_values(|d: String| d@)));
                assert(plan_outcome(orig, *self, plan.items@, plan.deletes@.map_values(|d: String| d@)));
                let items = plan.items@;
                assert forall|a: int, b: int| 0 <= a < b < items.len() implies items[b].node_id != items[a].node_id by {
                    assert(items[a].node_id != items[b].node_id);
                }
                assert(planned.store() == orig.store() && planned.names() == orig.names());
                assert forall|k: u32|
                    #[trigger] self.rendered_bodies().contains_key(k) && !(orig.rendered_bodies().contains_key(k)
                        && orig.rendered_bodies()[k] == self.rendered_bodies()[k]) implies body_rendered(
                        orig,
                        renderer,
                        k,
                        self.rendered_bodies()[k],
                    ) by {
                    assert(body_rendered(planned, renderer, k, self.rendered_bodies()[k]));
                }
            }
        }
        match writes {
            Ok(writes) => {
                Ok(OutputPlan { writes, deletes: plan.deletes })
            },
            Err(e) => Err(e),
        }
    }
}

} // verus!
