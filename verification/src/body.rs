use vstd::prelude::*;

use crate::extract::{decimal_u32, link_target, parse_u32, strip_wb_prefix};
use crate::html::{
    attribute_pairs, element_html, html_inner, html_replace, html_tag_count, is_tag_name, pair_view, tag_count,
    tagged_attributes, with_element_replaced,
};
use crate::render::{BodyInput, LinkInput, TransclusionInput};

verus! {

broadcast use vstd::std_specs::hash::group_hash_axioms;

/// Why a body could not be rendered: a template failed, or the body holds a
/// Weibian link or a transclusion marker that its input does not describe.
pub enum BodyFailure<E> {
    Template(E),
    Malformed,
}

/// Every Weibian link among `anchors` (an address starting with `wb:`) has
/// a counter that is a number and that `links` describes.
pub open spec fn links_described(anchors: Seq<(Option<Seq<char>>, Option<Seq<char>>)>, links: Set<u32>) -> bool {
    forall|i: int|
        0 <= i < anchors.len() && (#[trigger] anchors[i]).0 is Some && link_target(anchors[i].0->Some_0) is Some
            ==> anchors[i].1 is Some && decimal_u32(anchors[i].1->Some_0) is Some && links.contains(
            decimal_u32(anchors[i].1->Some_0)->Some_0,
        )
}

/// Every transclusion marker among `markers` has an identifier and a
/// counter that is a number and that `transclusions` describes.
pub open spec fn markers_described(
    markers: Seq<(Option<Seq<char>>, Option<Seq<char>>)>,
    transclusions: Set<u32>,
) -> bool {
    forall|i: int|
        0 <= i < markers.len() ==> (#[trigger] markers[i]).0 is Some && markers[i].1 is Some && decimal_u32(
            markers[i].1->Some_0,
        ) is Some && transclusions.contains(decimal_u32(markers[i].1->Some_0)->Some_0)
}

/// What to do with the anchor at position `i` among `anchors`: `Some(n)`
/// for a Weibian link with counter `n` that `links` describes.
fn link_counter(anchors: &Vec<(Option<String>, Option<String>)>, i: usize) -> (r: Option<Option<u32>>)
    requires
        i < anchors@.len(),
    ensures
        ({
            let a = pair_view(anchors@[i as int]);
            match r {
                None => !(a.0 is Some && link_target(a.0->Some_0) is Some),
                Some(None) => a.0 is Some && link_target(a.0->Some_0) is Some && !(a.1 is Some && decimal_u32(
                    a.1->Some_0,
                ) is Some),
                Some(Some(n)) => a.0 is Some && link_target(a.0->Some_0) is Some && a.1 is Some && decimal_u32(
                    a.1->Some_0,
                ) == Some(n),
            }
        }),
{
    let (href, counter) = &anchors[i];
    let is_link = match href {
        Some(h) => strip_wb_prefix(h.as_str()).is_some(),
        None => false,
    };
    if !is_link {
        return None;
    }
    match counter {
        Some(c) => Some(parse_u32(c.as_str())),
        None => Some(None),
    }
}

/// Where the substitution in a body stands: the document so far, and the
/// position, among the elements of the tag being substituted, of the next
/// element to handle.
pub struct BodyState {
    pub doc: Seq<char>,
    pub position: usize,
}

/// The next position after handling an element that was replaced, when the
/// document held `before` elements of its tag before the replacement and
/// `after` after it: past the element and what replaced it.
pub open spec fn advanced(position: usize, before: usize, after: usize) -> usize {
    if after >= before {
        let step = (after - before) as usize;
        if position < usize::MAX - step {
            (position + step + 1) as usize
        } else {
            usize::MAX
        }
    } else {
        position
    }
}

/// The next position after an element that is left alone.
pub open spec fn next_position(position: usize) -> usize {
    if position < usize::MAX {
        (position + 1) as usize
    } else {
        position
    }
}

/// The counter of a Weibian link among anchors (`href`, `data-counter`):
/// its counter when the address starts with `wb:` and the counter is a
/// number.
pub open spec fn wb_link_counter(a: (Option<Seq<char>>, Option<Seq<char>>)) -> Option<u32> {
    if a.0 is Some && link_target(a.0->Some_0) is Some && a.1 is Some {
        decimal_u32(a.1->Some_0)
    } else {
        None
    }
}

/// The counter of a transclusion marker (`identifier`, `counter`) with an
/// identifier and a counter that is a number.
pub open spec fn marker_counter(m: (Option<Seq<char>>, Option<Seq<char>>)) -> Option<u32> {
    if m.0 is Some && m.1 is Some {
        decimal_u32(m.1->Some_0)
    } else {
        None
    }
}

/// Handling anchor `a` at `pre`: a Weibian link with an input is replaced
/// by what `render_link` returned for that input and the HTML inside it
/// (`out` is the error when it failed); other anchors are left alone.
pub open spec fn link_step<'a, E, L: Fn(&LinkInput<'a>, String) -> Result<String, E>>(
    render_link: L,
    links: Map<u32, LinkInput<'a>>,
    a: (Option<Seq<char>>, Option<Seq<char>>),
    pre: BodyState,
    out: Result<BodyState, E>,
) -> bool {
    match wb_link_counter(a) {
        Some(n) => if links.contains_key(n) {
            exists|c: String, o: Result<String, E>|
                #![trigger call_ensures(render_link, (&links[n], c), o)]
                c@ == element_html(pre.doc, "a"@, pre.position) && call_ensures(render_link, (&links[n], c), o)
                    && match o {
                    Ok(h) => out == Ok::<BodyState, E>(
                        BodyState {
                            doc: with_element_replaced(pre.doc, "a"@, pre.position, h@),
                            position: advanced(
                                pre.position,
                                tag_count(pre.doc, "a"@),
                                tag_count(with_element_replaced(pre.doc, "a"@, pre.position, h@), "a"@),
                            ),
                        },
                    ),
                    Err(e) => out == Err::<BodyState, E>(e),
                }
        } else {
            out == Ok::<BodyState, E>(pre)
        },
        None => out == Ok::<BodyState, E>(BodyState { doc: pre.doc, position: next_position(pre.position) }),
    }
}

/// Handling marker `m` at `pre`: a marker with an input is replaced by what
/// `render_transclusion` returned for that input and the marker's
/// identifier (`out` is the error when it failed); other markers are left
/// alone.
pub open spec fn transclusion_step<'a, E, T: Fn(&TransclusionInput<'a, String>, &str) -> Result<String, E>>(
    render_transclusion: T,
    transclusions: Map<u32, TransclusionInput<'a, String>>,
    m: (Option<Seq<char>>, Option<Seq<char>>),
    pre: BodyState,
    out: Result<BodyState, E>,
) -> bool {
    match marker_counter(m) {
        Some(n) => if transclusions.contains_key(n) {
            exists|id: &str, o: Result<String, E>|
                #![trigger call_ensures(render_transclusion, (&transclusions[n], id), o)]
                id@ == m.0->Some_0 && call_ensures(render_transclusion, (&transclusions[n], id), o) && match o {
                    Ok(h) => out == Ok::<BodyState, E>(
                        BodyState {
                            doc: with_element_replaced(pre.doc, "wb-transclude"@, pre.position, h@),
                            position: advanced(
                                pre.position,
                                tag_count(pre.doc, "wb-transclude"@),
                                tag_count(with_element_replaced(pre.doc, "wb-transclude"@, pre.position, h@), "wb-transclude"@),
                            ),
                        },
                    ),
                    Err(e) => out == Err::<BodyState, E>(e),
                }
        } else {
            out == Ok::<BodyState, E>(BodyState { doc: pre.doc, position: next_position(pre.position) })
        },
        None => out == Ok::<BodyState, E>(BodyState { doc: pre.doc, position: next_position(pre.position) }),
    }
}

/// The anchors before `trace.len() - 1` were handled in order, from
/// `trace[0]`, each step giving the next state.
pub open spec fn links_handled<'a, E, L: Fn(&LinkInput<'a>, String) -> Result<String, E>>(
    render_link: L,
    links: Map<u32, LinkInput<'a>>,
    anchors: Seq<(Option<Seq<char>>, Option<Seq<char>>)>,
    trace: Seq<BodyState>,
) -> bool {
    &&& 1 <= trace.len() <= anchors.len() + 1
    &&& forall|i: int|
        #![trigger trace[i]]
        0 <= i < trace.len() - 1 ==> link_step(render_link, links, anchors[i], trace[i], Ok::<BodyState, E>(trace[i + 1]))
}

/// The markers before `trace.len() - 1` were handled in order, from
/// `trace[0]`, each step giving the next state.
pub open spec fn transclusions_handled<'a, E, T: Fn(&TransclusionInput<'a, String>, &str) -> Result<String, E>>(
    render_transclusion: T,
    transclusions: Map<u32, TransclusionInput<'a, String>>,
    markers: Seq<(Option<Seq<char>>, Option<Seq<char>>)>,
    trace: Seq<BodyState>,
) -> bool {
    &&& 1 <= trace.len() <= markers.len() + 1
    &&& forall|i: int|
        #![trigger trace[i]]
        0 <= i < trace.len() - 1 ==> transclusion_step(
            render_transclusion,
            transclusions,
            markers[i],
            trace[i],
            Ok::<BodyState, E>(trace[i + 1]),
        )
}

/// Renders a body: each Weibian link (an `a` element whose address starts
/// with `wb:`) is replaced by what `render_link` makes of its input and of
/// the HTML inside it, then each `wb-transclude` element by what
/// `render_transclusion` makes of its input and its `identifier`, in
/// document order; the HTML of the body is returned. A body whose links or
/// markers the input does not describe is `Malformed`; a failed template
/// stops the rendering with its error.
pub fn render_body_html<E, L, T>(
    input: &BodyInput<'_, String>,
    render_link: L,
    render_transclusion: T,
) -> (r: Result<String, BodyFailure<E>>) where
    L: Fn(&LinkInput<'_>, String) -> Result<String, E>,
    T: Fn(&TransclusionInput<'_, String>, &str) -> Result<String, E>,

    requires
        forall|l: &LinkInput<'_>, c: String| render_link.requires((l, c)),
        forall|t: &TransclusionInput<'_, String>, s: &str| render_transclusion.requires((t, s)),
    ensures
        ({
            let anchors = tagged_attributes(input.body_html@, "a"@, "href"@, "data-counter"@);
            let markers = tagged_attributes(input.body_html@, "wb-transclude"@, "identifier"@, "counter"@);
            let described = links_described(anchors, input.links@.dom()) && markers_described(
                markers,
                input.transclusions@.dom(),
            );
            let start = BodyState { doc: input.body_html@, position: 0 };
            match r {
                Err(BodyFailure::Malformed) => !described,
                Ok(s) => described && exists|lt: Seq<BodyState>, tt: Seq<BodyState>|
                    #![trigger links_handled(render_link, input.links@, anchors, lt), transclusions_handled(render_transclusion, input.transclusions@, markers, tt)]
                    {
                        &&& lt[0] == start
                        &&& links_handled(render_link, input.links@, anchors, lt)
                        &&& lt.len() == anchors.len() + 1
                        &&& tt[0] == (BodyState { doc: lt.last().doc, position: 0 })
                        &&& transclusions_handled(render_transclusion, input.transclusions@, markers, tt)
                        &&& tt.len() == markers.len() + 1
                        &&& s@ == element_html(tt.last().doc, "body"@, 0)
                    },
                Err(BodyFailure::Template(e)) => described && ((exists|lt: Seq<BodyState>|
                    #![trigger links_handled(render_link, input.links@, anchors, lt)]
                    {
                        &&& lt[0] == start
                        &&& links_handled(render_link, input.links@, anchors, lt)
                        &&& lt.len() <= anchors.len()
                        &&& link_step(render_link, input.links@, anchors[lt.len() - 1], lt.last(), Err::<BodyState, E>(e))
                    }) || (exists|lt: Seq<BodyState>, tt: Seq<BodyState>|
                    #![trigger links_handled(render_link, input.links@, anchors, lt), transclusions_handled(render_transclusion, input.transclusions@, markers, tt)]
                    {
                        &&& lt[0] == start
                        &&& links_handled(render_link, input.links@, anchors, lt)
                        &&& lt.len() == anchors.len() + 1
                        &&& tt[0] == (BodyState { doc: lt.last().doc, position: 0 })
                        &&& transclusions_handled(render_transclusion, input.transclusions@, markers, tt)
                        &&& tt.len() <= markers.len()
                        &&& transclusion_step(
                            render_transclusion,
                            input.transclusions@,
                            markers[tt.len() - 1],
                            tt.last(),
                            Err::<BodyState, E>(e),
                        )
                    })),
            }
        }),
{
    let a_tag = "a";
    let w_tag = "wb-transclude";
    let body_tag = "body";
    proof {
        reveal_strlit("a");
        reveal_strlit("wb-transclude");
        reveal_strlit("body");
    }
    let anchors = attribute_pairs(input.body_html, a_tag, "href", "data-counter");
    let markers = attribute_pairs(input.body_html, w_tag, "identifier", "counter");
    let ghost av = anchors@.map_values(|p: (Option<String>, Option<String>)| pair_view(p));
    let ghost mv = markers@.map_values(|p: (Option<String>, Option<String>)| pair_view(p));
    let ghost links = input.links@.dom();
    let ghost transclusions = input.transclusions@.dom();
    proof {
        assert(av == tagged_attributes(input.body_html@, "a"@, "href"@, "data-counter"@));
        assert(mv == tagged_attributes(input.body_html@, "wb-transclude"@, "identifier"@, "counter"@));
    }
    let mut i: usize = 0;
    while i < anchors.len()
        invariant
            av == anchors@.map_values(|p: (Option<String>, Option<String>)| pair_view(p)),
            av == tagged_attributes(input.body_html@, "a"@, "href"@, "data-counter"@),
            links == input.links@.dom(),
            0 <= i <= anchors@.len(),
            forall|q: int|
                0 <= q < i && (#[trigger] av[q]).0 is Some && link_target(av[q].0->Some_0) is Some
                    ==> av[q].1 is Some && decimal_u32(av[q].1->Some_0) is Some && links.contains(
                    decimal_u32(av[q].1->Some_0)->Some_0,
                ),
        decreases anchors@.len() - i,
    {
        proof {
            assert(av[i as int] == pair_view(anchors@[i as int]));
        }
        match link_counter(&anchors, i) {
            None => {},
            Some(None) => {
                proof {
                    assert(!links_described(av, links));
                }
                return Err(BodyFailure::Malformed);
            },
            Some(Some(n)) => {
                if !input.links.contains_key(&n) {
                    proof {
                        assert(!links_described(av, links));
                    }
                    return Err(BodyFailure::Malformed);
                }
            },
        }
        i = i + 1;
    }
    proof {
        assert(links_described(av, links));
    }
    let mut j: usize = 0;
    while j < markers.len()
        invariant
            mv == markers@.map_values(|p: (Option<String>, Option<String>)| pair_view(p)),
            mv == tagged_attributes(input.body_html@, "wb-transclude"@, "identifier"@, "counter"@),
            av == tagged_attributes(input.body_html@, "a"@, "href"@, "data-counter"@),
            transclusions == input.transclusions@.dom(),
            links == input.links@.dom(),
            links_described(av, links),
            0 <= j <= markers@.len(),
            forall|q: int|
                0 <= q < j ==> (#[trigger] mv[q]).0 is Some && mv[q].1 is Some && decimal_u32(mv[q].1->Some_0) is Some
                    && transclusions.contains(decimal_u32(mv[q].1->Some_0)->Some_0),
        decreases markers@.len() - j,
    {
        proof {
            assert(mv[j as int] == pair_view(markers@[j as int]));
        }
        let (identifier, counter) = &markers[j];
        let ok = match (identifier, counter) {
            (Some(_), Some(c)) => match parse_u32(c.as_str()) {
                Some(n) => input.transclusions.contains_key(&n),
                None => false,
            },
            _ => false,
        };
        if !ok {
            proof {
                assert(!markers_described(mv, transclusions));
            }
            return Err(BodyFailure::Malformed);
        }
        j = j + 1;
    }
    proof {
        assert(markers_described(mv, transclusions));
    }
    let mut doc = String::from_str(input.body_html);
    let mut position: usize = 0;
    let ghost mut lt: Seq<BodyState> = seq![BodyState { doc: input.body_html@, position: 0 }];
    let mut i: usize = 0;
    while i < anchors.len()
        invariant
            a_tag@ == "a"@,
            is_tag_name(a_tag@),
            forall|l: &LinkInput<'_>, c: String| render_link.requires((l, c)),
            av == anchors@.map_values(|p: (Option<String>, Option<String>)| pair_view(p)),
            av == tagged_attributes(input.body_html@, "a"@, "href"@, "data-counter"@),
            links_described(tagged_attributes(input.body_html@, "a"@, "href"@, "data-counter"@), input.links@.dom()),
            markers_described(
                tagged_attributes(input.body_html@, "wb-transclude"@, "identifier"@, "counter"@),
                input.transclusions@.dom(),
            ),
            0 <= i <= anchors@.len(),
            lt.len() == i + 1,
            lt[0] == (BodyState { doc: input.body_html@, position: 0 }),
            links_handled(render_link, input.links@, av, lt),
            lt.last() == (BodyState { doc: doc@, position }),
        decreases anchors@.len() - i,
    {
        proof {
            assert(av[i as int] == pair_view(anchors@[i as int]));
        }
        let ghost pre = lt.last();
        let ghost a = av[i as int];
        match link_counter(&anchors, i) {
            Some(Some(n)) => {
                let link = match input.links.get(&n) {
                    Some(link) => link,
                    None => {
                        proof {
                            assert(link_step(render_link, input.links@, a, pre, Ok::<BodyState, E>(pre)));
                            let t2 = lt.push(pre);
                            assert(links_handled(render_link, input.links@, av, t2)) by {
                                assert forall|q: int| #![trigger t2[q]] 0 <= q < t2.len() - 1 implies link_step(render_link, input.links@, av[q], t2[q], Ok::<BodyState, E>(t2[q + 1])) by {
                                    if q < i {
                                        assert(t2[q] == lt[q] && t2[q + 1] == lt[q + 1]);
                                    }
                                }
                            }
                            lt = t2;
                        }
                        i = i + 1;
                        continue;
                    },
                };
                let before = html_tag_count(doc.as_str(), a_tag);
                let content = html_inner(doc.as_str(), a_tag, position);
                let ghost gc = content;
                let out = render_link(link, content);
                let ghost go = out;
                proof {
                    assert(call_ensures(render_link, (&input.links@[n], gc), go));
                }
                let html = match out {
                    Ok(html) => html,
                    Err(e) => {
                        proof {
                            assert(link_step(render_link, input.links@, a, pre, Err::<BodyState, E>(e)));
                            assert(lt[lt.len() - 1] == pre);
                            assert(av[lt.len() - 1] == a);
                            assert(lt.len() <= av.len());
                            assert(link_step(render_link, input.links@, av[lt.len() - 1], lt.last(), Err::<BodyState, E>(e)));
                            assert(links_handled(render_link, input.links@, av, lt));
                            assert(lt[0] == (BodyState { doc: input.body_html@, position: 0 }));
                        }
                        return Err(BodyFailure::Template(e));
                    },
                };
                let next = html_replace(doc.as_str(), a_tag, position, html.as_str());
                let after = html_tag_count(next.as_str(), a_tag);
                position = if after >= before {
                    let step = after - before;
                    if position < usize::MAX - step {
                        position + step + 1
                    } else {
                        usize::MAX
                    }
                } else {
                    position
                };
                doc = next;
                proof {
                    assert(link_step(render_link, input.links@, a, pre, Ok::<BodyState, E>(BodyState { doc: doc@, position })));
                }
            },
            _ => {
                position = if position < usize::MAX { position + 1 } else { position };
                proof {
                    assert(link_step(render_link, input.links@, a, pre, Ok::<BodyState, E>(BodyState { doc: doc@, position })));
                }
            },
        }
        proof {
            let t2 = lt.push(BodyState { doc: doc@, position });
            assert(links_handled(render_link, input.links@, av, t2)) by {
                assert forall|q: int| #![trigger t2[q]] 0 <= q < t2.len() - 1 implies link_step(render_link, input.links@, av[q], t2[q], Ok::<BodyState, E>(t2[q + 1])) by {
                    if q < i {
                        assert(t2[q] == lt[q] && t2[q + 1] == lt[q + 1]);
                    }
                }
            }
            lt = t2;
        }
        i = i + 1;
    }
    let ghost links_end = doc@;
    let mut position: usize = 0;
    let ghost mut tt: Seq<BodyState> = seq![BodyState { doc: doc@, position: 0 }];
    let mut j: usize = 0;
    while j < markers.len()
        invariant
            w_tag@ == "wb-transclude"@,
            is_tag_name(w_tag@),
            forall|t: &TransclusionInput<'_, String>, s: &str| render_transclusion.requires((t, s)),
            mv == markers@.map_values(|p: (Option<String>, Option<String>)| pair_view(p)),
            mv == tagged_attributes(input.body_html@, "wb-transclude"@, "identifier"@, "counter"@),
            av == tagged_attributes(input.body_html@, "a"@, "href"@, "data-counter"@),
            links_described(tagged_attributes(input.body_html@, "a"@, "href"@, "data-counter"@), input.links@.dom()),
            markers_described(
                tagged_attributes(input.body_html@, "wb-transclude"@, "identifier"@, "counter"@),
                input.transclusions@.dom(),
            ),
            lt[0] == (BodyState { doc: input.body_html@, position: 0 }),
            links_handled(render_link, input.links@, av, lt),
            lt.len() == av.len() + 1,
            lt.last().doc == links_end,
            0 <= j <= markers@.len(),
            tt.len() == j + 1,
            tt[0] == (BodyState { doc: links_end, position: 0 }),
            transclusions_handled(render_transclusion, input.transclusions@, mv, tt),
            tt.last() == (BodyState { doc: doc@, position }),
        decreases markers@.len() - j,
    {
        proof {
            assert(mv[j as int] == pair_view(markers@[j as int]));
        }
        let ghost pre = tt.last();
        let ghost m = mv[j as int];
        let (identifier, counter) = &markers[j];
        let found = match (identifier, counter) {
            (Some(id), Some(c)) => match parse_u32(c.as_str()) {
                Some(n) => match input.transclusions.get(&n) {
                    Some(t) => Some((t, id, n)),
                    None => None,
                },
                None => None,
            },
            _ => None,
        };
        match found {
            Some((t, id, n)) => {
                let before = html_tag_count(doc.as_str(), w_tag);
                let ids = id.as_str();
                let out = render_transclusion(t, ids);
                let ghost go = out;
                proof {
                    assert(call_ensures(render_transclusion, (&input.transclusions@[n], ids), go));
                }
                let html = match out {
                    Ok(html) => html,
                    Err(e) => {
                        proof {
                            assert(transclusion_step(render_transclusion, input.transclusions@, m, pre, Err::<BodyState, E>(e)));
                        }
                        return Err(BodyFailure::Template(e));
                    },
                };
                let next = html_replace(doc.as_str(), w_tag, position, html.as_str());
                let after = html_tag_count(next.as_str(), w_tag);
                position = if after >= before {
                    let step = after - before;
                    if position < usize::MAX - step {
                        position + step + 1
                    } else {
                        usize::MAX
                    }
                } else {
                    position
                };
                doc = next;
                proof {
                    assert(transclusion_step(render_transclusion, input.transclusions@, m, pre, Ok::<BodyState, E>(BodyState { doc: doc@, position })));
                }
            },
            None => {
                position = if position < usize::MAX { position + 1 } else { position };
                proof {
                    assert(transclusion_step(render_transclusion, input.transclusions@, m, pre, Ok::<BodyState, E>(BodyState { doc: doc@, position })));
                }
            },
        }
        proof {
            let t2 = tt.push(BodyState { doc: doc@, position });
            assert(transclusions_handled(render_transclusion, input.transclusions@, mv, t2)) by {
                assert forall|q: int| #![trigger t2[q]] 0 <= q < t2.len() - 1 implies transclusion_step(render_transclusion, input.transclusions@, mv[q], t2[q], Ok::<BodyState, E>(t2[q + 1])) by {
                    if q < j {
                        assert(t2[q] == tt[q] && t2[q + 1] == tt[q + 1]);
                    }
                }
            }
            tt = t2;
        }
        j = j + 1;
    }
    let out = html_inner(doc.as_str(), body_tag, 0);
    proof {
        assert(tt.last().doc == doc@);
    }
    Ok(out)
}

} // verus!
