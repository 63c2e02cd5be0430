use std::collections::{HashMap, HashSet};

use petgraph::graphmap::DiGraphMap;

use vstd::prelude::*;

use crate::graph::{
    graph_edges, graph_has_edge, graph_nodes, graph_sources, graph_targets, is_scc_order,
    lemma_reaches_from_sink, lemma_reaches_step, lemma_reaches_trans, lemma_reaches_unfold,
    reaches,
};
use crate::interner::NodeId;

verus! {

broadcast use vstd::std_specs::hash::group_hash_axioms;

/// The sets of nodes shown around a node: the nodes that transclude it
/// (contexts), the nodes that link to it (backlinks) and the nodes that it
/// links to, itself or through what it transcludes (outlinks). Each list
/// holds a node once.
pub struct Backmatter {
    pub contexts: Vec<u32>,
    pub backlinks: Vec<u32>,
    pub outlinks: Vec<u32>,
}

/// The abstract value of a [`Backmatter`]: its three sets.
pub struct BackmatterView {
    pub contexts: Set<u32>,
    pub backlinks: Set<u32>,
    pub outlinks: Set<u32>,
}

impl View for Backmatter {
    type V = BackmatterView;

    open spec fn view(&self) -> BackmatterView {
        BackmatterView {
            contexts: self.contexts@.to_set(),
            backlinks: self.backlinks@.to_set(),
            outlinks: self.outlinks@.to_set(),
        }
    }
}

impl Backmatter {
    /// Each list holds a node once.
    pub open spec fn wf(&self) -> bool {
        &&& self.contexts@.no_duplicates()
        &&& self.backlinks@.no_duplicates()
        &&& self.outlinks@.no_duplicates()
    }
}

/// One node to render: its body, its backmatter, or both.
pub struct RenderItem {
    pub node_id: NodeId,
    pub needs_body: bool,
    pub needs_backmatter: bool,
}

/// `n` lies on a transclusion cycle: it transcludes a node that reaches it.
pub open spec fn on_cycle(t: Set<(u32, u32)>, n: u32) -> bool {
    exists|m: u32| #[trigger] t.contains((n, m)) && reaches(t, m, n)
}

/// `n` transcludes, directly or not, a node on a transclusion cycle.
pub open spec fn unrenderable(t: Set<(u32, u32)>, n: u32) -> bool {
    exists|c: u32| on_cycle(t, c) && #[trigger] reaches(t, n, c)
}

/// `n` is defined once and does not reach a transclusion cycle.
pub open spec fn renderable(t: Set<(u32, u32)>, single: Seq<bool>, n: u32) -> bool {
    &&& (n as int) < single.len()
    &&& single[n as int]
    &&& !unrenderable(t, n)
}

/// What makes the body of `m` change by itself: `m` changed, a node it
/// transcludes disappeared, or a node it links to changed or disappeared.
pub open spec fn changed_locally(
    t: Set<(u32, u32)>,
    l: Set<(u32, u32)>,
    dirty: Set<u32>,
    removed: Set<u32>,
    m: u32,
) -> bool {
    ||| dirty.contains(m)
    ||| exists|x: u32| #[trigger] t.contains((m, x)) && removed.contains(x)
    ||| exists|x: u32| #[trigger] l.contains((m, x)) && (dirty.contains(x) || removed.contains(x))
}

/// The rendered body of `n` may have changed: `n`, or a node it transcludes
/// directly or not, changed by itself.
pub open spec fn body_affected(
    t: Set<(u32, u32)>,
    l: Set<(u32, u32)>,
    dirty: Set<u32>,
    removed: Set<u32>,
    n: u32,
) -> bool {
    exists|m: u32| #[trigger] reaches(t, n, m) && changed_locally(t, l, dirty, removed, m)
}

/// The nodes that `n` links to, itself or through the nodes it transcludes,
/// directly or not.
pub open spec fn outlinks_of(t: Set<(u32, u32)>, l: Set<(u32, u32)>, n: u32) -> Set<u32> {
    Set::new(|x: u32| exists|m: u32| #[trigger] reaches(t, n, m) && l.contains((m, x)))
}

/// The sources of the edges into `n`.
pub open spec fn sources_of(e: Set<(u32, u32)>, n: u32) -> Set<u32> {
    Set::new(|s: u32| e.contains((s, n)))
}

/// The backmatter that `n` should have.
pub open spec fn backmatter_of(t: Set<(u32, u32)>, l: Set<(u32, u32)>, n: u32) -> BackmatterView {
    BackmatterView {
        contexts: sources_of(t, n),
        backlinks: sources_of(l, n),
        outlinks: outlinks_of(t, l, n),
    }
}

/// The backmatter must be rendered again: there was none, it changed, or one
/// of the nodes it shows changed or disappeared.
pub open spec fn backmatter_stale(
    old: Option<BackmatterView>,
    new: BackmatterView,
    dirty: Set<u32>,
    removed: Set<u32>,
) -> bool {
    match old {
        None => true,
        Some(o) => {
            ||| o != new
            ||| exists|x: u32|
                #![trigger new.contexts.contains(x)]
                #![trigger new.backlinks.contains(x)]
                #![trigger new.outlinks.contains(x)]
                (new.contexts.contains(x) || new.backlinks.contains(x) || new.outlinks.contains(x))
                    && (dirty.contains(x) || removed.contains(x))
        },
    }
}

/// Whether `a` and `b` hold the same members.
fn same_members(a: &Vec<u32>, b: &Vec<u32>) -> (r: bool)
    ensures
        r == (a@.to_set() == b@.to_set()),
{
    let mut i: usize = 0;
    while i < a.len()
        invariant
            i <= a@.len(),
            forall|k: int| 0 <= k < i ==> b@.contains(#[trigger] a@[k]),
        decreases a@.len() - i,
    {
        if !holds(b, a[i]) {
            proof {
                assert(a@.to_set().contains(a@[i as int]));
                assert(!b@.to_set().contains(a@[i as int]));
            }
            return false;
        }
        i = i + 1;
    }
    let mut j: usize = 0;
    while j < b.len()
        invariant
            j <= b@.len(),
            forall|k: int| 0 <= k < a@.len() ==> b@.contains(#[trigger] a@[k]),
            forall|k: int| 0 <= k < j ==> a@.contains(#[trigger] b@[k]),
        decreases b@.len() - j,
    {
        if !holds(a, b[j]) {
            proof {
                assert(b@.to_set().contains(b@[j as int]));
                assert(!a@.to_set().contains(b@[j as int]));
            }
            return false;
        }
        j = j + 1;
    }
    proof {
        assert forall|x: u32| a@.to_set().contains(x) <==> b@.to_set().contains(x) by {
            if a@.contains(x) {
                let k = choose|k: int| 0 <= k < a@.len() && a@[k] == x;
                assert(b@.contains(a@[k]));
            }
            if b@.contains(x) {
                let k = choose|k: int| 0 <= k < b@.len() && b@[k] == x;
                assert(a@.contains(b@[k]));
            }
        }
        assert(a@.to_set() =~= b@.to_set());
    }
    true
}

/// Whether `x` occurs in `v`.
fn holds(v: &Vec<u32>, x: u32) -> (r: bool)
    ensures
        r == v@.contains(x),
{
    let mut k: usize = 0;
    while k < v.len()
        invariant
            k <= v@.len(),
            forall|w: int| 0 <= w < k ==> v@[w] != x,
        decreases v@.len() - k,
    {
        if v[k] == x {
            proof {
                assert(v@[k as int] == x);
            }
            return true;
        }
        k = k + 1;
    }
    false
}

/// Whether some member of `v` is in `dirty` or `removed`.
fn touches_changed(v: &Vec<u32>, dirty: &HashSet<u32>, removed: &HashSet<u32>) -> (r: bool)
    ensures
        r == exists|x: u32| #[trigger] v@.contains(x) && (dirty@.contains(x) || removed@.contains(x)),
{
    let mut k: usize = 0;
    while k < v.len()
        invariant
            k <= v@.len(),
            forall|w: int| 0 <= w < k ==> !dirty@.contains(#[trigger] v@[w]) && !removed@.contains(v@[w]),
        decreases v@.len() - k,
    {
        if dirty.contains(&v[k]) || removed.contains(&v[k]) {
            proof {
                assert(v@.contains(v@[k as int]));
            }
            return true;
        }
        k = k + 1;
    }
    proof {
        assert forall|x: u32| !(#[trigger] v@.contains(x) && (dirty@.contains(x) || removed@.contains(x))) by {
            if v@.contains(x) {
                let w = choose|w: int| 0 <= w < v@.len() && v@[w] == x;
                assert(!dirty@.contains(v@[w]));
            }
        }
    }
    false
}

/// Whether the backmatter `new` must be rendered, given the backmatter
/// `old` that was rendered last, if any, and the nodes that changed or
/// disappeared since.
pub fn should_backmatter_render(
    old: Option<&Backmatter>,
    new: &Backmatter,
    dirty: &HashSet<u32>,
    removed: &HashSet<u32>,
) -> (r: bool)
    ensures
        old is None ==> r,
        old matches Some(o) ==> r == backmatter_stale(Some(o@), new@, dirty@, removed@),
{
    match old {
        None => true,
        Some(o) => {
            let s1 = same_members(&o.contexts, &new.contexts);
            let s2 = same_members(&o.backlinks, &new.backlinks);
            let s3 = same_members(&o.outlinks, &new.outlinks);
            let same = s1 && s2 && s3;
            let c = touches_changed(&new.contexts, dirty, removed);
            let b = touches_changed(&new.backlinks, dirty, removed);
            let u = touches_changed(&new.outlinks, dirty, removed);
            proof {
                let nv = new@;
                if same {
                    assert(o@ == nv);
                } else {
                    assert(o@ != nv) by {
                        if o@ == nv {
                            assert(o@.contexts == nv.contexts);
                            assert(o@.backlinks == nv.backlinks);
                            assert(o@.outlinks == nv.outlinks);
                        }
                    }
                }
                if c {
                    let x = choose|x: u32| #[trigger] new.contexts@.contains(x) && (dirty@.contains(x) || removed@.contains(x));
                    assert(nv.contexts.contains(x));
                }
                if b {
                    let x = choose|x: u32| #[trigger] new.backlinks@.contains(x) && (dirty@.contains(x) || removed@.contains(x));
                    assert(nv.backlinks.contains(x));
                }
                if u {
                    let x = choose|x: u32| #[trigger] new.outlinks@.contains(x) && (dirty@.contains(x) || removed@.contains(x));
                    assert(nv.outlinks.contains(x));
                }
                if !c && !b && !u {
                    assert forall|x: u32|
                        #![trigger nv.contexts.contains(x)]
                        #![trigger nv.backlinks.contains(x)]
                        #![trigger nv.outlinks.contains(x)]
                        !((nv.contexts.contains(x) || nv.backlinks.contains(x)
                            || nv.outlinks.contains(x)) && (dirty@.contains(x) || removed@.contains(x))) by {
                        if nv.contexts.contains(x) {
                            assert(new.contexts@.contains(x));
                        }
                        if nv.backlinks.contains(x) {
                            assert(new.backlinks@.contains(x));
                        }
                        if nv.outlinks.contains(x) {
                            assert(new.outlinks@.contains(x));
                        }
                    }
                }
            }
            !same || c || b || u
        },
    }
}


/// The transclusion graph `t` and the link graph `l` of the nodes
/// `0..single.len()`, where `single` marks the nodes defined exactly once:
/// each such node is a node of `t`, edges leave only such nodes, and every
/// node and edge end is below the bound.
pub open spec fn graphs_wf(t: DiGraphMap<u32, ()>, l: DiGraphMap<u32, ()>, single: Seq<bool>) -> bool {
    &&& single.len() <= u32::MAX as nat + 1
    &&& forall|x: u32| #[trigger] graph_nodes(t).contains(x) ==> (x as int) < single.len()
    &&& forall|x: u32| (x as int) < single.len() && #[trigger] single[x as int] ==> graph_nodes(t).contains(x)
    &&& forall|a: u32, b: u32|
        #[trigger] graph_edges(t).contains((a, b)) ==> graph_nodes(t).contains(a) && graph_nodes(t).contains(b)
            && single[a as int]
    &&& forall|a: u32, b: u32|
        #[trigger] graph_edges(l).contains((a, b)) ==> (a as int) < single.len() && (b as int)
            < single.len() && single[a as int]
}

/// The backmatter stored for `x`, if any.
pub open spec fn stored_backmatter(m: Map<u32, Backmatter>, x: u32) -> Option<BackmatterView> {
    if m.contains_key(x) {
        Some(m[x]@)
    } else {
        None
    }
}

/// `x` is a member of one of the first `i` components.
pub open spec fn processed(sccs: Seq<Vec<u32>>, i: int, x: u32) -> bool {
    exists|j: int, p: int| 0 <= j < i && 0 <= p < sccs[j]@.len() && #[trigger] sccs[j]@[p] == x
}

/// A node reaches a transclusion cycle exactly when it lies on one or one of
/// its targets reaches one.
pub proof fn lemma_unrenderable_unfold(t: Set<(u32, u32)>, n: u32)
    ensures
        unrenderable(t, n) <==> (on_cycle(t, n) || exists|x: u32| #[trigger] t.contains((n, x)) && unrenderable(t, x)),
{
    if unrenderable(t, n) {
        let c = choose|c: u32| on_cycle(t, c) && #[trigger] reaches(t, n, c);
        lemma_reaches_unfold(t, n, c);
        if n != c {
            let x = choose|x: u32| #[trigger] t.contains((n, x)) && reaches(t, x, c);
            assert(t.contains((n, x)) && unrenderable(t, x));
        }
    }
    if on_cycle(t, n) {
        lemma_reaches_step(t, n, n);
    }
    if exists|x: u32| #[trigger] t.contains((n, x)) && unrenderable(t, x) {
        let x = choose|x: u32| #[trigger] t.contains((n, x)) && unrenderable(t, x);
        let c = choose|c: u32| on_cycle(t, c) && #[trigger] reaches(t, x, c);
        lemma_reaches_step(t, n, x);
        lemma_reaches_trans(t, n, x, c);
    }
}

/// The body of a node is affected exactly when it changed by itself or the
/// body of one of its targets is affected.
#[verifier::rlimit(40)]
pub proof fn lemma_affected_unfold(
    t: Set<(u32, u32)>,
    l: Set<(u32, u32)>,
    dirty: Set<u32>,
    removed: Set<u32>,
    n: u32,
)
    ensures
        body_affected(t, l, dirty, removed, n) <==> (changed_locally(t, l, dirty, removed, n)
            || exists|x: u32| #[trigger] t.contains((n, x)) && body_affected(t, l, dirty, removed, x)),
{
    lemma_reaches_step(t, n, n);
    if body_affected(t, l, dirty, removed, n) {
        let m = choose|m: u32| #[trigger] reaches(t, n, m) && changed_locally(t, l, dirty, removed, m);
        lemma_reaches_unfold(t, n, m);
        if n != m {
            let x = choose|x: u32| #[trigger] t.contains((n, x)) && reaches(t, x, m);
            assert(t.contains((n, x)) && body_affected(t, l, dirty, removed, x));
        }
    }
    if exists|x: u32| #[trigger] t.contains((n, x)) && body_affected(t, l, dirty, removed, x) {
        let x = choose|x: u32| #[trigger] t.contains((n, x)) && body_affected(t, l, dirty, removed, x);
        let m = choose|m: u32| #[trigger] reaches(t, x, m) && changed_locally(t, l, dirty, removed, m);
        lemma_reaches_step(t, n, x);
        lemma_reaches_trans(t, n, x, m);
    }
}

/// The outlinks of a node are its own links and the outlinks of its targets.
pub proof fn lemma_outlinks_unfold(t: Set<(u32, u32)>, l: Set<(u32, u32)>, n: u32, y: u32)
    ensures
        outlinks_of(t, l, n).contains(y) <==> (l.contains((n, y)) || exists|x: u32|
            #[trigger] t.contains((n, x)) && outlinks_of(t, l, x).contains(y)),
{
    lemma_reaches_step(t, n, n);
    if outlinks_of(t, l, n).contains(y) {
        let m = choose|m: u32| #[trigger] reaches(t, n, m) && l.contains((m, y));
        lemma_reaches_unfold(t, n, m);
        if n != m {
            let x = choose|x: u32| #[trigger] t.contains((n, x)) && reaches(t, x, m);
            assert(outlinks_of(t, l, x).contains(y));
        }
    }
    if exists|x: u32| #[trigger] t.contains((n, x)) && outlinks_of(t, l, x).contains(y) {
        let x = choose|x: u32| #[trigger] t.contains((n, x)) && outlinks_of(t, l, x).contains(y);
        let m = choose|m: u32| #[trigger] reaches(t, x, m) && l.contains((m, y));
        lemma_reaches_step(t, n, x);
        lemma_reaches_trans(t, n, x, m);
    }
}

/// A component is cyclic, having several members or a self-loop, exactly
/// when its members lie on a cycle.
#[verifier::rlimit(40)]
pub proof fn lemma_scc_cycles(nodes: Set<u32>, edges: Set<(u32, u32)>, sccs: Seq<Vec<u32>>, i: int)
    requires
        is_scc_order(nodes, edges, sccs),
        forall|a: u32, b: u32| #[trigger] edges.contains((a, b)) ==> nodes.contains(a) && nodes.contains(b),
        0 <= i < sccs.len(),
    ensures
        (sccs[i]@.len() > 1 || edges.contains((sccs[i]@[0], sccs[i]@[0]))) ==> forall|p: int|
            0 <= p < sccs[i]@.len() ==> on_cycle(edges, #[trigger] sccs[i]@[p]),
        on_cycle(edges, sccs[i]@[0]) ==> (sccs[i]@.len() > 1 || edges.contains((sccs[i]@[0], sccs[i]@[0]))),
{
    reveal(is_scc_order);
    let s = sccs[i]@;
    assert(s.len() > 0);
    if s.len() > 1 {
        assert forall|p: int| 0 <= p < s.len() implies on_cycle(edges, #[trigger] sccs[i]@[p]) by {
            let q = if p == 0 { 1int } else { 0int };
            let x = s[p];
            let y = s[q];
            assert(x != y) by {
                if x == y {
                    assert(sccs[i]@[p] == sccs[i]@[q]);
                }
            }
            assert(reaches(edges, sccs[i]@[p], sccs[i]@[q]) && reaches(edges, sccs[i]@[q], sccs[i]@[p]));
            lemma_reaches_unfold(edges, x, y);
            let z = choose|z: u32| #[trigger] edges.contains((x, z)) && reaches(edges, z, y);
            lemma_reaches_trans(edges, z, y, x);
            assert(edges.contains((x, z)) && reaches(edges, z, x));
        }
    } else if edges.contains((s[0], s[0])) {
        lemma_reaches_step(edges, s[0], s[0]);
        assert(on_cycle(edges, s[0]));
        assert forall|p: int| 0 <= p < s.len() implies on_cycle(edges, #[trigger] sccs[i]@[p]) by {
            assert(p == 0);
        }
    }
    if on_cycle(edges, s[0]) && s.len() == 1 {
        let x = s[0];
        let m = choose|m: u32| #[trigger] edges.contains((x, m)) && reaches(edges, m, x);
        assert(nodes.contains(m));
        let (j, q) = choose|j: int, q: int| 0 <= j < sccs.len() && 0 <= q < sccs[j]@.len() && #[trigger] sccs[j]@[q] == m;
        lemma_reaches_step(edges, x, m);
        assert(reaches(edges, sccs[i]@[0], sccs[j]@[q]) && reaches(edges, sccs[j]@[q], sccs[i]@[0]));
        assert(j == i);
        assert(q == 0);
    }
}

/// The targets of the only member of an acyclic component lie in earlier
/// components.
pub proof fn lemma_targets_earlier(nodes: Set<u32>, edges: Set<(u32, u32)>, sccs: Seq<Vec<u32>>, i: int, x: u32)
    requires
        is_scc_order(nodes, edges, sccs),
        forall|a: u32, b: u32| #[trigger] edges.contains((a, b)) ==> nodes.contains(a) && nodes.contains(b),
        0 <= i < sccs.len(),
        sccs[i]@.len() == 1,
        !edges.contains((sccs[i]@[0], sccs[i]@[0])),
        edges.contains((sccs[i]@[0], x)),
    ensures
        processed(sccs, i, x),
{
    reveal(is_scc_order);
    let n = sccs[i]@[0];
    assert(nodes.contains(x));
    let (j, q) = choose|j: int, q: int| 0 <= j < sccs.len() && 0 <= q < sccs[j]@.len() && #[trigger] sccs[j]@[q] == x;
    assert(edges.contains((sccs[i]@[0], sccs[j]@[q])));
    assert(j <= i);
    if j == i {
        assert(q == 0);
    }
}


/// Whether some target is marked in `un`, and whether some target is gone or
/// marked in `ba`.
fn scan_targets(targets: &Vec<u32>, un: &Vec<bool>, ba: &Vec<bool>, removed: &HashSet<u32>) -> (r: (
    bool,
    bool,
))
    requires
        un@.len() == ba@.len(),
        forall|k: int| 0 <= k < targets@.len() ==> (#[trigger] targets@[k] as int) < un@.len(),
    ensures
        r.0 == exists|x: u32| #[trigger] targets@.contains(x) && un@[x as int],
        r.1 == exists|x: u32| #[trigger] targets@.contains(x) && (removed@.contains(x) || ba@[x as int]),
{
    let mut blocked = false;
    let mut affected = false;
    let mut k: usize = 0;
    while k < targets.len()
        invariant
            k <= targets@.len(),
            un@.len() == ba@.len(),
            forall|q: int| 0 <= q < targets@.len() ==> (#[trigger] targets@[q] as int) < un@.len(),
            blocked == exists|q: int| 0 <= q < k && un@[#[trigger] targets@[q] as int],
            affected == exists|q: int| 0 <= q < k && (removed@.contains(#[trigger] targets@[q]) || ba@[targets@[q] as int]),
        decreases targets@.len() - k,
    {
        let x = targets[k];
        if un[x as usize] {
            blocked = true;
        }
        if removed.contains(&x) || ba[x as usize] {
            affected = true;
        }
        k = k + 1;
    }
    proof {
        if blocked {
            let q = choose|q: int| 0 <= q < k && un@[#[trigger] targets@[q] as int];
            assert(targets@.contains(targets@[q]));
        }
        if affected {
            let q = choose|q: int| 0 <= q < k && (removed@.contains(#[trigger] targets@[q]) || ba@[targets@[q] as int]);
            assert(targets@.contains(targets@[q]));
        }
        assert forall|x: u32| #[trigger] targets@.contains(x) implies (un@[x as int] ==> blocked) && ((removed@.contains(x) || ba@[x as int]) ==> affected) by {
            let q = choose|q: int| 0 <= q < targets@.len() && targets@[q] == x;
            assert(un@[targets@[q] as int] == un@[x as int]);
        }
    }
    (blocked, affected)
}

/// The node's own links, then the outlinks of each target defined once,
/// each node once.
fn collect_outlinks(
    links: &Vec<u32>,
    targets: &Vec<u32>,
    single: &Vec<bool>,
    backmatters: &HashMap<u32, Backmatter>,
) -> (out: Vec<u32>)
    requires
        links@.no_duplicates(),
        forall|k: int| 0 <= k < targets@.len() ==> (#[trigger] targets@[k] as int) < single@.len(),
        forall|x: u32| #[trigger] targets@.contains(x) && single@[x as int] ==> backmatters@.contains_key(x),
    ensures
        out@.no_duplicates(),
        forall|y: u32|
            #[trigger] out@.contains(y) <==> (links@.contains(y) || exists|x: u32|
                #[trigger] targets@.contains(x) && single@[x as int] && backmatters@[x].outlinks@.contains(y)),
{
    let mut out: Vec<u32> = Vec::new();
    let mut k: usize = 0;
    while k < links.len()
        invariant
            k <= links@.len(),
            out@ == links@.take(k as int),
        decreases links@.len() - k,
    {
        out.push(links[k]);
        proof {
            assert(links@.take(k + 1) =~= links@.take(k as int).push(links@[k as int]));
        }
        k = k + 1;
    }
    proof {
        assert(links@.take(links@.len() as int) =~= links@);
    }
    let mut j: usize = 0;
    while j < targets.len()
        invariant
            j <= targets@.len(),
            links@.no_duplicates(),
            out@.no_duplicates(),
            forall|k: int| 0 <= k < targets@.len() ==> (#[trigger] targets@[k] as int) < single@.len(),
            forall|x: u32| #[trigger] targets@.contains(x) && single@[x as int] ==> backmatters@.contains_key(x),
            forall|y: u32|
                #[trigger] out@.contains(y) <==> (links@.contains(y) || exists|q: int|
                    0 <= q < j && single@[targets@[q] as int] && backmatters@[#[trigger] targets@[q]].outlinks@.contains(y)),
        decreases targets@.len() - j,
    {
        let x = targets[j];
        if single[x as usize] {
            proof {
                assert(targets@.contains(targets@[j as int]));
            }
            let more = &backmatters.get(&x).unwrap().outlinks;
            let mut i: usize = 0;
            let ghost start = out@;
            while i < more.len()
                invariant
                    i <= more@.len(),
                    out@.no_duplicates(),
                    forall|y: u32| start.contains(y) ==> out@.contains(y),
                    forall|y: u32| #[trigger] out@.contains(y) <==> (start.contains(y) || exists|w: int| 0 <= w < i && more@[w] == y),
                decreases more@.len() - i,
            {
                let y = more[i];
                if !holds(&out, y) {
                    let ghost before = out@;
                    out.push(y);
                    proof {
                        assert forall|a: int, b: int| 0 <= a < b < out@.len() implies out@[a] != out@[b] by {
                            if b == out@.len() - 1 {
                                assert(before.contains(before[a]));
                            } else {
                                assert(before[a] == out@[a] && before[b] == out@[b]);
                            }
                        }
                        assert forall|z: u32| #[trigger] out@.contains(z) <==> (start.contains(z) || exists|w: int| 0 <= w < i + 1 && more@[w] == z) by {
                            if out@.contains(z) && z != y {
                                let w = choose|w: int| 0 <= w < out@.len() && out@[w] == z;
                                assert(before[w] == z);
                            }
                            if before.contains(z) {
                                let w = choose|w: int| 0 <= w < before.len() && before[w] == z;
                                assert(out@[w] == z);
                            }
                            if z == y {
                                assert(out@[out@.len() - 1] == y);
                                assert(more@[i as int] == y);
                            }
                            if exists|w: int| 0 <= w < i + 1 && more@[w] == z {
                                let w = choose|w: int| 0 <= w < i + 1 && more@[w] == z;
                                if w < i {
                                    assert(exists|w2: int| 0 <= w2 < i && more@[w2] == z);
                                }
                            }
                        }
                    }
                } else {
                    proof {
                        assert forall|z: u32| #[trigger] out@.contains(z) <==> (start.contains(z) || exists|w: int| 0 <= w < i + 1 && more@[w] == z) by {
                            if exists|w: int| 0 <= w < i + 1 && more@[w] == z {
                                let w = choose|w: int| 0 <= w < i + 1 && more@[w] == z;
                                if w < i {
                                    assert(exists|w2: int| 0 <= w2 < i && more@[w2] == z);
                                }
                            }
                        }
                    }
                }
                i = i + 1;
            }
            proof {
                assert forall|y: u32|
                    #[trigger] out@.contains(y) <==> (links@.contains(y) || exists|q: int|
                        0 <= q < j + 1 && single@[targets@[q] as int] && backmatters@[#[trigger] targets@[q]].outlinks@.contains(y)) by {
                    if out@.contains(y) && !start.contains(y) {
                        let w = choose|w: int| 0 <= w < more@.len() && more@[w] == y;
                        assert(backmatters@[targets@[j as int]].outlinks@.contains(y));
                    }
                    if exists|q: int| 0 <= q < j + 1 && single@[targets@[q] as int] && backmatters@[#[trigger] targets@[q]].outlinks@.contains(y) {
                        let q = choose|q: int| 0 <= q < j + 1 && single@[targets@[q] as int] && backmatters@[#[trigger] targets@[q]].outlinks@.contains(y);
                        if q == j {
                            let w = choose|w: int| 0 <= w < more@.len() && more@[w] == y;
                            assert(exists|w2: int| 0 <= w2 < more@.len() && more@[w2] == y);
                        } else {
                            assert(start.contains(y));
                        }
                    }
                }
            }
        } else {
            proof {
                assert forall|y: u32|
                    #[trigger] out@.contains(y) <==> (links@.contains(y) || exists|q: int|
                        0 <= q < j + 1 && single@[targets@[q] as int] && backmatters@[#[trigger] targets@[q]].outlinks@.contains(y)) by {
                    if exists|q: int| 0 <= q < j + 1 && single@[targets@[q] as int] && backmatters@[#[trigger] targets@[q]].outlinks@.contains(y) {
                        let q = choose|q: int| 0 <= q < j + 1 && single@[targets@[q] as int] && backmatters@[#[trigger] targets@[q]].outlinks@.contains(y);
                        assert(q != j);
                    }
                }
            }
        }
        j = j + 1;
    }
    proof {
        assert forall|y: u32|
            #[trigger] out@.contains(y) <==> (links@.contains(y) || exists|x: u32|
                #[trigger] targets@.contains(x) && single@[x as int] && backmatters@[x].outlinks@.contains(y)) by {
            if exists|x: u32| #[trigger] targets@.contains(x) && single@[x as int] && backmatters@[x].outlinks@.contains(y) {
                let x = choose|x: u32| #[trigger] targets@.contains(x) && single@[x as int] && backmatters@[x].outlinks@.contains(y);
                let q = choose|q: int| 0 <= q < targets@.len() && targets@[q] == x;
                assert(single@[targets@[q] as int] && backmatters@[targets@[q]].outlinks@.contains(y));
            }
            if exists|q: int| 0 <= q < targets@.len() && single@[targets@[q] as int] && backmatters@[#[trigger] targets@[q]].outlinks@.contains(y) {
                let q = choose|q: int| 0 <= q < targets@.len() && single@[targets@[q] as int] && backmatters@[#[trigger] targets@[q]].outlinks@.contains(y);
                assert(targets@.contains(targets@[q]));
            }
        }
    }
    out
}


/// `items` is the render plan of the graphs: it lists each renderable node
/// whose body is affected or whose backmatter is stale against `before`,
/// and no other, each once, after every node that it transcludes, with
/// those two reasons as its flags.
pub open spec fn plan_matches(
    items: Seq<RenderItem>,
    t: Set<(u32, u32)>,
    l: Set<(u32, u32)>,
    single: Seq<bool>,
    dirty: Set<u32>,
    removed: Set<u32>,
    before: Map<u32, Backmatter>,
) -> bool {
    &&& forall|a: int, b: int|
        0 <= a < b < items.len() ==> (#[trigger] items[a]).node_id != (#[trigger] items[b]).node_id
    &&& forall|a: int|
        0 <= a < items.len() ==> {
            let x = (#[trigger] items[a]).node_id.0;
            &&& renderable(t, single, x)
            &&& items[a].needs_body == body_affected(t, l, dirty, removed, x)
            &&& items[a].needs_backmatter == backmatter_stale(
                stored_backmatter(before, x),
                backmatter_of(t, l, x),
                dirty,
                removed,
            )
        }
    &&& forall|x: u32|
        #[trigger] renderable(t, single, x) && (body_affected(t, l, dirty, removed, x) || backmatter_stale(
            stored_backmatter(before, x),
            backmatter_of(t, l, x),
            dirty,
            removed,
        )) ==> exists|a: int| 0 <= a < items.len() && (#[trigger] items[a]).node_id.0 == x
    &&& forall|a: int, b: int|
        0 <= a < items.len() && 0 <= b < items.len() && t.contains(
            ((#[trigger] items[a]).node_id.0, (#[trigger] items[b]).node_id.0),
        ) ==> b < a
}

/// The planning walk after the first `i` components of `ss`: `un` marks
/// exactly the processed nodes that reach a cycle, `ba` holds for the other
/// processed nodes whether their body is affected, `bm` holds the
/// backmatter of each processed renderable node and is `before` elsewhere,
/// and `items` is the plan of the processed nodes, in component order
/// (`item_scc`).
#[verifier::opaque]
pub open spec fn walk_state(
    te: Set<(u32, u32)>,
    le: Set<(u32, u32)>,
    single: Seq<bool>,
    dirty: Set<u32>,
    removed: Set<u32>,
    before: Map<u32, Backmatter>,
    ss: Seq<Vec<u32>>,
    i: int,
    un: Seq<bool>,
    ba: Seq<bool>,
    bm: Map<u32, Backmatter>,
    items: Seq<RenderItem>,
    item_scc: Seq<int>,
) -> bool {
    let n = single.len();
    &&& 0 <= i <= ss.len()
    &&& un.len() == n
    &&& ba.len() == n
    &&& forall|x: u32|
        (x as int) < n && #[trigger] processed(ss, i, x) ==> un[x as int] == unrenderable(te, x)
    &&& forall|x: u32| (x as int) < n && !#[trigger] processed(ss, i, x) ==> !un[x as int]
    &&& forall|x: u32|
        (x as int) < n && #[trigger] processed(ss, i, x) && !unrenderable(te, x) ==> ba[x as int]
            == body_affected(te, le, dirty, removed, x)
    &&& forall|k: u32| #[trigger] bm.contains_key(k) ==> bm[k].wf()
    &&& forall|k: u32|
        #[trigger] processed(ss, i, k) && renderable(te, single, k) ==> bm.contains_key(k) && bm[k]@
            == backmatter_of(te, le, k)
    &&& forall|k: u32|
        !(#[trigger] processed(ss, i, k) && renderable(te, single, k)) ==> (bm.contains_key(k)
            == before.contains_key(k) && (before.contains_key(k) ==> bm[k] == before[k]))
    &&& item_scc.len() == items.len()
    &&& forall|a: int|
        0 <= a < items.len() ==> 0 <= #[trigger] item_scc[a] < i && ss[item_scc[a]]@.len() == 1
            && ss[item_scc[a]]@[0] == items[a].node_id.0
    &&& forall|a: int, b: int| 0 <= a < b < items.len() ==> #[trigger] item_scc[a] < #[trigger] item_scc[b]
    &&& forall|a: int|
        0 <= a < items.len() ==> {
            let x = (#[trigger] items[a]).node_id.0;
            &&& renderable(te, single, x)
            &&& items[a].needs_body == body_affected(te, le, dirty, removed, x)
            &&& items[a].needs_backmatter == backmatter_stale(
                stored_backmatter(before, x),
                backmatter_of(te, le, x),
                dirty,
                removed,
            )
        }
    &&& forall|x: u32|
        #[trigger] processed(ss, i, x) && renderable(te, single, x) && (body_affected(
            te,
            le,
            dirty,
            removed,
            x,
        ) || backmatter_stale(stored_backmatter(before, x), backmatter_of(te, le, x), dirty, removed))
            ==> exists|a: int| 0 <= a < items.len() && (#[trigger] items[a]).node_id.0 == x
}

/// The members of component `i` are processed at step `i` and not before.
proof fn lemma_step_members(nodes: Set<u32>, te: Set<(u32, u32)>, ss: Seq<Vec<u32>>, i: int)
    requires
        is_scc_order(nodes, te, ss),
        0 <= i < ss.len(),
    ensures
        forall|x: u32| #[trigger] processed(ss, i + 1, x) <==> (processed(ss, i, x) || ss[i]@.contains(x)),
        forall|x: u32| ss[i]@.contains(x) ==> !#[trigger] processed(ss, i, x),
{
    reveal(is_scc_order);
    assert forall|x: u32| #[trigger] processed(ss, i + 1, x) <==> (processed(ss, i, x) || ss[i]@.contains(x)) by {
        if processed(ss, i + 1, x) {
            let (j, p) = choose|j: int, p: int| 0 <= j < i + 1 && 0 <= p < ss[j]@.len() && #[trigger] ss[j]@[p] == x;
            if j == i {
                assert(ss[i]@.contains(x));
            }
        }
        if ss[i]@.contains(x) {
            let p = choose|p: int| 0 <= p < ss[i]@.len() && ss[i]@[p] == x;
            assert(ss[i]@[p] == x);
        }
    }
    assert forall|x: u32| ss[i]@.contains(x) implies !#[trigger] processed(ss, i, x) by {
        let p = choose|p: int| 0 <= p < ss[i]@.len() && ss[i]@[p] == x;
        if processed(ss, i, x) {
            let (j, q) = choose|j: int, q: int| 0 <= j < i && 0 <= q < ss[j]@.len() && #[trigger] ss[j]@[q] == x;
            assert(ss[j]@[q] == ss[i]@[p]);
        }
    }
}

/// Step over a cyclic component: its members all reach a cycle.
#[verifier::rlimit(60)]
fn step_cyclic(
    t: &DiGraphMap<u32, ()>,
    l: &DiGraphMap<u32, ()>,
    single: &Vec<bool>,
    dirty: &HashSet<u32>,
    removed: &HashSet<u32>,
    Ghost(before): Ghost<Map<u32, Backmatter>>,
    sccs: &Vec<Vec<u32>>,
    i: usize,
    un: &mut Vec<bool>,
    ba: &Vec<bool>,
    backmatters: &HashMap<u32, Backmatter>,
    items: &Vec<RenderItem>,
    Ghost(item_scc): Ghost<Seq<int>>,
)
    requires
        graphs_wf(*t, *l, single@),
        is_scc_order(graph_nodes(*t), graph_edges(*t), sccs@),
        i < sccs@.len(),
        sccs@[i as int]@.len() > 1 || graph_edges(*t).contains((sccs@[i as int]@[0], sccs@[i as int]@[0])),
        walk_state(
            graph_edges(*t),
            graph_edges(*l),
            single@,
            dirty@,
            removed@,
            before,
            sccs@,
            i as int,
            old(un)@,
            ba@,
            backmatters@,
            items@,
            item_scc,
        ),
    ensures
        walk_state(
            graph_edges(*t),
            graph_edges(*l),
            single@,
            dirty@,
            removed@,
            before,
            sccs@,
            i + 1,
            final(un)@,
            ba@,
            backmatters@,
            items@,
            item_scc,
        ),
{
    let ghost te = graph_edges(*t);
    let ghost le = graph_edges(*l);
    let ghost nodes = graph_nodes(*t);
    let ghost ss = sccs@;
    let ghost ii = i as int;
    let ghost n_nodes = single@.len();
    let ghost un0 = un@;
    proof {
        reveal(walk_state);
        lemma_scc_cycles(nodes, te, ss, ii);
        lemma_step_members(nodes, te, ss, ii);
    }
    let scc = &sccs[i];
    let mut p: usize = 0;
    while p < scc.len()
        invariant
            graphs_wf(*t, *l, single@),
            is_scc_order(nodes, te, ss),
            nodes == graph_nodes(*t),
            ss == sccs@,
            ii == i,
            0 <= ii < ss.len(),
            scc == &ss[ii],
            n_nodes == single@.len(),
            p <= scc@.len(),
            un@.len() == n_nodes,
            un0.len() == n_nodes,
            forall|x: int| 0 <= x < n_nodes ==> #[trigger] un@[x] == (un0[x] || exists|q: int| 0 <= q < p && scc@[q] == x),
        decreases scc@.len() - p,
    {
        let x = scc[p];
        proof {
            reveal(is_scc_order);
            assert(nodes.contains(ss[ii]@[p as int]));
        }
        let ghost before_set = un@;
        un.set(x as usize, true);
        proof {
            assert forall|y: int| 0 <= y < n_nodes implies #[trigger] un@[y] == (un0[y] || exists|q: int| 0 <= q < p + 1 && scc@[q] == y) by {
                if y == x as int {
                    assert(scc@[p as int] == y);
                } else {
                    assert(un@[y] == before_set[y]);
                    if exists|q: int| 0 <= q < p + 1 && scc@[q] == y {
                        let q = choose|q: int| 0 <= q < p + 1 && scc@[q] == y;
                        assert(q < p);
                    }
                }
            }
        }
        p = p + 1;
    }
    proof {
        reveal(walk_state);
        assert forall|x: u32| ss[ii]@.contains(x) implies unrenderable(te, x) by {
            let q = choose|q: int| 0 <= q < ss[ii]@.len() && ss[ii]@[q] == x;
            assert(on_cycle(te, ss[ii]@[q]));
            lemma_reaches_step(te, x, x);
        }
        assert forall|x: u32| (x as int) < n_nodes && #[trigger] processed(ss, ii + 1, x) implies un@[x as int] == unrenderable(te, x) by {
            if ss[ii]@.contains(x) {
                let q = choose|q: int| 0 <= q < ss[ii]@.len() && ss[ii]@[q] == x;
                assert(un@[x as int]);
            } else {
                assert(un@[x as int] == un0[x as int]);
            }
        }
        assert forall|x: u32| (x as int) < n_nodes && !#[trigger] processed(ss, ii + 1, x) implies !un@[x as int] by {
            assert(!ss[ii]@.contains(x));
            if exists|q: int| 0 <= q < ss[ii]@.len() && scc@[q] == x as int {
                let q = choose|q: int| 0 <= q < ss[ii]@.len() && scc@[q] == x as int;
                assert(ss[ii]@[q] == x);
            }
        }
        assert forall|x: u32|
            (x as int) < n_nodes && #[trigger] processed(ss, ii + 1, x) && !unrenderable(te, x) implies ba@[x as int]
                == body_affected(te, le, dirty@, removed@, x) by {
            assert(!ss[ii]@.contains(x));
        }
        assert forall|k: u32|
            #[trigger] processed(ss, ii + 1, k) && renderable(te, single@, k) implies backmatters@.contains_key(k)
                && backmatters@[k]@ == backmatter_of(te, le, k) by {
            assert(!ss[ii]@.contains(k));
        }
        assert forall|k: u32|
            !(#[trigger] processed(ss, ii + 1, k) && renderable(te, single@, k)) implies (
            backmatters@.contains_key(k) == before.contains_key(k) && (before.contains_key(k)
                ==> backmatters@[k] == before[k])) by {
            if ss[ii]@.contains(k) {
                assert(!processed(ss, ii, k));
            } else {
                assert(!(processed(ss, ii, k) && renderable(te, single@, k)));
            }
        }
        assert forall|x: u32|
            #[trigger] processed(ss, ii + 1, x) && renderable(te, single@, x) && (body_affected(
                te,
                le,
                dirty@,
                removed@,
                x,
            ) || backmatter_stale(stored_backmatter(before, x), backmatter_of(te, le, x), dirty@, removed@))
                implies exists|a: int| 0 <= a < items@.len() && (#[trigger] items@[a]).node_id.0 == x by {
            assert(!ss[ii]@.contains(x));
            assert(processed(ss, ii, x));
        }
        assert forall|a: int| 0 <= a < items@.len() implies 0 <= #[trigger] item_scc[a] < ii + 1 by {}
    }
}


/// Reads the targets and links of `first`, the only member of the acyclic
/// component `i`, and decides whether it reaches a cycle and, if not,
/// whether its body is affected.
#[verifier::rlimit(60)]
fn scan_node(
    t: &DiGraphMap<u32, ()>,
    l: &DiGraphMap<u32, ()>,
    single: &Vec<bool>,
    dirty: &HashSet<u32>,
    removed: &HashSet<u32>,
    Ghost(before): Ghost<Map<u32, Backmatter>>,
    sccs: &Vec<Vec<u32>>,
    i: usize,
    first: u32,
    un: &Vec<bool>,
    ba: &Vec<bool>,
    Ghost(bm): Ghost<Map<u32, Backmatter>>,
    Ghost(items): Ghost<Seq<RenderItem>>,
    Ghost(item_scc): Ghost<Seq<int>>,
) -> (r: (Vec<u32>, Vec<u32>, bool, bool))
    requires
        graphs_wf(*t, *l, single@),
        is_scc_order(graph_nodes(*t), graph_edges(*t), sccs@),
        i < sccs@.len(),
        sccs@[i as int]@.len() == 1,
        first == sccs@[i as int]@[0],
        !graph_edges(*t).contains((first, first)),
        walk_state(
            graph_edges(*t),
            graph_edges(*l),
            single@,
            dirty@,
            removed@,
            before,
            sccs@,
            i as int,
            un@,
            ba@,
            bm,
            items,
            item_scc,
        ),
    ensures
        r.0@.no_duplicates(),
        forall|x: u32| r.0@.contains(x) <==> graph_edges(*t).contains((first, x)),
        r.1@.no_duplicates(),
        forall|x: u32| r.1@.contains(x) <==> graph_edges(*l).contains((first, x)),
        r.2 == unrenderable(graph_edges(*t), first),
        !r.2 ==> r.3 == body_affected(graph_edges(*t), graph_edges(*l), dirty@, removed@, first),
        (first as int) < single@.len(),
{
    let ghost te = graph_edges(*t);
    let ghost le = graph_edges(*l);
    let ghost nodes = graph_nodes(*t);
    let ghost ss = sccs@;
    let ghost ii = i as int;
    proof {
        reveal(walk_state);
        reveal(is_scc_order);
        assert(nodes.contains(ss[ii]@[0]));
        lemma_scc_cycles(nodes, te, ss, ii);
        assert(!on_cycle(te, first));
    }
    let targets = graph_targets(t, first);
    let links = graph_targets(l, first);
    proof {
        assert forall|x: u32| #[trigger] targets@.contains(x) implies processed(ss, ii, x) && (x as int) < single@.len() by {
            assert(te.contains((first, x)));
            lemma_targets_earlier(nodes, te, ss, ii, x);
        }
        assert forall|k: int| 0 <= k < targets@.len() implies (#[trigger] targets@[k] as int) < un@.len() by {
            assert(targets@.contains(targets@[k]));
        }
    }
    let (blocked, via_targets) = scan_targets(&targets, un, ba, removed);
    let via_links = touches_changed(&links, dirty, removed);
    let affected = dirty.contains(&first) || via_targets || via_links;
    proof {
        lemma_unrenderable_unfold(te, first);
        if blocked {
            let x = choose|x: u32| #[trigger] targets@.contains(x) && un@[x as int];
            assert(te.contains((first, x)) && unrenderable(te, x));
        }
        if unrenderable(te, first) {
            let x = choose|x: u32| #[trigger] te.contains((first, x)) && unrenderable(te, x);
            assert(targets@.contains(x));
        }
        if !blocked {
            lemma_affected_unfold(te, le, dirty@, removed@, first);
            assert forall|x: u32| #[trigger] targets@.contains(x) implies !unrenderable(te, x)
                && ba@[x as int] == body_affected(te, le, dirty@, removed@, x) by {
                assert(te.contains((first, x)));
            }
            if via_targets {
                let x = choose|x: u32| #[trigger] targets@.contains(x) && (removed@.contains(x) || ba@[x as int]);
                assert(te.contains((first, x)));
                if removed@.contains(x) {
                    assert(changed_locally(te, le, dirty@, removed@, first));
                }
            }
            if via_links {
                let x = choose|x: u32| #[trigger] links@.contains(x) && (dirty@.contains(x) || removed@.contains(x));
                assert(le.contains((first, x)));
                assert(changed_locally(te, le, dirty@, removed@, first));
            }
            if changed_locally(te, le, dirty@, removed@, first) && !dirty@.contains(first) {
                if exists|x: u32| #[trigger] te.contains((first, x)) && removed@.contains(x) {
                    let x = choose|x: u32| #[trigger] te.contains((first, x)) && removed@.contains(x);
                    assert(targets@.contains(x));
                } else {
                    let x = choose|x: u32| #[trigger] le.contains((first, x)) && (dirty@.contains(x) || removed@.contains(x));
                    assert(links@.contains(x));
                }
            }
            if exists|x: u32| #[trigger] te.contains((first, x)) && body_affected(te, le, dirty@, removed@, x) {
                let x = choose|x: u32| #[trigger] te.contains((first, x)) && body_affected(te, le, dirty@, removed@, x);
                assert(targets@.contains(x));
            }
        }
    }
    (targets, links, blocked, affected)
}

/// Step over a node that reaches a cycle through what it transcludes.
#[verifier::rlimit(100)]
fn step_blocked(
    t: &DiGraphMap<u32, ()>,
    l: &DiGraphMap<u32, ()>,
    single: &Vec<bool>,
    dirty: &HashSet<u32>,
    removed: &HashSet<u32>,
    Ghost(before): Ghost<Map<u32, Backmatter>>,
    sccs: &Vec<Vec<u32>>,
    i: usize,
    first: u32,
    un: &mut Vec<bool>,
    ba: &Vec<bool>,
    backmatters: &HashMap<u32, Backmatter>,
    items: &Vec<RenderItem>,
    Ghost(item_scc): Ghost<Seq<int>>,
)
    requires
        graphs_wf(*t, *l, single@),
        is_scc_order(graph_nodes(*t), graph_edges(*t), sccs@),
        i < sccs@.len(),
        sccs@[i as int]@.len() == 1,
        first == sccs@[i as int]@[0],
        (first as int) < single@.len(),
        unrenderable(graph_edges(*t), first),
        walk_state(
            graph_edges(*t),
            graph_edges(*l),
            single@,
            dirty@,
            removed@,
            before,
            sccs@,
            i as int,
            old(un)@,
            ba@,
            backmatters@,
            items@,
            item_scc,
        ),
    ensures
        walk_state(
            graph_edges(*t),
            graph_edges(*l),
            single@,
            dirty@,
            removed@,
            before,
            sccs@,
            i + 1,
            final(un)@,
            ba@,
            backmatters@,
            items@,
            item_scc,
        ),
{
    let ghost te = graph_edges(*t);
    let ghost le = graph_edges(*l);
    let ghost nodes = graph_nodes(*t);
    let ghost ss = sccs@;
    let ghost ii = i as int;
    let ghost un0 = un@;
    proof {
        reveal(walk_state);
        lemma_step_members(nodes, te, ss, ii);
        assert forall|x: u32| ss[ii]@.contains(x) <==> x == first by {
            if ss[ii]@.contains(x) {
                let q = choose|q: int| 0 <= q < ss[ii]@.len() && ss[ii]@[q] == x;
                assert(q == 0);
            }
            if x == first {
                assert(ss[ii]@[0] == x);
            }
        }
    }
    un.set(first as usize, true);
    proof {
        reveal(walk_state);
        assert forall|x: u32| (x as int) < single@.len() && #[trigger] processed(ss, ii + 1, x) implies un@[x as int] == unrenderable(te, x) by {
            if x != first {
                assert(un@[x as int] == un0[x as int]);
            }
        }
        assert forall|x: u32| (x as int) < single@.len() && !#[trigger] processed(ss, ii + 1, x) implies !un@[x as int] by {
            assert(x != first);
            assert(un@[x as int] == un0[x as int]);
        }
        assert forall|x: u32|
            (x as int) < single@.len() && #[trigger] processed(ss, ii + 1, x) && !unrenderable(te, x) implies ba@[x as int]
                == body_affected(te, le, dirty@, removed@, x) by {
            assert(x != first);
        }
        assert forall|k: u32|
            #[trigger] processed(ss, ii + 1, k) && renderable(te, single@, k) implies backmatters@.contains_key(k)
                && backmatters@[k]@ == backmatter_of(te, le, k) by {
            assert(k != first);
        }
        assert forall|k: u32|
            !(#[trigger] processed(ss, ii + 1, k) && renderable(te, single@, k)) implies (
            backmatters@.contains_key(k) == before.contains_key(k) && (before.contains_key(k)
                ==> backmatters@[k] == before[k])) by {
            if processed(ss, ii, k) {
                assert(processed(ss, ii + 1, k));
            }
            assert(!(processed(ss, ii, k) && renderable(te, single@, k)));
        }
        assert forall|x: u32|
            #[trigger] processed(ss, ii + 1, x) && renderable(te, single@, x) && (body_affected(
                te,
                le,
                dirty@,
                removed@,
                x,
            ) || backmatter_stale(stored_backmatter(before, x), backmatter_of(te, le, x), dirty@, removed@))
                implies exists|a: int| 0 <= a < items@.len() && (#[trigger] items@[a]).node_id.0 == x by {
            assert(x != first);
            assert(processed(ss, ii, x));
        }
        assert forall|a: int| 0 <= a < items@.len() implies 0 <= #[trigger] item_scc[a] < ii + 1 by {}
    }
}


/// The outlinks gathered from the node's links and from the stored
/// backmatters of its renderable targets are its outlinks.
proof fn lemma_gathered_outlinks(
    te: Set<(u32, u32)>,
    le: Set<(u32, u32)>,
    single: Seq<bool>,
    first: u32,
    targets: Seq<u32>,
    links: Seq<u32>,
    out: Seq<u32>,
    bm: Map<u32, Backmatter>,
)
    requires
        forall|a: u32, b: u32| #[trigger] te.contains((a, b)) ==> single[a as int],
        forall|a: u32, b: u32| #[trigger] le.contains((a, b)) ==> single[a as int],
        forall|x: u32| targets.contains(x) <==> te.contains((first, x)),
        forall|x: u32| links.contains(x) <==> le.contains((first, x)),
        forall|x: u32| #[trigger] targets.contains(x) && single[x as int] ==> bm.contains_key(x) && bm[x]@ == backmatter_of(te, le, x),
        forall|y: u32|
            #[trigger] out.contains(y) <==> (links.contains(y) || exists|x: u32|
                #[trigger] targets.contains(x) && single[x as int] && bm[x].outlinks@.contains(y)),
    ensures
        out.to_set() == outlinks_of(te, le, first),
{
    assert forall|y: u32| out.to_set().contains(y) <==> outlinks_of(te, le, first).contains(y) by {
        lemma_outlinks_unfold(te, le, first, y);
        if out.contains(y) && !links.contains(y) {
            let x = choose|x: u32| #[trigger] targets.contains(x) && single[x as int] && bm[x].outlinks@.contains(y);
            assert(te.contains((first, x)));
            assert(bm[x]@.outlinks.contains(y));
        }
        if exists|x: u32| #[trigger] te.contains((first, x)) && outlinks_of(te, le, x).contains(y) {
            let x = choose|x: u32| #[trigger] te.contains((first, x)) && outlinks_of(te, le, x).contains(y);
            assert(targets.contains(x));
            if !single[x as int] {
                let m = choose|m: u32| #[trigger] reaches(te, x, m) && le.contains((m, y));
                assert forall|w: u32| !te.contains((x, w)) by {}
                lemma_reaches_from_sink(te, x, m);
                assert(false);
            }
            assert(bm[x]@.outlinks.contains(y));
            assert(bm[x].outlinks@.contains(y));
        }
        if le.contains((first, y)) {
            assert(links.contains(y));
        }
    }
    assert(out.to_set() =~= outlinks_of(te, le, first));
}

/// Step over a node that reaches no cycle: record whether its body is
/// affected and, if it is defined once, store its backmatter and plan it
/// when its body or backmatter must be rendered.
#[verifier::rlimit(100)]
fn step_open(
    t: &DiGraphMap<u32, ()>,
    l: &DiGraphMap<u32, ()>,
    single: &Vec<bool>,
    dirty: &HashSet<u32>,
    removed: &HashSet<u32>,
    Ghost(before): Ghost<Map<u32, Backmatter>>,
    sccs: &Vec<Vec<u32>>,
    i: usize,
    first: u32,
    un: &Vec<bool>,
    ba: &mut Vec<bool>,
    backmatters: &mut HashMap<u32, Backmatter>,
    items: &mut Vec<RenderItem>,
    Ghost(item_scc): Ghost<Seq<int>>,
    targets: &Vec<u32>,
    links: &Vec<u32>,
    affected: bool,
) -> (new_scc: Ghost<Seq<int>>)
    requires
        graphs_wf(*t, *l, single@),
        is_scc_order(graph_nodes(*t), graph_edges(*t), sccs@),
        i < sccs@.len(),
        sccs@[i as int]@.len() == 1,
        first == sccs@[i as int]@[0],
        (first as int) < single@.len(),
        !unrenderable(graph_edges(*t), first),
        affected == body_affected(graph_edges(*t), graph_edges(*l), dirty@, removed@, first),
        targets@.no_duplicates(),
        forall|x: u32| targets@.contains(x) <==> graph_edges(*t).contains((first, x)),
        links@.no_duplicates(),
        forall|x: u32| links@.contains(x) <==> graph_edges(*l).contains((first, x)),
        walk_state(
            graph_edges(*t),
            graph_edges(*l),
            single@,
            dirty@,
            removed@,
            before,
            sccs@,
            i as int,
            un@,
            old(ba)@,
            old(backmatters)@,
            old(items)@,
            item_scc,
        ),
    ensures
        walk_state(
            graph_edges(*t),
            graph_edges(*l),
            single@,
            dirty@,
            removed@,
            before,
            sccs@,
            i + 1,
            un@,
            final(ba)@,
            final(backmatters)@,
            final(items)@,
            new_scc@,
        ),
{
    let ghost te = graph_edges(*t);
    let ghost le = graph_edges(*l);
    let ghost nodes = graph_nodes(*t);
    let ghost ss = sccs@;
    let ghost ii = i as int;
    let ghost ba0 = ba@;
    let ghost bm0 = backmatters@;
    let ghost items0 = items@;
    proof {
        reveal(walk_state);
        lemma_step_members(nodes, te, ss, ii);
        assert forall|x: u32| ss[ii]@.contains(x) <==> x == first by {
            if ss[ii]@.contains(x) {
                let q = choose|q: int| 0 <= q < ss[ii]@.len() && ss[ii]@[q] == x;
                assert(q == 0);
            }
            if x == first {
                assert(ss[ii]@[0] == x);
            }
        }
        assert forall|x: u32| #[trigger] targets@.contains(x) implies processed(ss, ii, x) && (x as int) < single@.len() by {
            assert(te.contains((first, x)));
            reveal(is_scc_order);
            assert(nodes.contains(ss[ii]@[0]));
            lemma_scc_cycles(nodes, te, ss, ii);
            lemma_targets_earlier(nodes, te, ss, ii, x);
        }
        lemma_unrenderable_unfold(te, first);
    }
    ba.set(first as usize, affected);
    if single[first as usize] {
        let contexts = graph_sources(t, first);
        let backlinks = graph_sources(l, first);
        proof {
            assert forall|k: int| 0 <= k < targets@.len() implies (#[trigger] targets@[k] as int) < single@.len() by {
                assert(targets@.contains(targets@[k]));
            }
            assert forall|x: u32| #[trigger] targets@.contains(x) && single@[x as int] implies backmatters@.contains_key(x)
                && backmatters@[x]@ == backmatter_of(te, le, x) by {
                assert(te.contains((first, x)));
                assert(renderable(te, single@, x));
            }
        }
        let outlinks = collect_outlinks(links, targets, single, backmatters);
        let new_bm = Backmatter { contexts, backlinks, outlinks };
        proof {
            assert(new_bm@.contexts =~= sources_of(te, first));
            assert(new_bm@.backlinks =~= sources_of(le, first));
            lemma_gathered_outlinks(te, le, single@, first, targets@, links@, outlinks@, backmatters@);
            assert(new_bm@ == backmatter_of(te, le, first));
            assert(renderable(te, single@, first));
            assert(!processed(ss, ii, first));
            assert(backmatters@.contains_key(first) == before.contains_key(first));
        }
        let needs_backmatter = should_backmatter_render(backmatters.get(&first), &new_bm, dirty, removed);
        proof {
            assert(needs_backmatter == backmatter_stale(stored_backmatter(before, first), backmatter_of(te, le, first), dirty@, removed@));
        }
        backmatters.insert(first, new_bm);
        let ghost mut next_scc = item_scc;
        if affected || needs_backmatter {
            items.push(RenderItem { node_id: NodeId(first), needs_body: affected, needs_backmatter });
            proof {
                next_scc = item_scc.push(ii);
            }
        }
        proof {
            reveal(walk_state);
            assert forall|a: int|
                0 <= a < items@.len() implies 0 <= #[trigger] next_scc[a] < ii + 1 && ss[next_scc[a]]@.len() == 1
                    && ss[next_scc[a]]@[0] == items@[a].node_id.0 by {
                if a < items0.len() {
                    assert(items@[a] == items0[a]);
                    assert(next_scc[a] == item_scc[a]);
                }
            }
            assert forall|a: int, b: int| 0 <= a < b < items@.len() implies #[trigger] next_scc[a] < #[trigger] next_scc[b] by {
                if b < items0.len() {
                    assert(next_scc[a] == item_scc[a] && next_scc[b] == item_scc[b]);
                } else {
                    assert(next_scc[a] == item_scc[a]);
                }
            }
            assert forall|a: int|
                0 <= a < items@.len() implies {
                    let x = (#[trigger] items@[a]).node_id.0;
                    &&& renderable(te, single@, x)
                    &&& items@[a].needs_body == body_affected(te, le, dirty@, removed@, x)
                    &&& items@[a].needs_backmatter == backmatter_stale(
                        stored_backmatter(before, x),
                        backmatter_of(te, le, x),
                        dirty@,
                        removed@,
                    )
                } by {
                if a < items0.len() {
                    assert(items@[a] == items0[a]);
                }
            }
            assert forall|x: u32|
                (x as int) < single@.len() && #[trigger] processed(ss, ii + 1, x) && !unrenderable(te, x) implies ba@[x as int]
                    == body_affected(te, le, dirty@, removed@, x) by {
                if x != first {
                    assert(ba@[x as int] == ba0[x as int]);
                }
            }
            assert forall|x: u32| (x as int) < single@.len() && !#[trigger] processed(ss, ii + 1, x) implies !un@[x as int] by {
                assert(x != first);
            }
            assert forall|k: u32| #[trigger] backmatters@.contains_key(k) implies backmatters@[k].wf() by {
                if k != first {
                    assert(bm0.contains_key(k));
                }
            }
            assert forall|k: u32|
                #[trigger] processed(ss, ii + 1, k) && renderable(te, single@, k) implies backmatters@.contains_key(k)
                    && backmatters@[k]@ == backmatter_of(te, le, k) by {
                if k != first {
                    assert(processed(ss, ii, k));
                }
            }
            assert forall|k: u32|
                !(#[trigger] processed(ss, ii + 1, k) && renderable(te, single@, k)) implies (
                backmatters@.contains_key(k) == before.contains_key(k) && (before.contains_key(k)
                    ==> backmatters@[k] == before[k])) by {
                assert(k != first);
                if processed(ss, ii, k) {
                    assert(processed(ss, ii + 1, k));
                }
                assert(!(processed(ss, ii, k) && renderable(te, single@, k)));
            }
            assert forall|x: u32|
                #[trigger] processed(ss, ii + 1, x) && renderable(te, single@, x) && (body_affected(
                    te,
                    le,
                    dirty@,
                    removed@,
                    x,
                ) || backmatter_stale(stored_backmatter(before, x), backmatter_of(te, le, x), dirty@, removed@))
                    implies exists|a: int| 0 <= a < items@.len() && (#[trigger] items@[a]).node_id.0 == x by {
                if x == first {
                    assert(items@[items@.len() - 1].node_id.0 == x);
                } else {
                    assert(processed(ss, ii, x));
                    let a = choose|a: int| 0 <= a < items0.len() && (#[trigger] items0[a]).node_id.0 == x;
                    assert(items@[a] == items0[a]);
                }
            }
        }
        Ghost(next_scc)
    } else {
        proof {
            reveal(walk_state);
            assert(!renderable(te, single@, first));
            assert forall|x: u32|
                (x as int) < single@.len() && #[trigger] processed(ss, ii + 1, x) && !unrenderable(te, x) implies ba@[x as int]
                    == body_affected(te, le, dirty@, removed@, x) by {
                if x != first {
                    assert(ba@[x as int] == ba0[x as int]);
                }
            }
            assert forall|x: u32| (x as int) < single@.len() && !#[trigger] processed(ss, ii + 1, x) implies !un@[x as int] by {
                assert(x != first);
            }
            assert forall|k: u32|
                #[trigger] processed(ss, ii + 1, k) && renderable(te, single@, k) implies backmatters@.contains_key(k)
                    && backmatters@[k]@ == backmatter_of(te, le, k) by {
                assert(k != first);
            }
            assert forall|k: u32|
                !(#[trigger] processed(ss, ii + 1, k) && renderable(te, single@, k)) implies (
                backmatters@.contains_key(k) == before.contains_key(k) && (before.contains_key(k)
                    ==> backmatters@[k] == before[k])) by {
                if processed(ss, ii, k) {
                    assert(processed(ss, ii + 1, k));
                }
                assert(!(processed(ss, ii, k) && renderable(te, single@, k)));
            }
            assert forall|x: u32|
                #[trigger] processed(ss, ii + 1, x) && renderable(te, single@, x) && (body_affected(
                    te,
                    le,
                    dirty@,
                    removed@,
                    x,
                ) || backmatter_stale(stored_backmatter(before, x), backmatter_of(te, le, x), dirty@, removed@))
                    implies exists|a: int| 0 <= a < items@.len() && (#[trigger] items@[a]).node_id.0 == x by {
                assert(x != first);
                assert(processed(ss, ii, x));
            }
            assert forall|a: int| 0 <= a < items@.len() implies 0 <= #[trigger] item_scc[a] < ii + 1 by {}
        }
        Ghost(item_scc)
    }
}


/// Walks the components of the transclusion graph `t` in the postorder
/// `sccs` and decides, for each node, whether it reaches a transclusion
/// cycle, whether its body is affected by the changes in `dirty` and
/// `removed`, and what its backmatter is. Stores the backmatter of each
/// renderable node, leaves the others as they were, and returns the render
/// plan with, for each node, whether it is renderable.
pub fn plan_from_components(
    t: &DiGraphMap<u32, ()>,
    l: &DiGraphMap<u32, ()>,
    single: &Vec<bool>,
    dirty: &HashSet<u32>,
    removed: &HashSet<u32>,
    backmatters: &mut HashMap<u32, Backmatter>,
    sccs: &Vec<Vec<u32>>,
) -> (result: (Vec<RenderItem>, Vec<bool>))
    requires
        graphs_wf(*t, *l, single@),
        is_scc_order(graph_nodes(*t), graph_edges(*t), sccs@),
        forall|k: u32| #[trigger] old(backmatters)@.contains_key(k) ==> old(backmatters)@[k].wf(),
    ensures
        result.1@.len() == single@.len(),
        forall|x: u32|
            (x as int) < single@.len() ==> #[trigger] result.1@[x as int] == renderable(
                graph_edges(*t),
                single@,
                x,
            ),
        forall|k: u32| #[trigger] final(backmatters)@.contains_key(k) ==> final(backmatters)@[k].wf(),
        forall|k: u32|
            #[trigger] renderable(graph_edges(*t), single@, k) ==> final(backmatters)@.contains_key(k)
                && final(backmatters)@[k]@ == backmatter_of(graph_edges(*t), graph_edges(*l), k),
        forall|k: u32|
            !renderable(graph_edges(*t), single@, k) ==> (#[trigger] final(backmatters)@.contains_key(k)
                == old(backmatters)@.contains_key(k) && (old(backmatters)@.contains_key(k)
                ==> final(backmatters)@[k] == old(backmatters)@[k])),
        plan_matches(
            result.0@,
            graph_edges(*t),
            graph_edges(*l),
            single@,
            dirty@,
            removed@,
            old(backmatters)@,
        ),
{
    let ghost te = graph_edges(*t);
    let ghost le = graph_edges(*l);
    let ghost before = backmatters@;
    let n_nodes = single.len();
    let mut un: Vec<bool> = Vec::new();
    let mut ba: Vec<bool> = Vec::new();
    let mut z: usize = 0;
    while z < n_nodes
        invariant
            z <= n_nodes,
            n_nodes == single@.len(),
            un@.len() == z,
            ba@.len() == z,
            forall|q: int| 0 <= q < z ==> !un@[q],
        decreases n_nodes - z,
    {
        un.push(false);
        ba.push(false);
        z = z + 1;
    }
    let mut items: Vec<RenderItem> = Vec::new();
    let ghost mut item_scc: Seq<int> = Seq::empty();
    proof {
        reveal(walk_state);
        assert forall|x: u32| !#[trigger] processed(sccs@, 0, x) by {}
    }
    let mut i: usize = 0;
    while i < sccs.len()
        invariant
            graphs_wf(*t, *l, single@),
            is_scc_order(graph_nodes(*t), graph_edges(*t), sccs@),
            te == graph_edges(*t),
            le == graph_edges(*l),
            i <= sccs@.len(),
            walk_state(te, le, single@, dirty@, removed@, before, sccs@, i as int, un@, ba@, backmatters@, items@, item_scc),
        decreases sccs@.len() - i,
    {
        let scc = &sccs[i];
        proof {
            reveal(is_scc_order);
            assert(sccs@[i as int]@.len() > 0);
        }
        let first = scc[0];
        if scc.len() > 1 || graph_has_edge(t, first, first) {
            step_cyclic(t, l, single, dirty, removed, Ghost(before), sccs, i, &mut un, &ba, backmatters, &items, Ghost(item_scc));
        } else {
            let (targets, links, blocked, affected) = scan_node(
                t,
                l,
                single,
                dirty,
                removed,
                Ghost(before),
                sccs,
                i,
                first,
                &un,
                &ba,
                Ghost(backmatters@),
                Ghost(items@),
                Ghost(item_scc),
            );
            if blocked {
                step_blocked(t, l, single, dirty, removed, Ghost(before), sccs, i, first, &mut un, &ba, backmatters, &items, Ghost(item_scc));
            } else {
                let Ghost(next) = step_open(
                    t,
                    l,
                    single,
                    dirty,
                    removed,
                    Ghost(before),
                    sccs,
                    i,
                    first,
                    &un,
                    &mut ba,
                    backmatters,
                    &mut items,
                    Ghost(item_scc),
                    &targets,
                    &links,
                    affected,
                );
                proof {
                    item_scc = next;
                }
            }
        }
        i = i + 1;
    }
    let mut rendered: Vec<bool> = Vec::new();
    let mut x: usize = 0;
    while x < n_nodes
        invariant
            x <= n_nodes,
            n_nodes == single@.len(),
            walk_state(te, le, single@, dirty@, removed@, before, sccs@, sccs@.len() as int, un@, ba@, backmatters@, items@, item_scc),
            rendered@.len() == x,
            forall|q: int| 0 <= q < x ==> #[trigger] rendered@[q] == (single@[q] && !un@[q]),
        decreases n_nodes - x,
    {
        proof {
            reveal(walk_state);
        }
        rendered.push(single[x] && !un[x]);
        x = x + 1;
    }
    proof {
        lemma_walk_done(*t, *l, single@, dirty@, removed@, before, sccs@, un@, ba@, backmatters@, items@, item_scc, rendered@);
    }
    (items, rendered)
}

/// What the finished walk establishes.
#[verifier::rlimit(60)]
proof fn lemma_walk_done(
    t: DiGraphMap<u32, ()>,
    l: DiGraphMap<u32, ()>,
    single: Seq<bool>,
    dirty: Set<u32>,
    removed: Set<u32>,
    before: Map<u32, Backmatter>,
    ss: Seq<Vec<u32>>,
    un: Seq<bool>,
    ba: Seq<bool>,
    bm: Map<u32, Backmatter>,
    items: Seq<RenderItem>,
    item_scc: Seq<int>,
    rendered: Seq<bool>,
)
    requires
        graphs_wf(t, l, single),
        is_scc_order(graph_nodes(t), graph_edges(t), ss),
        walk_state(graph_edges(t), graph_edges(l), single, dirty, removed, before, ss, ss.len() as int, un, ba, bm, items, item_scc),
        rendered.len() == single.len(),
        forall|q: int| 0 <= q < single.len() ==> #[trigger] rendered[q] == (single[q] && !un[q]),
    ensures
        forall|x: u32| (x as int) < single.len() ==> #[trigger] rendered[x as int] == renderable(graph_edges(t), single, x),
        forall|k: u32| #[trigger] bm.contains_key(k) ==> bm[k].wf(),
        forall|k: u32|
            #[trigger] renderable(graph_edges(t), single, k) ==> bm.contains_key(k) && bm[k]@ == backmatter_of(
                graph_edges(t),
                graph_edges(l),
                k,
            ),
        forall|k: u32|
            !renderable(graph_edges(t), single, k) ==> (#[trigger] bm.contains_key(k) == before.contains_key(k)
                && (before.contains_key(k) ==> bm[k] == before[k])),
        plan_matches(items, graph_edges(t), graph_edges(l), single, dirty, removed, before),
{
    reveal(is_scc_order);
    reveal(walk_state);
    let te = graph_edges(t);
    let le = graph_edges(l);
    let nodes = graph_nodes(t);
    let len = ss.len() as int;
    assert forall|y: u32| (y as int) < single.len() implies processed(ss, len, y) == nodes.contains(y) by {
        if nodes.contains(y) {
            let (j, p) = choose|j: int, p: int| 0 <= j < ss.len() && 0 <= p < ss[j]@.len() && #[trigger] ss[j]@[p] == y;
            assert(processed(ss, len, y));
        }
        if processed(ss, len, y) {
            let (j, p) = choose|j: int, p: int| 0 <= j < len && 0 <= p < ss[j]@.len() && #[trigger] ss[j]@[p] == y;
            assert(nodes.contains(ss[j]@[p]));
        }
    }
    assert forall|y: u32| !nodes.contains(y) implies !unrenderable(te, y) by {
        if unrenderable(te, y) {
            let c = choose|c: u32| on_cycle(te, c) && #[trigger] reaches(te, y, c);
            assert forall|w: u32| !te.contains((y, w)) by {}
            lemma_reaches_from_sink(te, y, c);
            let m = choose|m: u32| #[trigger] te.contains((c, m)) && reaches(te, m, c);
        }
    }
    assert forall|x: u32| (x as int) < single.len() implies #[trigger] rendered[x as int] == renderable(te, single, x) by {
        if !nodes.contains(x) {
            assert(!single[x as int]);
            assert(!processed(ss, len, x));
        } else {
            assert(processed(ss, len, x));
        }
    }
    assert forall|k: u32| #[trigger] renderable(te, single, k) implies processed(ss, len, k) by {
        assert(nodes.contains(k));
    }
    assert forall|k: u32|
        !renderable(te, single, k) implies (#[trigger] bm.contains_key(k) == before.contains_key(k)
            && (before.contains_key(k) ==> bm[k] == before[k])) by {
        if processed(ss, len, k) {
            assert(!renderable(te, single, k));
            assert(bm.contains_key(k) == before.contains_key(k));
        } else {
            assert(bm.contains_key(k) == before.contains_key(k));
        }
    }
    assert forall|a: int, b: int|
        0 <= a < b < items.len() implies (#[trigger] items[a]).node_id != (#[trigger] items[b]).node_id by {
        let ja = item_scc[a];
        let jb = item_scc[b];
        assert(ja < jb);
        if items[a].node_id == items[b].node_id {
            assert(ss[ja]@[0] == ss[jb]@[0]);
        }
    }
    assert forall|a: int, b: int|
        0 <= a < items.len() && 0 <= b < items.len() && te.contains(
            ((#[trigger] items[a]).node_id.0, (#[trigger] items[b]).node_id.0),
        ) implies b < a by {
        let ja = item_scc[a];
        let jb = item_scc[b];
        assert(te.contains((ss[ja]@[0], ss[jb]@[0])));
        assert(jb <= ja);
        if a == b {
            let x = items[a].node_id.0;
            lemma_reaches_step(te, x, x);
            assert(on_cycle(te, x));
            assert(unrenderable(te, x));
        } else if a < b {
            assert(ja < jb);
        }
    }
}


/// When every node defined once has changed, as after compiling everything
/// afresh, the plan renders every renderable node, body and all.
pub proof fn lemma_all_changed_plans_all(
    items: Seq<RenderItem>,
    t: Set<(u32, u32)>,
    l: Set<(u32, u32)>,
    single: Seq<bool>,
    dirty: Set<u32>,
    removed: Set<u32>,
    before: Map<u32, Backmatter>,
)
    requires
        plan_matches(items, t, l, single, dirty, removed, before),
        forall|k: u32| (k as int) < single.len() && #[trigger] single[k as int] ==> dirty.contains(k),
    ensures
        forall|x: u32|
            #[trigger] renderable(t, single, x) ==> exists|a: int| 0 <= a < items.len() && items[a].node_id.0 == x,
        forall|a: int| 0 <= a < items.len() ==> #[trigger] items[a].needs_body,
{
    assert forall|x: u32| renderable(t, single, x) implies body_affected(t, l, dirty, removed, x) by {
        lemma_reaches_step(t, x, x);
        assert(changed_locally(t, l, dirty, removed, x));
    }
    assert forall|x: u32|
        #[trigger] renderable(t, single, x) implies exists|a: int| 0 <= a < items.len() && items[a].node_id.0 == x by {
        assert(body_affected(t, l, dirty, removed, x));
        let a = choose|a: int| 0 <= a < items.len() && (#[trigger] items[a]).node_id.0 == x;
    }
    assert forall|a: int| 0 <= a < items.len() implies #[trigger] items[a].needs_body by {
        let x = items[a].node_id.0;
        assert(renderable(t, single, x));
        assert(body_affected(t, l, dirty, removed, x));
    }
}

} // verus!
