use std::collections::HashMap;

use vstd::prelude::*;

use crate::interner::NodeId;

verus! {

broadcast use vstd::std_specs::hash::group_hash_axioms;

/// Graph of transclusion relationships between nodes.
///
/// Nodes are kept densely numbered by position; `forward[i]` lists the
/// positions that node `i` directly transcludes and `reverse[i]` the positions
/// of the nodes that directly transclude node `i`. Used for topological sort
/// (rendering order), cycle detection, and reverse invalidation.
pub struct TransclusionGraph {
    ids: Vec<NodeId>,
    index: HashMap<u32, usize>,
    forward: Vec<Vec<usize>>,
    reverse: Vec<Vec<usize>>,
}

/// Whether node `n` is named by an entry, as its source or as a target.
pub open spec fn node_in(entries: Seq<(NodeId, Vec<NodeId>)>, n: u32) -> bool {
    exists|e: int|
        0 <= e < entries.len() && ((#[trigger] entries[e]).0.0 == n || entries[e].1@.contains(
            NodeId(n),
        ))
}

/// Whether an entry says that `a` directly transcludes `b`.
pub open spec fn edge_in(entries: Seq<(NodeId, Vec<NodeId>)>, a: u32, b: u32) -> bool {
    exists|e: int|
        0 <= e < entries.len() && (#[trigger] entries[e]).0.0 == a && entries[e].1@.contains(
            NodeId(b),
        )
}

/// The error returned when the transclusions form a cycle: the nodes of the
/// cycle in order, each transcluding the next and the last the first.
#[derive(Clone, Debug)]
pub struct TransclusionCycle {
    pub nodes: Vec<NodeId>,
}

impl TransclusionGraph {
    /// Internal consistency of the dense representation.
    pub closed spec fn wf(&self) -> bool {
        let n = self.ids@.len();
        &&& self.forward@.len() == n
        &&& self.reverse@.len() == n
        &&& n < usize::MAX
        &&& forall|i: int|
            0 <= i < n ==> self.index@.contains_key(#[trigger] self.ids@[i].0)
                && self.index@[self.ids@[i].0] == i
        &&& forall|k: u32|
            #[trigger] self.index@.contains_key(k) ==> (self.index@[k] as int) < n
                && self.ids@[self.index@[k] as int].0 == k
        &&& forall|i: int, j: int|
            0 <= i < n && 0 <= j < self.forward@[i]@.len() ==> (#[trigger] self.forward@[i]@[j])
                < n
        &&& forall|i: int, j: int|
            0 <= i < n && 0 <= j < self.reverse@[i]@.len() ==> (#[trigger] self.reverse@[i]@[j])
                < n
        &&& forall|i: int, j: int|
            #![trigger self.forward@[i]@.contains(j as usize)]
            #![trigger self.reverse@[j]@.contains(i as usize)]
            0 <= i < n && 0 <= j < n ==> (self.forward@[i]@.contains(j as usize)
                <==> self.reverse@[j]@.contains(i as usize))
    }

    /// The nodes of the graph.
    pub closed spec fn has_node(&self, n: u32) -> bool {
        self.index@.contains_key(n)
    }

    /// Whether node `a` directly transcludes node `b`.
    pub closed spec fn edge(&self, a: u32, b: u32) -> bool {
        &&& self.index@.contains_key(a)
        &&& self.index@.contains_key(b)
        &&& self.forward@[self.index@[a] as int]@.contains(self.index@[b])
    }

    /// Number of nodes.
    pub closed spec fn size(&self) -> nat {
        self.ids@.len()
    }

    /// The node at dense position `i`.
    spec fn id_at(&self, i: int) -> u32 {
        self.ids@[i].0
    }

    proof fn lemma_edge_positions(&self, i: int, j: int)
        requires
            self.wf(),
            0 <= i < self.ids@.len(),
            0 <= j < self.ids@.len(),
        ensures
            self.edge(self.id_at(i), self.id_at(j)) <==> self.forward@[i]@.contains(j as usize),
            self.has_node(self.id_at(i)),
    {
    }

    proof fn lemma_position_of(&self, a: u32)
        requires
            self.wf(),
            self.has_node(a),
        ensures
            0 <= self.index@[a] < self.ids@.len(),
            self.id_at(self.index@[a] as int) == a,
    {
    }

    fn empty() -> (g: Self)
        ensures
            g.wf(),
            g.size() == 0,
            forall|n: u32| !g.has_node(n),
    {
        TransclusionGraph {
            ids: Vec::new(),
            index: HashMap::new(),
            forward: Vec::new(),
            reverse: Vec::new(),
        }
    }

    /// Returns the position of `node`, adding it first if it is new.
    fn ensure_node(&mut self, node: NodeId) -> (i: usize)
        requires
            old(self).wf(),
            old(self).size() + 1 < usize::MAX,
        ensures
            final(self).wf(),
            forall|n: u32| final(self).has_node(n) <==> (old(self).has_node(n) || n == node.0),
            forall|a: u32, b: u32| final(self).edge(a, b) <==> old(self).edge(a, b),
            (i as int) < final(self).size(),
            final(self).id_at(i as int) == node.0,
            final(self).size() <= old(self).size() + 1,
            final(self).size() >= old(self).size(),
            forall|k: int| 0 <= k < old(self).size() ==> final(self).id_at(k) == old(self).id_at(k),
    {
        match self.index.get(&node.0) {
            Some(found) => {
                return *found;
            },
            None => {},
        }
        let ghost prev = *self;
        let i = self.ids.len();
        self.ids.push(node);
        self.index.insert(node.0, i);
        self.forward.push(Vec::new());
        self.reverse.push(Vec::new());
        proof {
            let n = self.ids@.len() as int;
            assert forall|p: int| 0 <= p < n implies self.index@.contains_key(
                #[trigger] self.ids@[p].0,
            ) && self.index@[self.ids@[p].0] == p by {
                if p < n - 1 {
                    assert(self.ids@[p] == prev.ids@[p]);
                    assert(prev.index@.contains_key(prev.ids@[p].0));
                }
            }
            assert forall|p: int, q: int|
                0 <= p < n && 0 <= q < self.forward@[p]@.len() implies (
                #[trigger] self.forward@[p]@[q]) < n by {
                if p < n - 1 {
                    assert(self.forward@[p] == prev.forward@[p]);
                }
            }
            assert forall|p: int, q: int|
                0 <= p < n && 0 <= q < self.reverse@[p]@.len() implies (
                #[trigger] self.reverse@[p]@[q]) < n by {
                if p < n - 1 {
                    assert(self.reverse@[p] == prev.reverse@[p]);
                }
            }
            assert forall|p: int, q: int| 0 <= p < n && 0 <= q < n implies (
            #[trigger] self.forward@[p]@.contains(q as usize)
                <==> #[trigger] self.reverse@[q]@.contains(p as usize)) by {
                if p < n - 1 && q < n - 1 {
                    assert(self.forward@[p] == prev.forward@[p]);
                    assert(self.reverse@[q] == prev.reverse@[q]);
                } else if p == n - 1 {
                    assert(self.forward@[p]@ =~= Seq::<usize>::empty());
                    if q < n - 1 {
                        assert(self.reverse@[q] == prev.reverse@[q]);
                        if self.reverse@[q]@.contains(p as usize) {
                            let k = choose|k: int|
                                0 <= k < prev.reverse@[q]@.len() && prev.reverse@[q]@[k]
                                    == p as usize;
                            assert(prev.reverse@[q]@[k] < n - 1);
                        }
                    } else {
                        assert(self.reverse@[q]@ =~= Seq::<usize>::empty());
                    }
                } else {
                    assert(self.reverse@[q]@ =~= Seq::<usize>::empty());
                    assert(self.forward@[p] == prev.forward@[p]);
                    if self.forward@[p]@.contains(q as usize) {
                        let k = choose|k: int|
                            0 <= k < prev.forward@[p]@.len() && prev.forward@[p]@[k] == q as usize;
                        assert(prev.forward@[p]@[k] < n - 1);
                    }
                }
            }
            assert forall|a: u32, b: u32| self.edge(a, b) <==> prev.edge(a, b) by {
                if prev.index@.contains_key(a) {
                    assert(self.forward@[prev.index@[a] as int] == prev.forward@[prev.index@[a] as int]);
                }
                if self.index@.contains_key(a) && a != node.0 {
                    assert(prev.index@.contains_key(a));
                }
                if self.index@.contains_key(b) && b != node.0 {
                    assert(prev.index@.contains_key(b));
                }
                if a == node.0 {
                    assert(self.forward@[i as int]@ =~= Seq::<usize>::empty());
                }
                if b == node.0 && prev.index@.contains_key(a) && self.forward@[prev.index@[a] as int]@.contains(i) {
                    let pa = prev.index@[a] as int;
                    let k = choose|k: int|
                        0 <= k < prev.forward@[pa]@.len() && prev.forward@[pa]@[k] == i;
                    assert(prev.forward@[pa]@[k] < prev.ids@.len());
                }
            }
        }
        i
    }

    /// Whether `v` holds `x`.
    fn holds(v: &Vec<usize>, x: usize) -> (b: bool)
        ensures
            b == v@.contains(x),
    {
        let mut k: usize = 0;
        while k < v.len()
            invariant
                k <= v@.len(),
                forall|p: int| 0 <= p < k ==> v@[p] != x,
            decreases v@.len() - k,
        {
            if v[k] == x {
                return true;
            }
            k = k + 1;
        }
        false
    }

    /// Adds the edge from position `i` to position `j` if it is absent.
    fn add_edge(&mut self, i: usize, j: usize)
        requires
            old(self).wf(),
            (i as int) < old(self).size(),
            (j as int) < old(self).size(),
        ensures
            final(self).wf(),
            final(self).size() == old(self).size(),
            forall|n: u32| final(self).has_node(n) <==> old(self).has_node(n),
            forall|k: int| 0 <= k < old(self).size() ==> final(self).id_at(k) == old(self).id_at(k),
            forall|a: u32, b: u32|
                final(self).edge(a, b) <==> (old(self).edge(a, b) || (a == old(self).id_at(
                    i as int,
                ) && b == old(self).id_at(j as int))),
    {
        if Self::holds(&self.forward[i], j) {
            proof {
                assert forall|a: u32, b: u32|
                    self.edge(a, b) <==> (self.edge(a, b) || (a == self.id_at(i as int) && b
                        == self.id_at(j as int))) by {
                    if a == self.id_at(i as int) && b == self.id_at(j as int) {
                        self.lemma_edge_positions(i as int, j as int);
                    }
                }
            }
            return;
        }
        let ghost prev = *old(self);
        self.forward[i].push(j);
        self.reverse[j].push(i);
        proof {
            Self::lemma_push_edge(prev, *self, i as int, j as int);
        }
    }

    proof fn lemma_push_edge(prev: Self, cur: Self, i: int, j: int)
        requires
            prev.wf(),
            0 <= i < prev.ids@.len(),
            0 <= j < prev.ids@.len(),
            cur.ids == prev.ids,
            cur.index == prev.index,
            cur.forward@.len() == prev.forward@.len(),
            cur.reverse@.len() == prev.reverse@.len(),
            cur.forward@[i]@ == prev.forward@[i]@.push(j as usize),
            cur.reverse@[j]@ == prev.reverse@[j]@.push(i as usize),
            forall|p: int| 0 <= p < prev.ids@.len() && p != i ==> cur.forward@[p] == prev.forward@[p],
            forall|p: int| 0 <= p < prev.ids@.len() && p != j ==> cur.reverse@[p] == prev.reverse@[p],
        ensures
            cur.wf(),
            forall|a: u32, b: u32|
                cur.edge(a, b) <==> (prev.edge(a, b) || (a == prev.id_at(i) && b
                    == prev.id_at(j))),
    {
        let n = cur.ids@.len() as int;
        assert forall|p: int, q: int|
            0 <= p < n && 0 <= q < cur.forward@[p]@.len() implies (
            #[trigger] cur.forward@[p]@[q]) < n by {
            if p != i {
                assert(cur.forward@[p] == prev.forward@[p]);
            } else if q < prev.forward@[p]@.len() {
                assert(cur.forward@[p]@[q] == prev.forward@[p]@[q]);
            }
        }
        assert forall|p: int, q: int|
            0 <= p < n && 0 <= q < cur.reverse@[p]@.len() implies (
            #[trigger] cur.reverse@[p]@[q]) < n by {
            if p != j {
                assert(cur.reverse@[p] == prev.reverse@[p]);
            } else if q < prev.reverse@[p]@.len() {
                assert(cur.reverse@[p]@[q] == prev.reverse@[p]@[q]);
            }
        }
        assert forall|p: int, q: int| 0 <= p < n && 0 <= q < n implies (
        #[trigger] cur.forward@[p]@.contains(q as usize)
            <==> #[trigger] cur.reverse@[q]@.contains(p as usize)) by {
            assert(cur.forward@[p]@.contains(q as usize) <==> (prev.forward@[p]@.contains(
                q as usize,
            ) || (p == i && q == j))) by {
                if p == i {
                    assert(cur.forward@[p]@ == prev.forward@[p]@.push(j as usize));
                    if cur.forward@[p]@.contains(q as usize) {
                        let k = choose|k: int|
                            0 <= k < cur.forward@[p]@.len() && cur.forward@[p]@[k]
                                == q as usize;
                        if k < prev.forward@[p]@.len() {
                            assert(prev.forward@[p]@[k] == q as usize);
                        }
                    }
                    if prev.forward@[p]@.contains(q as usize) {
                        let k = choose|k: int|
                            0 <= k < prev.forward@[p]@.len() && prev.forward@[p]@[k]
                                == q as usize;
                        assert(cur.forward@[p]@[k] == q as usize);
                    }
                    if q == j {
                        assert(cur.forward@[p]@[prev.forward@[p]@.len() as int] == j);
                    }
                } else {
                    assert(cur.forward@[p] == prev.forward@[p]);
                }
            }
            assert(cur.reverse@[q]@.contains(p as usize) <==> (prev.reverse@[q]@.contains(
                p as usize,
            ) || (p == i && q == j))) by {
                if q == j {
                    assert(cur.reverse@[q]@ == prev.reverse@[q]@.push(i as usize));
                    if cur.reverse@[q]@.contains(p as usize) {
                        let k = choose|k: int|
                            0 <= k < cur.reverse@[q]@.len() && cur.reverse@[q]@[k]
                                == p as usize;
                        if k < prev.reverse@[q]@.len() {
                            assert(prev.reverse@[q]@[k] == p as usize);
                        }
                    }
                    if prev.reverse@[q]@.contains(p as usize) {
                        let k = choose|k: int|
                            0 <= k < prev.reverse@[q]@.len() && prev.reverse@[q]@[k]
                                == p as usize;
                        assert(cur.reverse@[q]@[k] == p as usize);
                    }
                    if p == i {
                        assert(cur.reverse@[q]@[prev.reverse@[q]@.len() as int] == i);
                    }
                } else {
                    assert(cur.reverse@[q] == prev.reverse@[q]);
                }
            }
        }
        assert forall|a: u32, b: u32|
            cur.edge(a, b) <==> (prev.edge(a, b) || (a == prev.id_at(i) && b
                == prev.id_at(j))) by {
            assert(cur.index@[cur.ids@[i].0] == i);
            assert(cur.index@[cur.ids@[j].0] == j);
            if cur.index@.contains_key(a) && cur.index@.contains_key(b) {
                let pa = cur.index@[a] as int;
                let pb = cur.index@[b] as int;
                if pa == i {
                    assert(cur.forward@[pa]@ == prev.forward@[pa]@.push(j as usize));
                    if cur.forward@[pa]@.contains(pb as usize) {
                        let k = choose|k: int|
                            0 <= k < cur.forward@[pa]@.len() && cur.forward@[pa]@[k]
                                == pb as usize;
                        if k < prev.forward@[pa]@.len() {
                            assert(prev.forward@[pa]@[k] == pb as usize);
                        }
                    }
                    if prev.forward@[pa]@.contains(pb as usize) {
                        let k = choose|k: int|
                            0 <= k < prev.forward@[pa]@.len() && prev.forward@[pa]@[k]
                                == pb as usize;
                        assert(cur.forward@[pa]@[k] == pb as usize);
                    }
                    if pb == j {
                        assert(cur.forward@[pa]@[prev.forward@[pa]@.len() as int] == j);
                    }
                } else {
                    assert(cur.forward@[pa] == prev.forward@[pa]);
                }
            }
        }
    }

    /// Builds the graph from `(node_id, transclusions)` pairs: its nodes are
    /// every node named in an entry, and `a` transcludes `b` exactly when an
    /// entry for `a` lists `b`.
    pub fn build(entries: &Vec<(NodeId, Vec<NodeId>)>) -> (g: Self)
        requires
            entries_size(entries@) + 2 < usize::MAX,
        ensures
            g.wf(),
            forall|n: u32| g.has_node(n) <==> node_in(entries@, n),
            forall|a: u32, b: u32| g.edge(a, b) <==> edge_in(entries@, a, b),
    {
        let mut g = Self::empty();
        let mut e: usize = 0;
        proof {
            assert(entries@.take(0) =~= Seq::<(NodeId, Vec<NodeId>)>::empty());
        }
        while e < entries.len()
            invariant
                g.wf(),
                e <= entries@.len(),
                entries_size(entries@) + 2 < usize::MAX,
                g.size() <= entries_size(entries@.take(e as int)),
                forall|n: u32| g.has_node(n) <==> node_in(entries@.take(e as int), n),
                forall|a: u32, b: u32| g.edge(a, b) <==> edge_in(entries@.take(e as int), a, b),
            decreases entries@.len() - e,
        {
            proof {
                lemma_entries_size_step(entries@, e as int);
                lemma_entries_size_prefix(entries@, (e + 1) as int);
                lemma_in_step(entries@, e as int);
            }
            let source = entries[e].0;
            let targets = &entries[e].1;
            let i = g.ensure_node(source);
            let mut t: usize = 0;
            proof {
                assert(targets@.take(0) =~= Seq::<NodeId>::empty());
            }
            while t < targets.len()
                invariant
                    g.wf(),
                    e < entries@.len(),
                    targets == &entries@[e as int].1,
                    source == entries@[e as int].0,
                    t <= targets@.len(),
                    (i as int) < g.size(),
                    g.id_at(i as int) == source.0,
                    entries_size(entries@.take(e as int + 1)) <= entries_size(entries@),
                    entries_size(entries@) + 2 < usize::MAX,
                    entries_size(entries@.take(e as int + 1)) == entries_size(entries@.take(e as int)) + 1 + targets@.len(),
                    g.size() <= entries_size(entries@.take(e as int)) + 1 + t,
                    forall|n: u32|
                        g.has_node(n) <==> (node_in(entries@.take(e as int), n) || n == source.0
                            || targets@.take(t as int).contains(NodeId(n))),
                    forall|a: u32, b: u32|
                        g.edge(a, b) <==> (edge_in(entries@.take(e as int), a, b) || (a
                            == source.0 && targets@.take(t as int).contains(NodeId(b)))),
                decreases targets@.len() - t,
            {
                let target = targets[t];
                let ghost before = g;
                let j = g.ensure_node(target);
                let ghost middle = g;
                g.add_edge(i, j);
                proof {
                    assert(targets@.take(t as int + 1) =~= targets@.take(t as int).push(target));
                    assert forall|n: u32| targets@.take(t as int + 1).contains(NodeId(n)) <==> (
                    targets@.take(t as int).contains(NodeId(n)) || n == target.0) by {
                        if n == target.0 {
                            assert(targets@.take(t as int + 1)[t as int] == NodeId(n));
                        }
                        if targets@.take(t as int).contains(NodeId(n)) {
                            let k = choose|k: int| 0 <= k < t && targets@.take(t as int)[k] == NodeId(n);
                            assert(targets@.take(t as int + 1)[k] == NodeId(n));
                        }
                    }
                }
                t = t + 1;
            }
            proof {
                assert(targets@.take(targets@.len() as int) =~= targets@);
            }
            e = e + 1;
        }
        assert(entries@.take(entries@.len() as int) =~= entries@);
        g
    }
}

impl TransclusionGraph {
    /// `order` lists every node exactly once, each after all the nodes it
    /// transcludes.
    pub open spec fn is_topo_order(&self, order: Seq<NodeId>) -> bool {
        &&& forall|p: int, q: int| 0 <= p < q < order.len() ==> order[p] != order[q]
        &&& forall|m: u32| self.has_node(m) <==> order.contains(NodeId(m))
        &&& forall|p: int, q: int|
            0 <= p < order.len() && 0 <= q < order.len() && self.edge(order[p].0, order[q].0)
                ==> q < p
    }

    /// `cycle` is a non-empty sequence of nodes, each transcluding the next and
    /// the last transcluding the first.
    pub open spec fn is_cycle(&self, cycle: Seq<NodeId>) -> bool {
        &&& cycle.len() >= 1
        &&& forall|k: int| 0 <= k < cycle.len() - 1 ==> self.edge(#[trigger] cycle[k].0, cycle[k + 1].0)
        &&& self.edge(cycle.last().0, cycle[0].0)
    }

    spec fn targets_all_done(&self, i: int, done: Seq<bool>) -> bool {
        forall|k: int| 0 <= k < self.forward@[i]@.len() ==> done[#[trigger] self.forward@[i]@[k] as int]
    }

    fn all_targets_done(&self, i: usize, done: &Vec<bool>) -> (b: bool)
        requires
            self.wf(),
            (i as int) < self.size(),
            done@.len() == self.size(),
        ensures
            b == self.targets_all_done(i as int, done@),
    {
        let row = &self.forward[i];
        let mut k: usize = 0;
        while k < row.len()
            invariant
                self.wf(),
                (i as int) < self.size(),
                done@.len() == self.size(),
                row == &self.forward@[i as int],
                k <= row@.len(),
                forall|x: int| 0 <= x < k ==> done@[#[trigger] row@[x] as int],
            decreases row@.len() - k,
        {
            if !done[row[k]] {
                return false;
            }
            k = k + 1;
        }
        true
    }

    fn undone_target(&self, i: usize, done: &Vec<bool>) -> (r: Option<usize>)
        requires
            self.wf(),
            (i as int) < self.size(),
            done@.len() == self.size(),
        ensures
            r matches Some(q) ==> self.forward@[i as int]@.contains(q) && !done@[q as int] && (q as int) < self.size(),
            r is None ==> self.targets_all_done(i as int, done@),
    {
        let row = &self.forward[i];
        let mut k: usize = 0;
        while k < row.len()
            invariant
                self.wf(),
                (i as int) < self.size(),
                done@.len() == self.size(),
                row == &self.forward@[i as int],
                k <= row@.len(),
                forall|x: int| 0 <= x < k ==> done@[#[trigger] row@[x] as int],
            decreases row@.len() - k,
        {
            let q = row[k];
            if !done[q] {
                return Some(q);
            }
            k = k + 1;
        }
        None
    }

    /// Follows not-yet-ordered targets from `start` until a node repeats, and
    /// returns the cycle found.
    fn find_cycle(&self, start: usize, done: &Vec<bool>) -> (cycle: Vec<usize>)
        requires
            self.wf(),
            done@.len() == self.size(),
            (start as int) < self.size(),
            !done@[start as int],
            forall|p: int| 0 <= p < self.size() && !done@[p] ==> !#[trigger] self.targets_all_done(p, done@),
        ensures
            cycle@.len() >= 1,
            forall|k: int| 0 <= k < cycle@.len() ==> (#[trigger] cycle@[k] as int) < self.size(),
            forall|k: int| 0 <= k < cycle@.len() - 1 ==> self.forward@[cycle@[k] as int]@.contains(#[trigger] cycle@[k + 1]),
            self.forward@[cycle@.last() as int]@.contains(cycle@[0]),
    {
        let n = self.ids.len();
        let mut on_path: Vec<bool> = Vec::new();
        let mut x: usize = 0;
        while x < n
            invariant
                x <= n,
                n == self.size(),
                on_path@.len() == x,
                forall|p: int| 0 <= p < x ==> !on_path@[p],
            decreases n - x,
        {
            on_path.push(false);
            x = x + 1;
        }
        let mut path: Vec<usize> = Vec::new();
        path.push(start);
        on_path.set(start, true);
        proof {
            assert forall|p: int| 0 <= p < n implies (on_path@[p] <==> path@.contains(p as usize)) by {
                if p == start as int {
                    assert(path@[0] == start);
                }
            }
        }
        loop
            invariant
                self.wf(),
                n == self.size(),
                done@.len() == n,
                on_path@.len() == n,
                forall|p: int| 0 <= p < n && !done@[p] ==> !#[trigger] self.targets_all_done(p, done@),
                path@.len() >= 1,
                path@.no_duplicates(),
                forall|k: int| 0 <= k < path@.len() ==> (#[trigger] path@[k] as int) < n,
                forall|k: int| 0 <= k < path@.len() ==> !done@[#[trigger] path@[k] as int],
                forall|p: int| 0 <= p < n ==> (on_path@[p] <==> path@.contains(p as usize)),
                forall|k: int| 0 <= k < path@.len() - 1 ==> self.forward@[path@[k] as int]@.contains(#[trigger] path@[k + 1]),
                path@.len() <= n,
            decreases n - path@.len(),
        {
            proof {
                lemma_distinct_bounded(path@, n as int);
            }
            let cur = path[path.len() - 1];
            let next = match self.undone_target(cur, done) {
                Some(q) => q,
                None => {
                    proof {
                        assert(false);
                    }
                    return path;
                },
            };
            if on_path[next] {
                let mut s: usize = 0;
                while path[s] != next
                    invariant
                        s < path@.len(),
                        path@.len() <= n,
                        n < usize::MAX,
                        path@.contains(next),
                        forall|k: int| 0 <= k < s ==> path@[k] != next,
                    decreases path@.len() - s,
                {
                    s = s + 1;
                    if s >= path.len() {
                        proof {
                            let w = choose|w: int| 0 <= w < path@.len() && path@[w] == next;
                            assert(false);
                        }
                        return path;
                    }
                }
                let mut cycle: Vec<usize> = Vec::new();
                let mut k: usize = s;
                while k < path.len()
                    invariant
                        s <= k <= path@.len(),
                        path@[s as int] == next,
                        cycle@ == path@.subrange(s as int, k as int),
                    decreases path@.len() - k,
                {
                    cycle.push(path[k]);
                    k = k + 1;
                }
                proof {
                    assert(cycle@ =~= path@.subrange(s as int, path@.len() as int));
                    assert forall|k: int| 0 <= k < cycle@.len() - 1 implies self.forward@[cycle@[k] as int]@.contains(#[trigger] cycle@[k + 1]) by {
                        assert(cycle@[k] == path@[s + k]);
                        assert(cycle@[k + 1] == path@[s + k + 1]);
                    }
                }
                return cycle;
            }
            let ghost old_path = path@;
            let ghost old_on = on_path@;
            path.push(next);
            on_path.set(next, true);
            proof {
                assert(path@ == old_path.push(next));
                assert(on_path@ == old_on.update(next as int, true));
                assert forall|p: int| 0 <= p < n implies (on_path@[p] <==> path@.contains(p as usize)) by {
                    if p == next as int {
                        assert(path@[path@.len() - 1] == next);
                    } else {
                        assert(on_path@[p] == old_on[p]);
                        if path@.contains(p as usize) {
                            let w = choose|w: int| 0 <= w < path@.len() && path@[w] == p as usize;
                            assert(old_path[w] == p as usize);
                        }
                        if old_path.contains(p as usize) {
                            let w = choose|w: int| 0 <= w < old_path.len() && old_path[w] == p as usize;
                            assert(path@[w] == p as usize);
                        }
                    }
                }
                assert forall|a: int, b: int| 0 <= a < b < path@.len() implies path@[a] != path@[b] by {
                    if b == path@.len() - 1 {
                        if path@[a] == next {
                            assert(old_path[a] == next);
                            assert(old_on[next as int]);
                        }
                    } else {
                        assert(old_path[a] == path@[a] && old_path[b] == path@[b]);
                    }
                }
                lemma_distinct_bounded(path@, n as int);
            }
        }
    }

    /// Returns a topological ordering of all nodes, with dependencies before
    /// dependents. Returns an error holding a transclusion cycle if there is one.
    pub fn topo_sort(&self) -> (result: Result<Vec<NodeId>, TransclusionCycle>)
        requires
            self.wf(),
        ensures
            match result {
                Ok(order) => self.is_topo_order(order@),
                Err(cycle) => self.is_cycle(cycle.nodes@),
            },
    {
        let n = self.ids.len();
        let mut done: Vec<bool> = Vec::new();
        let mut x: usize = 0;
        while x < n
            invariant
                x <= n,
                n == self.size(),
                done@.len() == x,
                forall|p: int| 0 <= p < x ==> !done@[p],
            decreases n - x,
        {
            done.push(false);
            x = x + 1;
        }
        let mut order: Vec<usize> = Vec::new();
        proof {
            assert forall|p: int| 0 <= p < n implies (done@[p] <==> order@.contains(p as usize)) by {}
        }
        loop
            invariant
                self.wf(),
                n == self.size(),
                done@.len() == n,
                order@.no_duplicates(),
                forall|k: int| 0 <= k < order@.len() ==> (#[trigger] order@[k] as int) < n,
                forall|p: int| 0 <= p < n ==> (done@[p] <==> order@.contains(p as usize)),
                forall|a: int, b: int|
                    0 <= a < order@.len() && 0 <= b < order@.len() && self.forward@[order@[a] as int]@.contains(order@[b]) ==> b < a,
                forall|a: int, k: int|
                    0 <= a < order@.len() && 0 <= k < self.forward@[order@[a] as int]@.len() ==> done@[#[trigger] self.forward@[order@[a] as int]@[k] as int],
            decreases n - order@.len(),
        {
            proof {
                lemma_distinct_bounded(order@, n as int);
            }
            let start_len = order.len();
            let ghost done_at_start = done@;
            let mut i: usize = 0;
            while i < n
                invariant
                    self.wf(),
                    n == self.size(),
                    i <= n,
                    done@.len() == n,
                    order@.len() >= start_len,
                    order@.no_duplicates(),
                    forall|k: int| 0 <= k < order@.len() ==> (#[trigger] order@[k] as int) < n,
                    forall|p: int| 0 <= p < n ==> (done@[p] <==> order@.contains(p as usize)),
                    forall|a: int, b: int|
                        0 <= a < order@.len() && 0 <= b < order@.len() && self.forward@[order@[a] as int]@.contains(order@[b]) ==> b < a,
                    forall|a: int, k: int|
                        0 <= a < order@.len() && 0 <= k < self.forward@[order@[a] as int]@.len() ==> done@[#[trigger] self.forward@[order@[a] as int]@[k] as int],
                    order@.len() == start_len ==> done@ == done_at_start,
                    order@.len() == start_len ==> forall|p: int| 0 <= p < i && !done@[p] ==> !#[trigger] self.targets_all_done(p, done@),
                decreases n - i,
            {
                if !done[i] && self.all_targets_done(i, &done) {
                    let ghost old_order = order@;
                    let ghost old_done = done@;
                    done.set(i, true);
                    order.push(i);
                    proof {
                        let len = order@.len() as int;
                        assert(order@[len - 1] == i);
                        assert forall|p: int| 0 <= p < n implies (done@[p] <==> order@.contains(p as usize)) by {
                            if p == i as int {
                            } else {
                                if order@.contains(p as usize) {
                                    let w = choose|w: int| 0 <= w < order@.len() && order@[w] == p as usize;
                                    assert(old_order[w] == p as usize);
                                }
                                if old_order.contains(p as usize) {
                                    let w = choose|w: int| 0 <= w < old_order.len() && old_order[w] == p as usize;
                                    assert(order@[w] == p as usize);
                                }
                            }
                        }
                        assert forall|a: int, b: int| 0 <= a < b < order@.len() implies order@[a] != order@[b] by {
                            if b == len - 1 {
                                assert(old_order[a] == order@[a]);
                                assert(old_done[order@[a] as int]);
                            }
                        }
                        assert forall|a: int, b: int|
                            0 <= a < order@.len() && 0 <= b < order@.len() && self.forward@[order@[a] as int]@.contains(order@[b]) implies b < a by {
                            if a == len - 1 {
                                let w = choose|w: int| 0 <= w < self.forward@[i as int]@.len() && self.forward@[i as int]@[w] == order@[b];
                                assert(old_done[self.forward@[i as int]@[w] as int]);
                                if b == len - 1 {
                                    assert(false);
                                }
                            } else if b == len - 1 {
                                let w = choose|w: int| 0 <= w < self.forward@[old_order[a] as int]@.len() && self.forward@[old_order[a] as int]@[w] == i;
                                assert(old_done[self.forward@[old_order[a] as int]@[w] as int]);
                            } else {
                                assert(old_order[a] == order@[a] && old_order[b] == order@[b]);
                            }
                        }
                        assert forall|a: int, k: int|
                            0 <= a < order@.len() && 0 <= k < self.forward@[order@[a] as int]@.len() implies done@[#[trigger] self.forward@[order@[a] as int]@[k] as int] by {
                            if a < len - 1 {
                                assert(old_order[a] == order@[a]);
                                assert(old_done[self.forward@[order@[a] as int]@[k] as int]);
                            } else {
                                assert(old_done[self.forward@[i as int]@[k] as int]);
                            }
                        }
                    }
                }
                i = i + 1;
            }
            proof {
                lemma_distinct_bounded(order@, n as int);
            }
            if order.len() == start_len {
                // No node became ready: either all are ordered, or the rest
                // all wait on each other.
                let mut r: usize = 0;
                while r < n
                    invariant
                        self.wf(),
                        n == self.size(),
                        r <= n,
                        done@.len() == n,
                        forall|p: int| 0 <= p < r ==> done@[p],
                        forall|p: int| 0 <= p < n && !done@[p] ==> !#[trigger] self.targets_all_done(p, done@),
                        forall|p: int| 0 <= p < n ==> (done@[p] <==> order@.contains(p as usize)),
                    decreases n - r,
                {
                    if !done[r] {
                        let cycle = self.find_cycle(r, &done);
                        let mut nodes: Vec<NodeId> = Vec::new();
                        let mut k: usize = 0;
                        while k < cycle.len()
                            invariant
                                self.wf(),
                                k <= cycle@.len(),
                                forall|c: int| 0 <= c < cycle@.len() ==> (#[trigger] cycle@[c] as int) < self.size(),
                                nodes@.len() == k,
                                forall|c: int| 0 <= c < k ==> #[trigger] nodes@[c] == self.ids@[cycle@[c] as int],
                            decreases cycle@.len() - k,
                        {
                            nodes.push(self.ids[cycle[k]]);
                            k = k + 1;
                        }
                        proof {
                            assert forall|c: int| 0 <= c < nodes@.len() - 1 implies self.edge(#[trigger] nodes@[c].0, nodes@[c + 1].0) by {
                                self.lemma_edge_positions(cycle@[c] as int, cycle@[c + 1] as int);
                            }
                            self.lemma_edge_positions(cycle@.last() as int, cycle@[0] as int);
                        }
                        return Err(TransclusionCycle { nodes });
                    }
                    r = r + 1;
                }
                let mut result: Vec<NodeId> = Vec::new();
                let mut k: usize = 0;
                while k < order.len()
                    invariant
                        self.wf(),
                        k <= order@.len(),
                        forall|c: int| 0 <= c < order@.len() ==> (#[trigger] order@[c] as int) < self.size(),
                        result@.len() == k,
                        forall|c: int| 0 <= c < k ==> #[trigger] result@[c] == self.ids@[order@[c] as int],
                    decreases order@.len() - k,
                {
                    result.push(self.ids[order[k]]);
                    k = k + 1;
                }
                proof {
                    assert forall|a: int, b: int| 0 <= a < b < result@.len() implies result@[a] != result@[b] by {
                        assert(self.index@[self.ids@[order@[a] as int].0] == order@[a]);
                        assert(self.index@[self.ids@[order@[b] as int].0] == order@[b]);
                    }
                    assert forall|m: u32| self.has_node(m) <==> result@.contains(NodeId(m)) by {
                        if self.has_node(m) {
                            self.lemma_position_of(m);
                            let pm = self.index@[m] as int;
                            assert(done@[pm]);
                            let w = choose|w: int| 0 <= w < order@.len() && order@[w] == pm as usize;
                            assert(result@[w] == NodeId(m));
                        }
                        if result@.contains(NodeId(m)) {
                            let w = choose|w: int| 0 <= w < result@.len() && result@[w] == NodeId(m);
                            self.lemma_edge_positions(order@[w] as int, order@[w] as int);
                        }
                    }
                    assert forall|a: int, b: int|
                        0 <= a < result@.len() && 0 <= b < result@.len() && self.edge(result@[a].0, result@[b].0) implies b < a by {
                        self.lemma_edge_positions(order@[a] as int, order@[b] as int);
                    }
                }
                return Ok(result);
            }
        }
    }
}

impl TransclusionGraph {
    /// `path` follows transclusion edges from its first node to its last.
    pub open spec fn is_path(&self, path: Seq<NodeId>) -> bool {
        &&& path.len() >= 1
        &&& forall|k: int| 0 <= k < path.len() ==> self.has_node(#[trigger] path[k].0)
        &&& forall|k: int| 0 <= k < path.len() - 1 ==> self.edge(#[trigger] path[k].0, path[k + 1].0)
    }

    /// `a` transcludes `b` directly or through other nodes.
    pub open spec fn transcludes_transitively(&self, a: u32, b: u32) -> bool {
        exists|path: Seq<NodeId>|
            #![trigger self.is_path(path), path.last()]
            self.is_path(path) && path.len() >= 2 && path[0].0 == a && path.last().0 == b
    }

    /// Both ends of an edge are nodes of the graph.
    pub proof fn lemma_edge_has_nodes(&self, a: u32, b: u32)
        requires
            self.edge(a, b),
        ensures
            self.has_node(a),
            self.has_node(b),
    {
    }

    spec fn is_position_path(&self, path: Seq<int>) -> bool {
        &&& path.len() >= 1
        &&& forall|k: int| 0 <= k < path.len() ==> 0 <= #[trigger] path[k] < self.size()
        &&& forall|k: int| 0 <= k < path.len() - 1 ==> self.forward@[#[trigger] path[k]]@.contains(path[k + 1] as usize)
    }

    proof fn lemma_position_path_to_path(&self, path: Seq<int>)
        requires
            self.wf(),
            self.is_position_path(path),
        ensures
            self.is_path(path.map_values(|x: int| self.ids@[x])),
    {
        let p = path.map_values(|x: int| self.ids@[x]);
        assert forall|k: int| 0 <= k < p.len() implies self.has_node(#[trigger] p[k].0) by {
            self.lemma_edge_positions(path[k], path[k]);
        }
        assert forall|k: int| 0 <= k < p.len() - 1 implies self.edge(#[trigger] p[k].0, p[k + 1].0) by {
            self.lemma_edge_positions(path[k], path[k + 1]);
        }
    }

    /// Nodes closed under "is transcluded by" contain every node that reaches
    /// one of them.
    proof fn lemma_closed_contains_path(&self, visited: Seq<bool>, path: Seq<NodeId>)
        requires
            self.wf(),
            visited.len() == self.size(),
            self.is_path(path),
            visited[self.index@[path.last().0] as int],
            forall|x: int, k: int|
                0 <= x < self.size() && visited[x] && 0 <= k < self.reverse@[x]@.len() ==> visited[#[trigger] self.reverse@[x]@[k] as int],
        ensures
            visited[self.index@[path[0].0] as int],
        decreases path.len(),
    {
        if path.len() > 1 {
            let rest = path.drop_first();
            assert forall|k: int| 0 <= k < rest.len() implies self.has_node(#[trigger] rest[k].0) by {
                assert(rest[k] == path[k + 1]);
            }
            assert forall|k: int| 0 <= k < rest.len() - 1 implies self.edge(#[trigger] rest[k].0, rest[k + 1].0) by {
                assert(rest[k] == path[k + 1]);
                assert(rest[k + 1] == path[k + 2]);
            }
            assert(rest.last() == path.last());
            self.lemma_closed_contains_path(visited, rest);
            assert(self.edge(path[0].0, path[1].0));
            let a = self.index@[path[0].0] as int;
            let b = self.index@[path[1].0] as int;
            self.lemma_position_of(path[0].0);
            self.lemma_position_of(path[1].0);
            assert(self.forward@[a]@.contains(b as usize));
            assert(self.reverse@[b]@.contains(a as usize));
            let w = choose|w: int| 0 <= w < self.reverse@[b]@.len() && self.reverse@[b]@[w] == a as usize;
            assert(visited[self.reverse@[b]@[w] as int]);
        }
    }

    /// Returns all nodes that transitively transclude `id`, not including
    /// `id` itself, each once.
    #[verifier::spinoff_prover]
    #[verifier::rlimit(60)]
    pub fn dependents(&self, id: NodeId) -> (result: Vec<NodeId>)
        requires
            self.wf(),
        ensures
            forall|p: int, q: int| 0 <= p < q < result@.len() ==> result@[p] != result@[q],
            forall|m: u32|
                #![trigger result@.contains(NodeId(m))]
                #![trigger self.transcludes_transitively(m, id.0)]
                result@.contains(NodeId(m)) <==> (m != id.0 && self.transcludes_transitively(m, id.0)),
    {
        let n = self.ids.len();
        let mut result: Vec<NodeId> = Vec::new();
        let start = match self.index.get(&id.0) {
            Some(found) => *found,
            None => {
                proof {
                    assert forall|m: u32| !(m != id.0 && self.transcludes_transitively(m, id.0)) by {
                        if self.transcludes_transitively(m, id.0) {
                            let path = choose|path: Seq<NodeId>|
                                #![trigger self.is_path(path), path.last()]
                                self.is_path(path) && path.len() >= 2 && path[0].0 == m && path.last().0 == id.0;
                            assert(self.has_node(path[path.len() - 1].0));
                        }
                    }
                }
                return result;
            },
        };
        proof {
            self.lemma_position_of(id.0);
        }
        let mut visited: Vec<bool> = Vec::new();
        let mut x: usize = 0;
        while x < n
            invariant
                x <= n,
                n == self.size(),
                visited@.len() == x,
                forall|p: int| 0 <= p < x ==> !visited@[p],
            decreases n - x,
        {
            visited.push(false);
            x = x + 1;
        }
        let ghost s = start as int;
        proof {
            lemma_unvisited_set(visited@, s);
        }
        visited.set(start, true);
        let mut stack: Vec<usize> = Vec::new();
        stack.push(start);
        let ghost mut witness: Map<int, Seq<int>> = Map::empty().insert(s, seq![s]);
        proof {
            assert(self.is_position_path(witness[s]));
            assert(stack@[0] == start);
            assert forall|p: int| 0 <= p < n && visited@[p] implies p == s by {}
        }
        while stack.len() > 0
            invariant
                self.wf(),
                n == self.size(),
                0 <= s < n,
                s == start as int,
                visited@.len() == n,
                visited@[s],
                stack@.no_duplicates(),
                forall|k: int| 0 <= k < stack@.len() ==> (#[trigger] stack@[k] as int) < n && visited@[stack@[k] as int],
                forall|p: int|
                    0 <= p < n && visited@[p] ==> {
                        &&& #[trigger] witness.contains_key(p)
                        &&& self.is_position_path(witness[p])
                        &&& witness[p][0] == p
                        &&& witness[p].last() == s
                    },
                forall|p: int, k: int|
                    0 <= p < n && visited@[p] && !stack@.contains(p as usize) && 0 <= k < self.reverse@[p]@.len()
                        ==> visited@[#[trigger] self.reverse@[p]@[k] as int],
            decreases count_unvisited(visited@), stack@.len(),
        {
            let ghost before_pop = stack@;
            let cur = stack.pop().unwrap();
            proof {
                assert(before_pop == stack@.push(cur));
                assert(before_pop[before_pop.len() - 1] == cur);
                assert(!stack@.contains(cur)) by {
                    if stack@.contains(cur) {
                        let w = choose|w: int| 0 <= w < stack@.len() && stack@[w] == cur;
                        assert(before_pop[w] == cur);
                    }
                }
                assert forall|p: int, k: int|
                    0 <= p < n && visited@[p] && !stack@.contains(p as usize) && p != cur as int && 0 <= k < self.reverse@[p]@.len()
                        implies visited@[#[trigger] self.reverse@[p]@[k] as int] by {
                    if before_pop.contains(p as usize) {
                        let w = choose|w: int| 0 <= w < before_pop.len() && before_pop[w] == p as usize;
                        if w < stack@.len() {
                            assert(stack@[w] == p as usize);
                        }
                    }
                }
            }
            let row = &self.reverse[cur];
            let mut k: usize = 0;
            let ghost count_before = count_unvisited(visited@);
            let ghost stack_before = stack@;
            while k < row.len()
                invariant
                    self.wf(),
                    n == self.size(),
                    0 <= s < n,
                    s == start as int,
                    (cur as int) < n,
                    row == &self.reverse@[cur as int],
                    k <= row@.len(),
                    visited@.len() == n,
                    visited@[s],
                    visited@[cur as int],
                    stack@.no_duplicates(),
                    !stack@.contains(cur),
                    forall|q: int| 0 <= q < stack@.len() ==> (#[trigger] stack@[q] as int) < n && visited@[stack@[q] as int],
                    forall|p: int|
                        0 <= p < n && visited@[p] ==> {
                            &&& #[trigger] witness.contains_key(p)
                            &&& self.is_position_path(witness[p])
                            &&& witness[p][0] == p
                            &&& witness[p].last() == s
                        },
                    forall|p: int, q: int|
                        0 <= p < n && visited@[p] && !stack@.contains(p as usize) && p != cur as int && 0 <= q < self.reverse@[p]@.len()
                            ==> visited@[#[trigger] self.reverse@[p]@[q] as int],
                    forall|q: int| 0 <= q < k ==> visited@[#[trigger] row@[q] as int],
                    count_unvisited(visited@) <= count_before,
                    count_unvisited(visited@) == count_before ==> stack@ == stack_before,
                decreases row@.len() - k,
            {
                let y = row[k];
                if !visited[y] {
                    let ghost old_visited = visited@;
                    let ghost old_stack = stack@;
                    let ghost old_witness = witness;
                    proof {
                        lemma_unvisited_set(visited@, y as int);
                        assert(self.forward@[y as int]@.contains(cur)) by {
                            assert(self.reverse@[cur as int]@[k as int] == y);
                            assert((y as int) < n);
                            assert(self.reverse@[cur as int]@.contains(y));
                            assert(self.reverse@[cur as int]@.contains((y as int) as usize));
                            assert(self.forward@[y as int]@.contains(((cur as int) as usize)));
                        }
                        assert(witness.contains_key(cur as int));
                        let wc = witness[cur as int];
                        let wy = seq![y as int] + wc;
                        assert(wy[0] == y as int);
                        assert(wy[wy.len() - 1] == wc[wc.len() - 1]);
                        assert forall|q: int| 0 <= q < wy.len() implies 0 <= #[trigger] wy[q] < self.size() by {
                            if q > 0 {
                                assert(wy[q] == wc[q - 1]);
                            }
                        }
                        assert forall|q: int| 0 <= q < wy.len() - 1 implies self.forward@[#[trigger] wy[q]]@.contains(wy[q + 1] as usize) by {
                            if q > 0 {
                                assert(wy[q] == wc[q - 1]);
                                assert(wy[q + 1] == wc[q]);
                            } else {
                                assert(wy[1] == wc[0]);
                            }
                        }
                        witness = witness.insert(y as int, wy);
                    }
                    visited.set(y, true);
                    stack.push(y);
                    proof {
                        assert(stack@ == old_stack.push(y));
                        assert(visited@ == old_visited.update(y as int, true));
                        assert forall|a: int, b: int| 0 <= a < b < stack@.len() implies stack@[a] != stack@[b] by {
                            if b == stack@.len() - 1 {
                                assert(old_stack[a] == stack@[a]);
                                assert(old_visited[old_stack[a] as int]);
                            } else {
                                assert(old_stack[a] == stack@[a] && old_stack[b] == stack@[b]);
                            }
                        }
                        assert forall|p: int| 0 <= p < n && visited@[p] implies {
                            &&& #[trigger] witness.contains_key(p)
                            &&& self.is_position_path(witness[p])
                            &&& witness[p][0] == p
                            &&& witness[p].last() == s
                        } by {
                            if p != y as int {
                                assert(old_visited[p]);
                                assert(old_witness.contains_key(p));
                                assert(witness[p] == old_witness[p]);
                            } else {
                                assert(witness[p] == seq![y as int] + old_witness[cur as int]);
                            }
                        }
                        assert(!stack@.contains(cur)) by {
                            if stack@.contains(cur) {
                                let w = choose|w: int| 0 <= w < stack@.len() && stack@[w] == cur;
                                if w < old_stack.len() {
                                    assert(old_stack[w] == cur);
                                }
                            }
                        }
                        assert forall|p: int, q: int|
                            0 <= p < n && visited@[p] && !stack@.contains(p as usize) && p != cur as int && 0 <= q < self.reverse@[p]@.len()
                                implies visited@[#[trigger] self.reverse@[p]@[q] as int] by {
                            if p != y as int {
                                assert(old_visited[p]);
                                if old_stack.contains(p as usize) {
                                    let w = choose|w: int| 0 <= w < old_stack.len() && old_stack[w] == p as usize;
                                    assert(stack@[w] == p as usize);
                                }
                            } else {
                                assert(stack@[stack@.len() - 1] == y);
                            }
                        }
                    }
                }
                k = k + 1;
            }
            proof {
                assert forall|p: int, q: int|
                    0 <= p < n && visited@[p] && !stack@.contains(p as usize) && 0 <= q < self.reverse@[p]@.len()
                        implies visited@[#[trigger] self.reverse@[p]@[q] as int] by {
                    if p == cur as int {
                        assert(self.reverse@[p]@[q] == row@[q]);
                    }
                }
            }
        }
        let ghost mut positions: Seq<int> = Seq::empty();
        let mut p: usize = 0;
        while p < n
            invariant
                self.wf(),
                n == self.size(),
                p <= n,
                0 <= s < n,
                s == start as int,
                visited@.len() == n,
                result@.len() == positions.len(),
                forall|c: int| 0 <= c < positions.len() ==> 0 <= #[trigger] positions[c] < p && visited@[positions[c]] && positions[c] != s,
                forall|c: int| 0 <= c < positions.len() ==> #[trigger] result@[c] == self.ids@[positions[c]],
                forall|a: int, b: int| 0 <= a < b < positions.len() ==> positions[a] < positions[b],
                forall|q: int| 0 <= q < p && visited@[q] && q != s ==> #[trigger] positions.contains(q),
                visited@[s],
                forall|q: int|
                    0 <= q < n && visited@[q] ==> {
                        &&& #[trigger] witness.contains_key(q)
                        &&& self.is_position_path(witness[q])
                        &&& witness[q][0] == q
                        &&& witness[q].last() == s
                    },
                forall|q: int, k: int|
                    0 <= q < n && visited@[q] && 0 <= k < self.reverse@[q]@.len()
                        ==> visited@[#[trigger] self.reverse@[q]@[k] as int],
            decreases n - p,
        {
            if visited[p] && p != start {
                result.push(self.ids[p]);
                proof {
                    let old_positions = positions;
                    positions = positions.push(p as int);
                    assert forall|q: int| 0 <= q < p + 1 && visited@[q] && q != s implies #[trigger] positions.contains(q) by {
                        if q == p as int {
                            assert(positions[positions.len() - 1] == q);
                        } else {
                            assert(old_positions.contains(q));
                            let w = choose|w: int| 0 <= w < old_positions.len() && old_positions[w] == q;
                            assert(positions[w] == q);
                        }
                    }
                }
            }
            p = p + 1;
        }
        proof {
            assert forall|a: int, b: int| 0 <= a < b < result@.len() implies result@[a] != result@[b] by {
                assert(self.index@[self.ids@[positions[a]].0] == positions[a]);
                assert(self.index@[self.ids@[positions[b]].0] == positions[b]);
            }
            assert forall|m: u32|
                result@.contains(NodeId(m)) <==> (m != id.0 && self.transcludes_transitively(m, id.0)) by {
                if result@.contains(NodeId(m)) {
                    let c = choose|c: int| 0 <= c < result@.len() && result@[c] == NodeId(m);
                    let q = positions[c];
                    assert(witness.contains_key(q));
                    let w = witness[q];
                    self.lemma_position_path_to_path(w);
                    let path = w.map_values(|x: int| self.ids@[x]);
                    assert(path[0] == self.ids@[q]);
                    assert(path.last() == self.ids@[s]);
                    assert(self.ids@[s].0 == id.0);
                    assert(w.len() >= 2) by {
                        if w.len() == 1 {
                            assert(w[0] == w.last());
                        }
                    }
                    assert(self.index@[self.ids@[q].0] == q);
                    assert(self.is_path(path) && path.len() >= 2 && path[0].0 == m && path.last().0 == id.0);
                }
                if m != id.0 && self.transcludes_transitively(m, id.0) {
                    let path = choose|path: Seq<NodeId>|
                        #![trigger self.is_path(path), path.last()]
                        self.is_path(path) && path.len() >= 2 && path[0].0 == m && path.last().0 == id.0;
                    self.lemma_closed_contains_path(visited@, path);
                    assert(self.has_node(path[0].0));
                    self.lemma_position_of(m);
                    let q = self.index@[m] as int;
                    assert(q != s);
                    assert(positions.contains(q));
                    let c = choose|c: int| 0 <= c < positions.len() && positions[c] == q;
                    assert(result@[c] == self.ids@[q]);
                    assert(self.ids@[q] == NodeId(m));
                }
            }
        }
        result
    }
}

/// The number of unvisited positions.
spec fn count_unvisited(v: Seq<bool>) -> nat
    decreases v.len(),
{
    if v.len() == 0 {
        0
    } else {
        count_unvisited(v.drop_last()) + if v.last() {
            0nat
        } else {
            1nat
        }
    }
}

proof fn lemma_unvisited_set(v: Seq<bool>, i: int)
    requires
        0 <= i < v.len(),
        !v[i],
    ensures
        count_unvisited(v.update(i, true)) + 1 == count_unvisited(v),
    decreases v.len(),
{
    let u = v.update(i, true);
    if i == v.len() - 1 {
        assert(u.drop_last() =~= v.drop_last());
    } else {
        assert(u.drop_last() =~= v.drop_last().update(i, true));
        lemma_unvisited_set(v.drop_last(), i);
    }
}

/// A graph with a transclusion cycle has no topological order: that is
/// exactly when `topo_sort` reports an error.
pub proof fn lemma_cycle_excludes_order(g: &TransclusionGraph, cycle: Seq<NodeId>, order: Seq<NodeId>)
    requires
        g.wf(),
        g.is_cycle(cycle),
    ensures
        !g.is_topo_order(order),
{
    if g.is_topo_order(order) {
        // Positions in `order` strictly decrease along each edge of the cycle.
        assert forall|k: int| 0 <= k < cycle.len() implies 0 <= #[trigger] order.index_of(cycle[k]) < order.len()
            && order[order.index_of(cycle[k])] == cycle[k] by {
            if k < cycle.len() - 1 {
                assert(g.edge(cycle[k].0, cycle[k + 1].0));
            } else {
                assert(g.edge(cycle.last().0, cycle[0].0));
            }
            g.lemma_edge_has_nodes(cycle[k].0, if k < cycle.len() - 1 { cycle[k + 1].0 } else { cycle[0].0 });
            assert(order.contains(NodeId(cycle[k].0)));
        }
        assert forall|k: int| 0 <= k < cycle.len() implies #[trigger] order.index_of(cycle[k]) + k <= order.index_of(cycle[0]) by {
            lemma_cycle_positions(g, cycle, order, k);
        }
        let last = cycle.len() - 1;
        assert(g.edge(cycle[last].0, cycle[0].0));
        assert(order.index_of(cycle[0]) < order.index_of(cycle[last]));
    }
}

proof fn lemma_cycle_positions(g: &TransclusionGraph, cycle: Seq<NodeId>, order: Seq<NodeId>, k: int)
    requires
        g.wf(),
        g.is_cycle(cycle),
        g.is_topo_order(order),
        0 <= k < cycle.len(),
        forall|j: int| 0 <= j < cycle.len() ==> 0 <= #[trigger] order.index_of(cycle[j]) < order.len()
            && order[order.index_of(cycle[j])] == cycle[j],
    ensures
        order.index_of(cycle[k]) + k <= order.index_of(cycle[0]),
    decreases k,
{
    if k > 0 {
        lemma_cycle_positions(g, cycle, order, k - 1);
        assert(g.edge(cycle[k - 1].0, cycle[k].0));
        let a = order.index_of(cycle[k - 1]);
        let b = order.index_of(cycle[k]);
        assert(g.edge(order[a].0, order[b].0));
    }
}

/// A sequence of distinct positions below `n` has at most `n` elements.
proof fn lemma_distinct_bounded(s: Seq<usize>, n: int)
    requires
        s.no_duplicates(),
        forall|k: int| 0 <= k < s.len() ==> (#[trigger] s[k] as int) < n,
        n >= 0,
    ensures
        s.len() <= n,
{
    let t = s.map_values(|x: usize| x as int);
    assert forall|a: int, b: int| 0 <= a < t.len() && 0 <= b < t.len() && a != b implies t[a] != t[b] by {
        assert(s[a] != s[b]);
    }
    t.unique_seq_to_set();
    vstd::set_lib::lemma_int_range(0, n);
    assert forall|x: int| t.to_set().contains(x) implies vstd::set_lib::set_int_range(0, n).contains(x) by {
        let w = choose|w: int| 0 <= w < t.len() && t[w] == x;
        assert(s[w] < n);
    }
    vstd::set_lib::lemma_len_subset(t.to_set(), vstd::set_lib::set_int_range(0, n));
}

/// The number of nodes named by `entries`, counting repeats: a bound on the
/// size of the graph built from them.
pub open spec fn entries_size(entries: Seq<(NodeId, Vec<NodeId>)>) -> nat
    decreases entries.len(),
{
    if entries.len() == 0 {
        0
    } else {
        entries_size(entries.drop_last()) + 1 + entries.last().1@.len()
    }
}

proof fn lemma_entries_size_step(entries: Seq<(NodeId, Vec<NodeId>)>, e: int)
    requires
        0 <= e < entries.len(),
    ensures
        entries_size(entries.take(e + 1)) == entries_size(entries.take(e)) + 1
            + entries[e].1@.len(),
{
    assert(entries.take(e + 1).drop_last() =~= entries.take(e));
}

proof fn lemma_entries_size_prefix(entries: Seq<(NodeId, Vec<NodeId>)>, e: int)
    requires
        0 <= e <= entries.len(),
    ensures
        entries_size(entries.take(e)) <= entries_size(entries),
    decreases entries.len() - e,
{
    if e < entries.len() {
        lemma_entries_size_step(entries, e);
        lemma_entries_size_prefix(entries, e + 1);
    } else {
        assert(entries.take(e) =~= entries);
    }
}

proof fn lemma_in_step(entries: Seq<(NodeId, Vec<NodeId>)>, e: int)
    requires
        0 <= e < entries.len(),
    ensures
        forall|n: u32|
            node_in(entries.take(e + 1), n) <==> (node_in(entries.take(e), n) || entries[e].0.0
                == n || entries[e].1@.contains(NodeId(n))),
        forall|a: u32, b: u32|
            edge_in(entries.take(e + 1), a, b) <==> (edge_in(entries.take(e), a, b) || (
            entries[e].0.0 == a && entries[e].1@.contains(NodeId(b)))),
{
    let pre = entries.take(e);
    let post = entries.take(e + 1);
    assert forall|n: u32|
        node_in(post, n) <==> (node_in(pre, n) || entries[e].0.0 == n || entries[e].1@.contains(
            NodeId(n),
        )) by {
        if node_in(post, n) {
            let x = choose|x: int|
                0 <= x < post.len() && ((#[trigger] post[x]).0.0 == n || post[x].1@.contains(
                    NodeId(n),
                ));
            if x < e {
                assert(pre[x] == post[x]);
            }
        }
        if node_in(pre, n) {
            let x = choose|x: int|
                0 <= x < pre.len() && ((#[trigger] pre[x]).0.0 == n || pre[x].1@.contains(
                    NodeId(n),
                ));
            assert(pre[x] == post[x]);
        }
        if entries[e].0.0 == n || entries[e].1@.contains(NodeId(n)) {
            assert(post[e] == entries[e]);
        }
    }
    assert forall|a: u32, b: u32|
        edge_in(post, a, b) <==> (edge_in(pre, a, b) || (entries[e].0.0 == a && entries[e].1@.contains(
            NodeId(b),
        ))) by {
        if edge_in(post, a, b) {
            let x = choose|x: int|
                0 <= x < post.len() && (#[trigger] post[x]).0.0 == a && post[x].1@.contains(
                    NodeId(b),
                );
            if x < e {
                assert(pre[x] == post[x]);
            }
        }
        if edge_in(pre, a, b) {
            let x = choose|x: int|
                0 <= x < pre.len() && (#[trigger] pre[x]).0.0 == a && pre[x].1@.contains(
                    NodeId(b),
                );
            assert(pre[x] == post[x]);
        }
        if entries[e].0.0 == a && entries[e].1@.contains(NodeId(b)) {
            assert(post[e] == entries[e]);
        }
    }
}

} // verus!
