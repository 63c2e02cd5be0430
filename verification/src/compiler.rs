use std::collections::{HashMap, HashSet};

use vstd::prelude::*;

use petgraph::graphmap::DiGraphMap;

use crate::graph::{
    strongly_connected_components, add_graph_edge, add_graph_node, graph_edges, graph_has_edge, graph_nodes, is_scc_order,
    new_graph,
};
use crate::import_graph::FileKey;
use crate::interner::{NodeId, NodeInterner, interned_names};
use crate::diagnostics::{
    group_by_file, grouped,
    cycle_message, cycle_text, is_sorted, dangling_link_message, dangling_link_text, dangling_transclusion_message,
    dangling_transclusion_text, duplicate_message, duplicate_node_identifier_message, flat_view,
    Diagnostic, DiagnosticView, Severity,
};
use crate::process::{
    graphs_wf, lemma_scc_cycles, on_cycle, plan_matches, plan_from_components, renderable, Backmatter, RenderItem,
};

pub mod rendering;
pub mod stateless;
pub mod tracking;

verus! {

broadcast use vstd::std_specs::hash::group_hash_axioms;

/// Metadata attached to a node, a transclusion or a link: each key maps to
/// its list of values.
pub type Metadata = HashMap<String, Vec<String>>;

/// The extracted content of one node.
pub struct Node {
    pub body_html: String,
    pub title: String,
    pub title_text: String,
    /// The raw source span of the node's element (Typst's `Span::into_raw`),
    /// or none when the element has no span.
    pub span: Option<u64>,
    pub node_metadata: Metadata,
    pub transclusion_metadata: HashMap<u32, Metadata>,
    pub link_metadata: HashMap<u32, Metadata>,
}

/// One node extracted from a source file, with the names of the nodes it
/// transcludes and links to, in document order.
pub struct NodeOutput {
    pub identifier: String,
    pub node: Node,
    pub transclusions: Vec<String>,
    pub links: Vec<String>,
}

/// The result of compiling one source file: its warnings, and either its
/// nodes or its errors.
pub struct Compiled<D> {
    pub warnings: Vec<D>,
    pub output: Result<Vec<NodeOutput>, Vec<D>>,
}

/// One occurrence of a node: which file defines it, and the interned targets
/// of its transclusions and links.
pub struct NodeEntry {
    pub node: Node,
    pub file_id: FileKey,
    pub links: Vec<NodeId>,
    pub transclusions: Vec<NodeId>,
}

/// The abstract value of a [`NodeEntry`].
pub struct EntryView {
    pub node: Node,
    pub file_id: FileKey,
    pub links: Seq<NodeId>,
    pub transclusions: Seq<NodeId>,
}

impl View for NodeEntry {
    type V = EntryView;

    open spec fn view(&self) -> EntryView {
        EntryView {
            node: self.node,
            file_id: self.file_id,
            links: self.links@,
            transclusions: self.transclusions@,
        }
    }
}

/// The entries of a node that do not come from file `f`, in order.
pub open spec fn entries_from_other_files(entries: Seq<EntryView>, f: FileKey) -> Seq<EntryView>
    decreases entries.len(),
{
    if entries.len() == 0 {
        entries
    } else {
        let rest = entries_from_other_files(entries.drop_last(), f);
        if entries.last().file_id != f {
            rest.push(entries.last())
        } else {
            rest
        }
    }
}

/// An entry survives the removal of file `f` exactly when it comes from
/// another file.
proof fn lemma_other_files_members(entries: Seq<EntryView>, f: FileKey)
    ensures
        forall|x: EntryView|
            entries_from_other_files(entries, f).contains(x) <==> (entries.contains(x) && x.file_id
                != f),
        forall|g: FileKey|
            has_entry_from(entries_from_other_files(entries, f), g) <==> (has_entry_from(entries, g)
                && g != f),
        !has_entry_from(entries, f) ==> entries_from_other_files(entries, f) == entries,
        entries_from_other_files(entries, f).len() <= entries.len(),
    decreases entries.len(),
{
    if entries.len() > 0 {
        let init = entries.drop_last();
        lemma_other_files_members(init, f);
        let rest = entries_from_other_files(init, f);
        let last = entries.last();
        assert(entries == init.push(last));
        assert forall|x: EntryView|
            entries_from_other_files(entries, f).contains(x) <==> (entries.contains(x) && x.file_id
                != f) by {
            if entries.contains(x) {
                let w = choose|w: int| 0 <= w < entries.len() && entries[w] == x;
                if w < init.len() {
                    assert(init[w] == x);
                }
            }
            if init.contains(x) {
                let w = choose|w: int| 0 <= w < init.len() && init[w] == x;
                assert(entries[w] == x);
            }
            if last.file_id != f {
                assert(rest.push(last)[rest.len() as int] == last);
                if rest.contains(x) {
                    let w = choose|w: int| 0 <= w < rest.len() && rest[w] == x;
                    assert(rest.push(last)[w] == x);
                }
                if rest.push(last).contains(x) {
                    let w = choose|w: int| 0 <= w < rest.push(last).len() && rest.push(last)[w] == x;
                    if w < rest.len() {
                        assert(rest[w] == x);
                    }
                }
            }
        }
        assert forall|g: FileKey|
            has_entry_from(entries_from_other_files(entries, f), g) <==> (has_entry_from(entries, g)
                && g != f) by {
            let out = entries_from_other_files(entries, f);
            if has_entry_from(out, g) {
                let w = choose|w: int| 0 <= w < out.len() && (#[trigger] out[w]).file_id == g;
                assert(out.contains(out[w]));
                assert(entries.contains(out[w]) && out[w].file_id != f);
                let v = choose|v: int| 0 <= v < entries.len() && entries[v] == out[w];
                assert(entries[v].file_id == g);
            }
            if has_entry_from(entries, g) && g != f {
                let w = choose|w: int| 0 <= w < entries.len() && (#[trigger] entries[w]).file_id == g;
                assert(entries.contains(entries[w]));
                assert(out.contains(entries[w]));
                let v = choose|v: int| 0 <= v < out.len() && out[v] == entries[w];
                assert(out[v].file_id == g);
            }
        }
        if !has_entry_from(entries, f) {
            assert(last.file_id != f) by {
                assert(entries[entries.len() - 1] == last);
            }
            assert(!has_entry_from(init, f)) by {
                if has_entry_from(init, f) {
                    let w = choose|w: int| 0 <= w < init.len() && (#[trigger] init[w]).file_id == f;
                    assert(entries[w] == init[w]);
                }
            }
        }
    }
}

/// Whether some entry of the node comes from file `f`.
pub open spec fn has_entry_from(entries: Seq<EntryView>, f: FileKey) -> bool {
    exists|i: int| 0 <= i < entries.len() && (#[trigger] entries[i]).file_id == f
}

/// The node store once the entries from file `f` are gone; a node whose
/// last entry went is dropped.
pub open spec fn without_file(store: Map<u32, Seq<EntryView>>, f: FileKey) -> Map<u32, Seq<EntryView>> {
    Map::new(
        |k: u32| store.contains_key(k) && entries_from_other_files(store[k], f).len() > 0,
        |k: u32| entries_from_other_files(store[k], f),
    )
}

/// The nodes that file `f` contributes to.
pub open spec fn touched_by(store: Map<u32, Seq<EntryView>>, f: FileKey) -> Set<u32> {
    Set::new(|k: u32| store.contains_key(k) && has_entry_from(store[k], f))
}

/// The nodes that exist only through file `f`.
pub open spec fn only_from(store: Map<u32, Seq<EntryView>>, f: FileKey) -> Set<u32> {
    Set::new(
        |k: u32|
            store.contains_key(k) && has_entry_from(store[k], f) && entries_from_other_files(
                store[k],
                f,
            ).len() == 0,
    )
}

/// Compiles source files into nodes and maintains the in-memory node store
/// and per-file diagnostics across incremental rebuilds.
///
/// `B` and `M` are the rendered forms of bodies and backmatters, `D` the
/// compiler's diagnostics.
pub struct Compiler<B, M, D> {
    file_to_nodes: HashMap<FileKey, Vec<NodeId>>,
    nodes: HashMap<u32, Vec<NodeEntry>>,
    compile_diagnostics: HashMap<FileKey, (Vec<D>, Vec<D>)>,
    interner: NodeInterner,
    dirty: HashSet<u32>,
    removed: HashSet<u32>,
    rendered_bodies: HashMap<u32, B>,
    rendered_backmatters: HashMap<u32, M>,
    backmatters: HashMap<u32, Backmatter>,
    outputs: HashSet<u32>,
    process_diagnostics: HashMap<FileKey, Vec<Diagnostic>>,
}

impl<B, M, D> Compiler<B, M, D> {
    /// The node store: for each node, its entries in the order they arrived.
    pub closed spec fn store(&self) -> Map<u32, Seq<EntryView>> {
        Map::new(
            |k: u32| self.nodes@.contains_key(k),
            |k: u32| self.nodes@[k]@.map_values(|e: NodeEntry| e@),
        )
    }

    /// The nodes contributed by each compiled file.
    pub closed spec fn file_nodes(&self) -> Map<FileKey, Set<u32>> {
        Map::new(
            |f: FileKey| self.file_to_nodes@.contains_key(f),
            |f: FileKey| self.file_to_nodes@[f]@.map_values(|n: NodeId| n.0).to_set(),
        )
    }

    /// The interned node names.
    pub closed spec fn names(&self) -> Seq<Seq<char>> {
        self.interner@
    }

    /// Nodes whose content changed since the last processing.
    pub closed spec fn dirty(&self) -> Set<u32> {
        self.dirty@
    }

    /// Nodes that disappeared since the last processing.
    pub closed spec fn removed(&self) -> Set<u32> {
        self.removed@
    }

    /// Warnings and errors of each file that had any.
    pub closed spec fn compile_diagnostics_map(&self) -> Map<FileKey, (Seq<D>, Seq<D>)> {
        Map::new(
            |f: FileKey| self.compile_diagnostics@.contains_key(f),
            |f: FileKey| (self.compile_diagnostics@[f].0@, self.compile_diagnostics@[f].1@),
        )
    }

    /// The compiler's invariant.
    pub closed spec fn wf(&self) -> bool {
        let store = self.store();
        &&& self.interner.wf()
        &&& forall|k: u32| #[trigger] store.contains_key(k) ==> store[k].len() > 0
        &&& forall|k: u32| #[trigger] store.contains_key(k) ==> (k as int) < self.names().len()
        &&& forall|k: u32, i: int, j: int|
            store.contains_key(k) && 0 <= i < store[k].len() && 0 <= j < store[k][i].links.len()
                ==> (#[trigger] store[k][i].links[j].0 as int) < self.names().len()
        &&& forall|k: u32, i: int, j: int|
            store.contains_key(k) && 0 <= i < store[k].len() && 0 <= j
                < store[k][i].transclusions.len() ==> (#[trigger] store[k][i].transclusions[j].0 as int)
                < self.names().len()
        &&& forall|f: FileKey|
            #[trigger] self.file_to_nodes@.contains_key(f) ==> self.file_to_nodes@[f]@.no_duplicates()
        &&& forall|f: FileKey|
            #[trigger] self.file_nodes().contains_key(f) ==> self.file_nodes()[f] == touched_by(
                store,
                f,
            )
        &&& forall|f: FileKey|
            !(#[trigger] self.file_nodes().contains_key(f)) ==> touched_by(store, f)
                =~= Set::<u32>::empty()
        &&& self.dirty@.disjoint(self.removed@)
        &&& forall|k: u32| #[trigger] self.dirty@.contains(k) ==> store.contains_key(k)
        &&& forall|k: u32| #[trigger] self.removed@.contains(k) ==> !store.contains_key(k)
        &&& forall|k: u32| #[trigger] self.outputs@.contains(k) ==> (k as int) < self.names().len()
        &&& forall|k: u32| #[trigger] self.backmatters@.contains_key(k) ==> self.backmatters@[k].wf()
        &&& forall|k: u32, x: u32|
            self.backmatters@.contains_key(k) && #[trigger] self.backmatters@[k]@.contexts.contains(x) ==> (x as int)
                < self.names().len()
        &&& forall|k: u32, x: u32|
            self.backmatters@.contains_key(k) && #[trigger] self.backmatters@[k]@.backlinks.contains(x) ==> (x as int)
                < self.names().len()
        &&& forall|k: u32, x: u32|
            self.backmatters@.contains_key(k) && #[trigger] self.backmatters@[k]@.outlinks.contains(x) ==> (x as int)
                < self.names().len()
    }

    /// A compiler with nothing compiled.
    pub fn new() -> (c: Self)
        ensures
            c.wf(),
            c.store() =~= Map::<u32, Seq<EntryView>>::empty(),
            c.file_nodes() =~= Map::<FileKey, Set<u32>>::empty(),
            c.names() =~= Seq::<Seq<char>>::empty(),
            c.dirty() =~= Set::<u32>::empty(),
            c.removed() =~= Set::<u32>::empty(),
            c.compile_diagnostics_map() =~= Map::<FileKey, (Seq<D>, Seq<D>)>::empty(),
    {
        let c = Compiler {
            file_to_nodes: HashMap::new(),
            nodes: HashMap::new(),
            compile_diagnostics: HashMap::new(),
            interner: NodeInterner::new(),
            dirty: HashSet::new(),
            removed: HashSet::new(),
            rendered_bodies: HashMap::new(),
            rendered_backmatters: HashMap::new(),
            backmatters: HashMap::new(),
            outputs: HashSet::new(),
            process_diagnostics: HashMap::new(),
        };
        proof {
            assert forall|f: FileKey| !(#[trigger] c.file_nodes().contains_key(f)) implies touched_by(
                c.store(),
                f,
            ) =~= Set::<u32>::empty() by {}
        }
        c
    }
}

/// The node store part-way through removing file `f`: the nodes in `done`
/// have lost their entries from `f`, the others are untouched.
pub open spec fn partly_without_file(
    store: Map<u32, Seq<EntryView>>,
    f: FileKey,
    done: Set<u32>,
) -> Map<u32, Seq<EntryView>> {
    Map::new(
        |k: u32|
            if done.contains(k) {
                without_file(store, f).contains_key(k)
            } else {
                store.contains_key(k)
            },
        |k: u32|
            if done.contains(k) {
                without_file(store, f)[k]
            } else {
                store[k]
            },
    )
}

impl<B, M, D> Compiler<B, M, D> {
    /// Removes every node entry that file `file_id` contributed, and its
    /// compile diagnostics. Nodes left without entries are recorded as
    /// removed; nodes that keep other entries are marked dirty.
    pub fn remove(&mut self, file_id: FileKey)
        requires
            old(self).wf(),
        ensures
            final(self).wf(),
            final(self).store() == without_file(old(self).store(), file_id),
            final(self).file_nodes() == old(self).file_nodes().remove(file_id),
            final(self).names() == old(self).names(),
            final(self).dirty() == old(self).dirty().union(touched_by(old(self).store(), file_id)).difference(
                only_from(old(self).store(), file_id),
            ),
            final(self).removed() == old(self).removed().union(only_from(old(self).store(), file_id)),
            final(self).compile_diagnostics_map() == old(self).compile_diagnostics_map().remove(file_id),
    {
        let ghost orig = *old(self);
        let ghost store0 = orig.store();
        let ghost touched = touched_by(store0, file_id);
        let ghost only = only_from(store0, file_id);
        match self.file_to_nodes.remove(&file_id) {
            Some(node_ids) => {
                proof {
                    assert(orig.file_nodes().contains_key(file_id));
                    assert(orig.file_nodes()[file_id] == touched);
                    assert(orig.file_to_nodes@[file_id]@.no_duplicates());
                }
                let mut k: usize = 0;
                let ghost mut done: Set<u32> = Set::empty();
                while k < node_ids.len()
                    invariant
                        k <= node_ids@.len(),
                        node_ids@ == orig.file_to_nodes@[file_id]@,
                        node_ids@.no_duplicates(),
                        node_ids@.map_values(|n: NodeId| n.0).to_set() == touched,
                        done == node_ids@.take(k as int).map_values(|n: NodeId| n.0).to_set(),
                        self.file_to_nodes@ == orig.file_to_nodes@.remove(file_id),
                        self.compile_diagnostics@ == orig.compile_diagnostics@,
                        self.outputs == orig.outputs,
                        self.backmatters == orig.backmatters,
                        self.interner == orig.interner,
                        self.store() == partly_without_file(store0, file_id, done),
                        self.dirty@ == orig.dirty@.union(done).difference(only.intersect(done)),
                        self.removed@ == orig.removed@.union(only.intersect(done)),
                        orig.wf(),
                        store0 == orig.store(),
                        touched == touched_by(store0, file_id),
                        only == only_from(store0, file_id),
                    decreases node_ids@.len() - k,
                {
                    let node_id = node_ids[k];
                    let key = node_id.0;
                    proof {
                        assert(node_ids@.map_values(|n: NodeId| n.0)[k as int] == key);
                        assert(touched.contains(key));
                        assert(!done.contains(key)) by {
                            if done.contains(key) {
                                let prefix = node_ids@.take(k as int).map_values(|n: NodeId| n.0);
                                let w = choose|w: int| 0 <= w < prefix.len() && #[trigger] prefix[w] == key;
                                assert(node_ids@[w].0 == key);
                                assert(node_ids@[w] == node_ids@[k as int]);
                            }
                        }
                        assert(self.store().contains_key(key));
                        assert(self.store()[key] == store0[key]);
                    }
                    let ghost nodes_before = self.nodes@;
                    let ghost store_before = self.store();
                    let entries = match self.nodes.remove(&key) {
                        Some(entries) => entries,
                        None => {
                            proof {
                                assert(false);
                            }
                            k = k + 1;
                            continue;
                        },
                    };
                    let ghost before_store = self.store();
                    let kept = keep_other_files(entries, file_id);
                    proof {
                        assert(entries == nodes_before[key]);
                        assert(entries@.map_values(|e: NodeEntry| e@) == store0[key]);
                        lemma_other_files_members(store0[key], file_id);
                    }
                    if kept.len() == 0 {
                        self.dirty.remove(&key);
                        self.removed.insert(key);
                        proof {
                            assert(only.contains(key));
                        }
                    } else {
                        self.nodes.insert(key, kept);
                        self.dirty.insert(key);
                        proof {
                            assert(!only.contains(key));
                        }
                    }
                    proof {
                        let next = node_ids@.take(k + 1).map_values(|n: NodeId| n.0);
                        assert(next =~= node_ids@.take(k as int).map_values(|n: NodeId| n.0).push(key));
                        node_ids@.take(k as int).map_values(|n: NodeId| n.0).lemma_push_to_set_commute(key);
                        assert(next.to_set() =~= done.insert(key));
                        let old_done = done;
                        done = done.insert(key);
                        let target = partly_without_file(store0, file_id, done);
                        assert(kept@.map_values(|e: NodeEntry| e@) == entries_from_other_files(store0[key], file_id));
                        assert(store_before == partly_without_file(store0, file_id, old_done));
                        assert forall|k2: u32| #![trigger self.store().contains_key(k2)]
                            self.store().contains_key(k2) == target.contains_key(k2) && (self.store().contains_key(k2) ==> self.store()[k2] == target[k2]) by {
                            if k2 != key {
                                assert(self.nodes@.contains_key(k2) == nodes_before.contains_key(k2));
                                if nodes_before.contains_key(k2) {
                                    assert(self.nodes@[k2] == nodes_before[k2]);
                                    assert(self.store()[k2] == store_before[k2]);
                                }
                                assert(old_done.contains(k2) == done.contains(k2));
                                assert(store_before.contains_key(k2) == target.contains_key(k2));
                            } else {
                                assert(done.contains(k2));
                                if kept@.len() == 0 {
                                    assert(!self.nodes@.contains_key(k2));
                                } else {
                                    assert(self.nodes@[k2] == kept);
                                    assert(self.store()[k2] == kept@.map_values(|e: NodeEntry| e@));
                                }
                            }
                        }
                        assert(self.store() =~= target);
                        assert(self.dirty@ =~= orig.dirty@.union(done).difference(only.intersect(done)));
                        assert(self.removed@ =~= orig.removed@.union(only.intersect(done)));
                    }
                    k = k + 1;
                }
                proof {
                    assert(node_ids@.take(node_ids@.len() as int) =~= node_ids@);
                    assert(done == touched);
                }
            },
            None => {
                proof {
                    assert(!orig.file_nodes().contains_key(file_id));
                    assert(touched =~= Set::<u32>::empty());
                    assert(self.store() =~= partly_without_file(store0, file_id, touched));
                    assert(self.dirty@ =~= orig.dirty@.union(touched).difference(only.intersect(touched)));
                    assert(self.removed@ =~= orig.removed@.union(only.intersect(touched)));
                }
            },
        }
        self.compile_diagnostics.remove(&file_id);
        proof {
            assert(only.subset_of(touched));
            assert(only.intersect(touched) =~= only);
            Self::lemma_remove_file_done(orig, *self, file_id);
        }
    }

    /// Replaces what file `file_id` contributed with the result of compiling
    /// it again.
    ///
    /// On success its nodes are interned in order and appended to the store,
    /// marked dirty and no longer removed; its compile diagnostics become its
    /// warnings, if any. On failure it contributes no nodes and its compile
    /// diagnostics are its warnings and errors.
    pub fn update(&mut self, file_id: FileKey, compiled: Compiled<D>)
        requires
            old(self).wf(),
            compiled.output matches Ok(outputs) ==> old(self).names().len() + all_output_names(
                outputs@,
            ).len() <= u32::MAX,
        ensures
            final(self).wf(),
            match compiled.output {
                Ok(outputs) => {
                    let names = intern_all(old(self).names(), all_output_names(outputs@));
                    let keys = output_keys(names, outputs@);
                    &&& final(self).names() == names
                    &&& final(self).store() == with_outputs(
                        without_file(old(self).store(), file_id),
                        names,
                        file_id,
                        outputs@,
                    )
                    &&& final(self).file_nodes() == old(self).file_nodes().insert(file_id, keys)
                    &&& final(self).dirty() == old(self).dirty().union(
                        touched_by(old(self).store(), file_id),
                    ).difference(only_from(old(self).store(), file_id)).union(keys)
                    &&& final(self).removed() == old(self).removed().union(
                        only_from(old(self).store(), file_id),
                    ).difference(keys)
                    &&& final(self).compile_diagnostics_map() == if compiled.warnings@.len() == 0 {
                        old(self).compile_diagnostics_map().remove(file_id)
                    } else {
                        old(self).compile_diagnostics_map().insert(
                            file_id,
                            (compiled.warnings@, Seq::<D>::empty()),
                        )
                    }
                },
                Err(errors) => {
                    &&& final(self).names() == old(self).names()
                    &&& final(self).store() == without_file(old(self).store(), file_id)
                    &&& final(self).file_nodes() == old(self).file_nodes().remove(file_id)
                    &&& final(self).dirty() == old(self).dirty().union(
                        touched_by(old(self).store(), file_id),
                    ).difference(only_from(old(self).store(), file_id))
                    &&& final(self).removed() == old(self).removed().union(
                        only_from(old(self).store(), file_id),
                    )
                    &&& final(self).compile_diagnostics_map() == old(self).compile_diagnostics_map().insert(
                        file_id,
                        (compiled.warnings@, errors@),
                    )
                },
            },
    {
        let ghost warnings_in = compiled.warnings@;
        let Compiled { warnings, output } = compiled;
        self.remove(file_id);
        let ghost mid = *self;
        match output {
            Ok(outputs) => {
                let ghost outs = outputs@;
                let mut node_ids: Vec<NodeId> = Vec::new();
                proof {
                    mid.interner.lemma_distinct_names();
                    assert(!mid.file_nodes().contains_key(file_id));
                    assert(!mid.file_to_nodes@.contains_key(file_id));
                    assert(outs.take(0) =~= Seq::<NodeOutput>::empty());
                    assert(all_output_names(outs.take(0)) =~= Seq::<Seq<char>>::empty());
                    assert(self.names() == intern_all(mid.names(), all_output_names(outs.take(0))));
                    assert(output_keys(self.names(), outs.take(0)) =~= Set::<u32>::empty());
                    assert(node_ids@.map_values(|n: NodeId| n.0).to_set() =~= Set::<u32>::empty());
                    assert(self.dirty@ =~= mid.dirty@.union(Set::<u32>::empty()));
                    assert(self.removed@ =~= mid.removed@.difference(Set::<u32>::empty()));
                }
                for output in it: outputs
                    invariant
                        outs == it.seq(),
                        mid.wf(),
                        !mid.file_nodes().contains_key(file_id),
                        !mid.file_to_nodes@.contains_key(file_id),
                        mid.names().len() + all_output_names(outs).len() <= u32::MAX,
                        self.interner.wf(),
                        self.names() == intern_all(mid.names(), all_output_names(outs.take(it.index() as int))),
                        forall|x: Seq<char>| all_output_names(outs.take(it.index() as int)).contains(x) ==> self.names().contains(x),
                        self.store() == with_outputs(mid.store(), self.names(), file_id, outs.take(it.index() as int)),
                        node_ids@.no_duplicates(),
                        node_ids@.map_values(|n: NodeId| n.0).to_set() == output_keys(self.names(), outs.take(it.index() as int)),
                        self.dirty@ == mid.dirty@.union(output_keys(self.names(), outs.take(it.index() as int))),
                        self.removed@ == mid.removed@.difference(output_keys(self.names(), outs.take(it.index() as int))),
                        self.file_to_nodes@ == mid.file_to_nodes@,
                        self.compile_diagnostics@ == mid.compile_diagnostics@,
                        self.outputs == mid.outputs,
                        self.backmatters == mid.backmatters,
                {
                    let ghost i = it.index() as int;
                    let ghost names_before = self.names();
                    let ghost store_before = self.store();
                    let ghost ids_before = node_ids@;
                    proof {
                        assert(outs[i] == output);
                        lemma_all_output_names_step(outs, i);
                        lemma_all_output_names_prefix(outs, i + 1);
                        mid.interner.lemma_distinct_names();
                        lemma_intern_all(mid.names(), all_output_names(outs.take(i)));
                        lemma_intern_all(mid.names(), all_output_names(outs.take(i + 1)));
                        lemma_intern_all_append(mid.names(), all_output_names(outs.take(i)), output_names(output));
                    }
                    proof {
                        assert(output_names(output).len() == 1 + output.transclusions@.len() + output.links@.len());
                    }
                    let NodeOutput { identifier, node, transclusions, links } = output;
                    let node_id = self.interner.intern(identifier.as_str());
                    let ghost names_after_id = self.names();
                    let transclusion_ids = intern_targets(&mut self.interner, &transclusions);
                    let ghost names_after_t = self.names();
                    proof {
                        self.interner.lemma_distinct_names();
                        lemma_intern_all(names_after_id, transclusions@.map_values(|t: String| t@));
                    }
                    let link_ids = intern_targets(&mut self.interner, &links);
                    let ghost names_new = self.names();
                    let ghost tn = transclusions@.map_values(|t: String| t@);
                    let ghost ln = links@.map_values(|l: String| l@);
                    proof {
                        let o = outs[i];
                        assert(o.identifier == identifier && o.transclusions == transclusions && o.links == links);
                        lemma_intern_all_step(names_before, Seq::<Seq<char>>::empty(), identifier@);
                        assert(intern_all(names_before, Seq::<Seq<char>>::empty()) == names_before);
                        assert(Seq::<Seq<char>>::empty().push(identifier@) =~= seq![identifier@]);
                        lemma_intern_all_append(names_before, seq![identifier@], tn);
                        lemma_intern_all_append(names_before, seq![identifier@] + tn, ln);
                        assert(seq![identifier@] + tn + ln =~= output_names(o));
                        assert(self.names() == intern_all(mid.names(), all_output_names(outs.take(i + 1))));
                        crate::interner::lemma_intern_roundtrip(names_before, identifier@);
                        lemma_intern_all(names_after_id, tn);
                        lemma_intern_all(names_after_t, ln);
                        lemma_intern_all(names_before, output_names(o));
                        self.interner.lemma_distinct_names();
                        assert(names_new.subrange(0, names_after_t.len() as int) == names_after_t);
                        assert(names_after_t.subrange(0, names_after_id.len() as int) == names_after_id);
                        assert(names_new[node_id.0 as int] == identifier@) by {
                            assert(names_after_t[node_id.0 as int] == identifier@);
                        }
                        let j = names_new.index_of(identifier@);
                        assert(names_new.subrange(0, names_new.len() as int) =~= names_new);
                        assert(names_new.contains(identifier@));
                        lemma_key_stable(names_new, names_new, identifier@);
                        assert(j == node_id.0 as int) by {
                            if j != node_id.0 as int {
                                assert(names_new[j] != names_new[node_id.0 as int]);
                            }
                        }
                        assert forall|q: int| 0 <= q < transclusions@.len() implies key_of(names_after_t, #[trigger] transclusions@[q]@) == key_of(names_new, transclusions@[q]@) by {
                            assert(tn[q] == transclusions@[q]@);
                            assert(tn.contains(tn[q]));
                            lemma_key_stable(names_after_t, names_new, transclusions@[q]@);
                        }
                        assert(transclusion_ids@ =~= transclusions@.map_values(|t: String| NodeId(key_of(names_new, t@))));
                    }
                    let entry = NodeEntry { node, file_id, links: link_ids, transclusions: transclusion_ids };
                    let key = node_id.0;
                    proof {
                        assert(entry@ == entry_of(names_new, file_id, outs[i]));
                        assert(key == key_of(names_new, outs[i].identifier@));
                        lemma_with_outputs_stable(mid.store(), names_before, names_new, file_id, outs.take(i));
                        lemma_output_keys_step(names_new, outs, i);
                        assert(outs.take(i + 1).drop_last() =~= outs.take(i));
                        assert(outs.take(i + 1).last() == outs[i]);
                    }
                    let ghost nodes_before = self.nodes@;
                    let mut entries: Vec<NodeEntry> = match self.nodes.remove(&key) {
                        Some(v) => v,
                        None => Vec::new(),
                    };
                    let ghost old_entries = entries@;
                    entries.push(entry);
                    self.nodes.insert(key, entries);
                    proof {
                        let target = with_outputs(mid.store(), names_new, file_id, outs.take(i + 1));
                        assert(entries@.map_values(|e: NodeEntry| e@) =~= old_entries.map_values(|e: NodeEntry| e@).push(entry@));
                        assert forall|k2: u32| #![trigger self.store().contains_key(k2)] #![trigger target.contains_key(k2)]
                            self.store().contains_key(k2) == target.contains_key(k2) && (self.store().contains_key(k2) ==> self.store()[k2] == target[k2]) by {
                            if k2 != key {
                                assert(self.nodes@.contains_key(k2) == nodes_before.contains_key(k2));
                                if nodes_before.contains_key(k2) {
                                    assert(self.nodes@[k2] == nodes_before[k2]);
                                }
                            } else {
                                assert(self.nodes@[k2] == entries);
                                if nodes_before.contains_key(k2) {
                                    assert(old_entries == nodes_before[k2]@);
                                } else {
                                    assert(old_entries.len() == 0);
                                }
                            }
                        }
                        assert(self.store() =~= target);
                    }
                    let present = holds_node(&node_ids, node_id);
                    if !present {
                        node_ids.push(node_id);
                    }
                    self.dirty.insert(key);
                    self.removed.remove(&key);
                    proof {
                        let keys_next = output_keys(names_new, outs.take(i + 1));
                        let prev = ids_before.map_values(|n: NodeId| n.0);
                        if !present {
                            assert(node_ids@.map_values(|n: NodeId| n.0) =~= prev.push(key));
                            prev.lemma_push_to_set_commute(key);
                            assert forall|a: int, b: int| 0 <= a < node_ids@.len() && 0 <= b < node_ids@.len() && a != b implies node_ids@[a] != node_ids@[b] by {
                                if a == ids_before.len() {
                                    assert(node_ids@[b] == ids_before[b]);
                                } else if b == ids_before.len() {
                                    assert(node_ids@[a] == ids_before[a]);
                                }
                            }
                        } else {
                            let w = choose|w: int| 0 <= w < ids_before.len() && ids_before[w] == node_id;
                            assert(prev[w] == key);
                        }
                        assert(node_ids@.map_values(|n: NodeId| n.0).to_set() =~= keys_next);
                        assert(self.dirty@ =~= mid.dirty@.union(keys_next));
                        assert(self.removed@ =~= mid.removed@.difference(keys_next));
                    }
                }
                proof {
                    assert(outs.take(outs.len() as int) =~= outs);
                    lemma_intern_all(mid.names(), all_output_names(outs));
                }
                let ghost ids = node_ids@;
                self.file_to_nodes.insert(file_id, node_ids);
                if warnings.len() == 0 {
                    self.compile_diagnostics.remove(&file_id);
                    proof {
                        assert(self.compile_diagnostics_map() =~= mid.compile_diagnostics_map().remove(file_id));
                    }
                } else {
                    self.compile_diagnostics.insert(file_id, (warnings, Vec::new()));
                    proof {
                        assert(self.compile_diagnostics_map() =~= mid.compile_diagnostics_map().insert(file_id, (warnings_in, Seq::<D>::empty())));
                    }
                }
                proof {
                    Self::lemma_update_done(mid, *self, file_id, outs, ids);
                }
            },
            Err(errors) => {
                self.compile_diagnostics.insert(file_id, (warnings, errors));
                proof {
                    assert(self.compile_diagnostics_map() =~= mid.compile_diagnostics_map().insert(file_id, (warnings_in, errors@)));
                    assert forall|f: FileKey| !(#[trigger] self.file_nodes().contains_key(f)) implies touched_by(self.store(), f) =~= Set::<u32>::empty() by {
                        assert(!mid.file_nodes().contains_key(f));
                    }
                }
            },
        }
    }

    /// Finishing the addition of the outputs of file `f` to the store.
    proof fn lemma_update_done(
        mid: Self,
        cur: Self,
        f: FileKey,
        outs: Seq<NodeOutput>,
        ids: Seq<NodeId>,
    )
        requires
            mid.wf(),
            cur.outputs == mid.outputs,
            cur.backmatters == mid.backmatters,
            !mid.file_nodes().contains_key(f),
            !mid.file_to_nodes@.contains_key(f),
            cur.interner.wf(),
            cur.names().len() >= mid.names().len(),
            cur.names().subrange(0, mid.names().len() as int) == mid.names(),
            forall|x: Seq<char>| all_output_names(outs).contains(x) ==> cur.names().contains(x),
            cur.store() == with_outputs(mid.store(), cur.names(), f, outs),
            cur.file_to_nodes@.contains_key(f),
            cur.file_to_nodes@ == mid.file_to_nodes@.insert(f, cur.file_to_nodes@[f]),
            cur.file_to_nodes@[f]@ == ids,
            ids.no_duplicates(),
            ids.map_values(|n: NodeId| n.0).to_set() == output_keys(cur.names(), outs),
            cur.dirty@ == mid.dirty@.union(output_keys(cur.names(), outs)),
            cur.removed@ == mid.removed@.difference(output_keys(cur.names(), outs)),
        ensures
            cur.wf(),
            cur.file_nodes() == mid.file_nodes().insert(f, output_keys(cur.names(), outs)),
    {
        let names = cur.names();
        let store0 = mid.store();
        let store1 = cur.store();
        let keys = output_keys(names, outs);
        cur.interner.lemma_distinct_names();
        assert(names.subrange(0, names.len() as int) =~= names);
        lemma_with_outputs_shape(store0, names, f, outs);
        lemma_output_names_members(outs);
        assert forall|i: int| 0 <= i < outs.len() implies (key_of(names, #[trigger] outs[i].identifier@) as int) < names.len() by {
            lemma_key_stable(names, names, outs[i].identifier@);
        }
        assert forall|k: u32| #[trigger] store1.contains_key(k) implies (k as int) < names.len() by {
            if !store0.contains_key(k) {
                let i = choose|i: int| 0 <= i < outs.len() && k == key_of(names, (#[trigger] outs[i]).identifier@);
                lemma_key_stable(names, names, outs[i].identifier@);
            }
        }
        assert forall|k: u32, i: int, j: int|
            store1.contains_key(k) && 0 <= i < store1[k].len() && 0 <= j < store1[k][i].links.len()
                implies (#[trigger] store1[k][i].links[j].0 as int) < names.len() by {
            let x = store1[k][i];
            assert(store1[k].contains(x));
            if store0.contains_key(k) && store0[k].contains(x) {
                let w = choose|w: int| 0 <= w < store0[k].len() && store0[k][w] == x;
                assert(store0[k][w].links[j] == x.links[j]);
            } else {
                let q = choose|q: int| 0 <= q < outs.len() && x == entry_of(names, f, #[trigger] outs[q]);
                lemma_key_stable(names, names, outs[q].links@[j]@);
            }
        }
        assert forall|k: u32, i: int, j: int|
            store1.contains_key(k) && 0 <= i < store1[k].len() && 0 <= j < store1[k][i].transclusions.len()
                implies (#[trigger] store1[k][i].transclusions[j].0 as int) < names.len() by {
            let x = store1[k][i];
            assert(store1[k].contains(x));
            if store0.contains_key(k) && store0[k].contains(x) {
                let w = choose|w: int| 0 <= w < store0[k].len() && store0[k][w] == x;
                assert(store0[k][w].transclusions[j] == x.transclusions[j]);
            } else {
                let q = choose|q: int| 0 <= q < outs.len() && x == entry_of(names, f, #[trigger] outs[q]);
                lemma_key_stable(names, names, outs[q].transclusions@[j]@);
            }
        }
        assert(touched_by(store0, f) =~= Set::<u32>::empty());
        assert(cur.file_nodes() =~= mid.file_nodes().insert(f, keys));
        assert forall|g: FileKey| #[trigger] cur.file_nodes().contains_key(g) implies cur.file_nodes()[g] == touched_by(store1, g) by {
            if g == f {
                assert(touched_by(store1, g) =~= keys);
            } else {
                assert(touched_by(store1, g) =~= touched_by(store0, g));
            }
        }
        assert forall|g: FileKey| !(#[trigger] cur.file_nodes().contains_key(g)) implies touched_by(store1, g) =~= Set::<u32>::empty() by {
            assert(!mid.file_nodes().contains_key(g));
            assert(touched_by(store1, g) =~= touched_by(store0, g));
        }
        assert forall|g: FileKey| #[trigger] cur.file_to_nodes@.contains_key(g) implies cur.file_to_nodes@[g]@.no_duplicates() by {
            if g != f {
                assert(mid.file_to_nodes@.contains_key(g));
            }
        }
    }

    /// Finishing the removal of file `f` from the store.
    proof fn lemma_remove_file_done(orig: Self, cur: Self, f: FileKey)
        requires
            orig.wf(),
            cur.outputs == orig.outputs,
            cur.backmatters == orig.backmatters,
            cur.store() == partly_without_file(orig.store(), f, touched_by(orig.store(), f)),
            cur.file_to_nodes@ == orig.file_to_nodes@.remove(f),
            cur.compile_diagnostics@ == orig.compile_diagnostics@.remove(f),
            cur.interner == orig.interner,
            cur.dirty@ == orig.dirty@.union(touched_by(orig.store(), f)).difference(
                only_from(orig.store(), f),
            ),
            cur.removed@ == orig.removed@.union(only_from(orig.store(), f)),
        ensures
            cur.wf(),
            cur.store() == without_file(orig.store(), f),
            cur.file_nodes() == orig.file_nodes().remove(f),
            cur.compile_diagnostics_map() == orig.compile_diagnostics_map().remove(f),
    {
        let store0 = orig.store();
        let store1 = cur.store();
        let touched = touched_by(store0, f);
        assert forall|k: u32| #![trigger store1.contains_key(k)] #![trigger without_file(store0, f).contains_key(k)]
            store1.contains_key(k) == without_file(store0, f).contains_key(k) && (store1.contains_key(k) ==> store1[k] == without_file(store0, f)[k]) by {
            if store0.contains_key(k) {
                lemma_other_files_members(store0[k], f);
            }
        }
        assert(store1 =~= without_file(store0, f));
        assert forall|k: u32| #[trigger] store1.contains_key(k) implies store1[k].len() > 0 && (k as int) < cur.names().len() by {}
        assert forall|k: u32, i: int, j: int|
            store1.contains_key(k) && 0 <= i < store1[k].len() && 0 <= j < store1[k][i].links.len()
                implies (#[trigger] store1[k][i].links[j].0 as int) < cur.names().len() by {
            assert(store0.contains_key(k));
            assert(store1[k] == entries_from_other_files(store0[k], f));
            lemma_other_files_members(store0[k], f);
            assert(store1[k].contains(store1[k][i]));
            assert(store0[k].contains(store1[k][i]));
            let w = choose|w: int| 0 <= w < store0[k].len() && store0[k][w] == store1[k][i];
            assert(store0[k][w].links[j] == store1[k][i].links[j]);
        }
        assert forall|k: u32, i: int, j: int|
            store1.contains_key(k) && 0 <= i < store1[k].len() && 0 <= j < store1[k][i].transclusions.len()
                implies (#[trigger] store1[k][i].transclusions[j].0 as int) < cur.names().len() by {
            assert(store0.contains_key(k));
            assert(store1[k] == entries_from_other_files(store0[k], f));
            lemma_other_files_members(store0[k], f);
            assert(store1[k].contains(store1[k][i]));
            assert(store0[k].contains(store1[k][i]));
            let w = choose|w: int| 0 <= w < store0[k].len() && store0[k][w] == store1[k][i];
            assert(store0[k][w].transclusions[j] == store1[k][i].transclusions[j]);
        }
        assert(cur.file_nodes() =~= orig.file_nodes().remove(f));
        assert forall|g: FileKey| #[trigger] cur.file_nodes().contains_key(g) implies cur.file_nodes()[g] == touched_by(store1, g) by {
            assert(orig.file_nodes().contains_key(g));
            assert forall|k: u32| touched_by(store1, g).contains(k) <==> touched_by(store0, g).contains(k) by {
                if store0.contains_key(k) {
                    lemma_other_files_members(store0[k], f);
                }
            }
            assert(touched_by(store1, g) =~= touched_by(store0, g));
        }
        assert forall|g: FileKey| !(#[trigger] cur.file_nodes().contains_key(g)) implies touched_by(store1, g) =~= Set::<u32>::empty() by {
            assert forall|k: u32| !touched_by(store1, g).contains(k) by {
                if store0.contains_key(k) {
                    lemma_other_files_members(store0[k], f);
                    if g != f {
                        assert(!orig.file_nodes().contains_key(g));
                        assert(!touched_by(store0, g).contains(k));
                    }
                }
            }
        }
        assert forall|k: u32| #[trigger] cur.dirty@.contains(k) implies store1.contains_key(k) by {
            lemma_other_files_members(store0[k], f);
        }
        assert forall|k: u32| #[trigger] cur.removed@.contains(k) implies !store1.contains_key(k) by {
            if store0.contains_key(k) {
                lemma_other_files_members(store0[k], f);
            }
        }
        assert(cur.compile_diagnostics_map() =~= orig.compile_diagnostics_map().remove(f));
    }
}

/// The names after interning each of `names_in` in order.
pub open spec fn intern_all(names: Seq<Seq<char>>, names_in: Seq<Seq<char>>) -> Seq<Seq<char>>
    decreases names_in.len(),
{
    if names_in.len() == 0 {
        names
    } else {
        interned_names(intern_all(names, names_in.drop_last()), names_in.last())
    }
}

/// The names an output interns, in the order they are interned: its
/// identifier, then its transclusion targets, then its link targets.
pub open spec fn output_names(output: NodeOutput) -> Seq<Seq<char>> {
    seq![output.identifier@] + output.transclusions@.map_values(|t: String| t@)
        + output.links@.map_values(|l: String| l@)
}

/// The names that a sequence of outputs interns, in order.
pub open spec fn all_output_names(outputs: Seq<NodeOutput>) -> Seq<Seq<char>>
    decreases outputs.len(),
{
    if outputs.len() == 0 {
        Seq::empty()
    } else {
        all_output_names(outputs.drop_last()) + output_names(outputs.last())
    }
}

/// The handle of an interned name.
pub open spec fn key_of(names: Seq<Seq<char>>, name: Seq<char>) -> u32 {
    names.index_of(name) as u32
}

/// The entry that an output becomes in file `f`.
pub open spec fn entry_of(names: Seq<Seq<char>>, f: FileKey, output: NodeOutput) -> EntryView {
    EntryView {
        node: output.node,
        file_id: f,
        links: output.links@.map_values(|l: String| NodeId(key_of(names, l@))),
        transclusions: output.transclusions@.map_values(|t: String| NodeId(key_of(names, t@))),
    }
}

/// The node store after appending the entries of `outputs`, in order.
pub open spec fn with_outputs(
    store: Map<u32, Seq<EntryView>>,
    names: Seq<Seq<char>>,
    f: FileKey,
    outputs: Seq<NodeOutput>,
) -> Map<u32, Seq<EntryView>>
    decreases outputs.len(),
{
    if outputs.len() == 0 {
        store
    } else {
        let before = with_outputs(store, names, f, outputs.drop_last());
        let key = key_of(names, outputs.last().identifier@);
        let existing = if before.contains_key(key) {
            before[key]
        } else {
            Seq::empty()
        };
        before.insert(key, existing.push(entry_of(names, f, outputs.last())))
    }
}

/// The handles of the nodes that `outputs` define.
pub open spec fn output_keys(names: Seq<Seq<char>>, outputs: Seq<NodeOutput>) -> Set<u32> {
    Set::new(
        |k: u32|
            exists|i: int|
                0 <= i < outputs.len() && k == key_of(names, (#[trigger] outputs[i]).identifier@),
    )
}

proof fn lemma_intern_all(names: Seq<Seq<char>>, names_in: Seq<Seq<char>>)
    requires
        names.no_duplicates(),
    ensures
        intern_all(names, names_in).no_duplicates(),
        intern_all(names, names_in).len() <= names.len() + names_in.len(),
        intern_all(names, names_in).len() >= names.len(),
        intern_all(names, names_in).subrange(0, names.len() as int) == names,
        forall|x: Seq<char>| names_in.contains(x) ==> intern_all(names, names_in).contains(x),
    decreases names_in.len(),
{
    if names_in.len() > 0 {
        let init = names_in.drop_last();
        lemma_intern_all(names, init);
        let mid = intern_all(names, init);
        crate::interner::lemma_intern_roundtrip(mid, names_in.last());
        let out = intern_all(names, names_in);
        assert(out.subrange(0, mid.len() as int) == mid);
        assert(out.subrange(0, names.len() as int) =~= mid.subrange(0, names.len() as int));
        assert forall|x: Seq<char>| names_in.contains(x) implies out.contains(x) by {
            let w = choose|w: int| 0 <= w < names_in.len() && names_in[w] == x;
            if w < init.len() {
                assert(init[w] == x);
                assert(init.contains(x));
                assert(mid.contains(x));
                let v = choose|v: int| 0 <= v < mid.len() && mid[v] == x;
                assert(out.subrange(0, mid.len() as int)[v] == x);
            }
        }
    }
}

/// Handles of names already interned do not change when more are interned.
proof fn lemma_key_stable(small: Seq<Seq<char>>, large: Seq<Seq<char>>, x: Seq<char>)
    requires
        large.no_duplicates(),
        small.len() <= large.len(),
        large.subrange(0, small.len() as int) == small,
        small.contains(x),
    ensures
        key_of(small, x) == key_of(large, x),
        large.contains(x),
        large[large.index_of(x)] == x,
        0 <= large.index_of(x) < large.len(),
{
    let i = small.index_of(x);
    assert(0 <= i < small.len() && small[i] == x);
    assert(large[i] == x);
    assert(large.contains(x));
    let j = large.index_of(x);
    assert(0 <= j < large.len() && large[j] == x);
}

proof fn lemma_all_output_names_step(outputs: Seq<NodeOutput>, i: int)
    requires
        0 <= i < outputs.len(),
    ensures
        all_output_names(outputs.take(i + 1)) == all_output_names(outputs.take(i)) + output_names(outputs[i]),
{
    assert(outputs.take(i + 1).drop_last() =~= outputs.take(i));
}

proof fn lemma_intern_all_append(names: Seq<Seq<char>>, a: Seq<Seq<char>>, b: Seq<Seq<char>>)
    ensures
        intern_all(names, a + b) == intern_all(intern_all(names, a), b),
    decreases b.len(),
{
    if b.len() == 0 {
        assert(a + b =~= a);
    } else {
        assert((a + b).drop_last() =~= a + b.drop_last());
        lemma_intern_all_append(names, a, b.drop_last());
    }
}

proof fn lemma_intern_all_step(names: Seq<Seq<char>>, a: Seq<Seq<char>>, x: Seq<char>)
    ensures
        intern_all(names, a.push(x)) == interned_names(intern_all(names, a), x),
{
    assert(a.push(x).drop_last() =~= a);
}

proof fn lemma_all_output_names_prefix(outputs: Seq<NodeOutput>, i: int)
    requires
        0 <= i <= outputs.len(),
    ensures
        all_output_names(outputs.take(i)).len() <= all_output_names(outputs).len(),
        forall|x: Seq<char>| all_output_names(outputs.take(i)).contains(x) ==> all_output_names(outputs).contains(x),
    decreases outputs.len() - i,
{
    if i < outputs.len() {
        lemma_all_output_names_step(outputs, i);
        lemma_all_output_names_prefix(outputs, i + 1);
        let a = all_output_names(outputs.take(i));
        let b = all_output_names(outputs.take(i + 1));
        assert forall|x: Seq<char>| a.contains(x) implies b.contains(x) by {
            let w = choose|w: int| 0 <= w < a.len() && a[w] == x;
            assert(b[w] == x);
        }
    } else {
        assert(outputs.take(i) =~= outputs);
    }
}

proof fn lemma_output_names_members(outputs: Seq<NodeOutput>)
    ensures
        forall|i: int| 0 <= i < outputs.len() ==> all_output_names(outputs).contains(#[trigger] outputs[i].identifier@),
        forall|i: int, j: int| 0 <= i < outputs.len() && 0 <= j < outputs[i].links@.len()
            ==> all_output_names(outputs).contains(#[trigger] outputs[i].links@[j]@),
        forall|i: int, j: int| 0 <= i < outputs.len() && 0 <= j < outputs[i].transclusions@.len()
            ==> all_output_names(outputs).contains(#[trigger] outputs[i].transclusions@[j]@),
    decreases outputs.len(),
{
    if outputs.len() > 0 {
        let init = outputs.drop_last();
        lemma_output_names_members(init);
        let a = all_output_names(init);
        let o = outputs.last();
        let on = output_names(o);
        let all = a + on;
        assert(all_output_names(outputs) == all);
        let tn = o.transclusions@.map_values(|t: String| t@);
        let ln = o.links@.map_values(|l: String| l@);
        assert forall|i: int| 0 <= i < outputs.len() implies all.contains(#[trigger] outputs[i].identifier@) by {
            if i < init.len() {
                assert(init[i] == outputs[i]);
                assert(a.contains(init[i].identifier@));
                let w = choose|w: int| 0 <= w < a.len() && a[w] == init[i].identifier@;
                assert(all[w] == a[w]);
            } else {
                assert(all[a.len() as int] == o.identifier@);
            }
        }
        assert forall|i: int, j: int| 0 <= i < outputs.len() && 0 <= j < outputs[i].links@.len()
            implies all.contains(#[trigger] outputs[i].links@[j]@) by {
            if i < init.len() {
                assert(init[i] == outputs[i]);
                assert(a.contains(init[i].links@[j]@));
                let w = choose|w: int| 0 <= w < a.len() && a[w] == init[i].links@[j]@;
                assert(all[w] == a[w]);
            } else {
                assert(all[a.len() + 1 + tn.len() + j] == ln[j]);
            }
        }
        assert forall|i: int, j: int| 0 <= i < outputs.len() && 0 <= j < outputs[i].transclusions@.len()
            implies all.contains(#[trigger] outputs[i].transclusions@[j]@) by {
            if i < init.len() {
                assert(init[i] == outputs[i]);
                assert(a.contains(init[i].transclusions@[j]@));
                let w = choose|w: int| 0 <= w < a.len() && a[w] == init[i].transclusions@[j]@;
                assert(all[w] == a[w]);
            } else {
                assert(all[a.len() + 1 + j] == tn[j]);
            }
        }
    }
}

/// Growing the name table does not change what outputs already interned mean.
proof fn lemma_with_outputs_stable(
    store: Map<u32, Seq<EntryView>>,
    small: Seq<Seq<char>>,
    large: Seq<Seq<char>>,
    f: FileKey,
    outputs: Seq<NodeOutput>,
)
    requires
        large.no_duplicates(),
        small.len() <= large.len(),
        large.subrange(0, small.len() as int) == small,
        forall|x: Seq<char>| all_output_names(outputs).contains(x) ==> small.contains(x),
    ensures
        with_outputs(store, small, f, outputs) == with_outputs(store, large, f, outputs),
        output_keys(small, outputs) == output_keys(large, outputs),
    decreases outputs.len(),
{
    lemma_output_names_members(outputs);
    if outputs.len() > 0 {
        let init = outputs.drop_last();
        lemma_output_names_members(init);
        assert forall|x: Seq<char>| all_output_names(init).contains(x) implies small.contains(x) by {
            let a = all_output_names(init);
            let w = choose|w: int| 0 <= w < a.len() && a[w] == x;
            assert(all_output_names(outputs) == a + output_names(outputs.last()));
            assert(all_output_names(outputs)[w] == x);
        }
        lemma_with_outputs_stable(store, small, large, f, init);
        let o = outputs.last();
        assert(o == outputs[outputs.len() - 1]);
        lemma_key_stable(small, large, o.identifier@);
        assert forall|j: int| 0 <= j < o.links@.len() implies key_of(small, #[trigger] o.links@[j]@) == key_of(large, o.links@[j]@) by {
            lemma_key_stable(small, large, o.links@[j]@);
        }
        assert forall|j: int| 0 <= j < o.transclusions@.len() implies key_of(small, #[trigger] o.transclusions@[j]@) == key_of(large, o.transclusions@[j]@) by {
            lemma_key_stable(small, large, o.transclusions@[j]@);
        }
        assert(entry_of(small, f, o).links =~= entry_of(large, f, o).links);
        assert(entry_of(small, f, o).transclusions =~= entry_of(large, f, o).transclusions);
        assert(entry_of(small, f, o) == entry_of(large, f, o));
    }
    assert forall|k: u32| output_keys(small, outputs).contains(k) <==> output_keys(large, outputs).contains(k) by {
        if output_keys(small, outputs).contains(k) {
            let i = choose|i: int| 0 <= i < outputs.len() && k == key_of(small, (#[trigger] outputs[i]).identifier@);
            lemma_key_stable(small, large, outputs[i].identifier@);
        }
        if output_keys(large, outputs).contains(k) {
            let i = choose|i: int| 0 <= i < outputs.len() && k == key_of(large, (#[trigger] outputs[i]).identifier@);
            lemma_key_stable(small, large, outputs[i].identifier@);
        }
    }
    assert(output_keys(small, outputs) =~= output_keys(large, outputs));
}

/// Interns each target name, returning their handles in order.
fn intern_targets(interner: &mut NodeInterner, targets: &Vec<String>) -> (ids: Vec<NodeId>)
    requires
        old(interner).wf(),
        old(interner)@.len() + targets@.len() <= u32::MAX,
    ensures
        final(interner).wf(),
        final(interner)@ == intern_all(old(interner)@, targets@.map_values(|t: String| t@)),
        ids@ == targets@.map_values(|t: String| NodeId(key_of(final(interner)@, t@))),
{
    let ghost start = interner@;
    let ghost names_in = targets@.map_values(|t: String| t@);
    let mut ids: Vec<NodeId> = Vec::new();
    let mut j: usize = 0;
    proof {
        interner.lemma_distinct_names();
        assert(names_in.take(0) =~= Seq::<Seq<char>>::empty());
        lemma_intern_all(start, names_in.take(0));
    }
    while j < targets.len()
        invariant
            interner.wf(),
            j <= targets@.len(),
            start.len() + targets@.len() <= u32::MAX,
            names_in == targets@.map_values(|t: String| t@),
            interner@ == intern_all(start, names_in.take(j as int)),
            interner@.len() <= start.len() + j,
            start.no_duplicates(),
            ids@ == targets@.take(j as int).map_values(|t: String| NodeId(key_of(interner@, t@))),
            forall|x: Seq<char>| names_in.take(j as int).contains(x) ==> interner@.contains(x),
        decreases targets@.len() - j,
    {
        let ghost before = interner@;
        proof {
            interner.lemma_distinct_names();
        }
        let id = interner.intern(targets[j].as_str());
        proof {
            let x = targets@[j as int]@;
            assert(names_in.take(j + 1) =~= names_in.take(j as int).push(x));
            lemma_intern_all_step(start, names_in.take(j as int), x);
            interner.lemma_distinct_names();
            assert(before.no_duplicates());
            crate::interner::lemma_intern_roundtrip(before, x);
            assert(interner@.subrange(0, before.len() as int) == before);
            assert(interner@[id.0 as int] == x);
            assert(interner@.contains(x));
            assert(interner@.subrange(0, interner@.len() as int) =~= interner@);
            lemma_key_stable(interner@, interner@, x);
            assert(id.0 == key_of(interner@, x));
        }
        ids.push(id);
        proof {
            let x = targets@[j as int]@;
            let prev = targets@.take(j as int);
            assert forall|q: int| 0 <= q < prev.len() implies key_of(before, #[trigger] prev[q]@) == key_of(interner@, prev[q]@) by {
                assert(names_in.take(j as int)[q] == prev[q]@);
                assert(names_in.take(j as int).contains(prev[q]@));
                lemma_key_stable(before, interner@, prev[q]@);
            }
            assert(ids@ =~= targets@.take(j + 1).map_values(|t: String| NodeId(key_of(interner@, t@))));
            assert forall|y: Seq<char>| names_in.take(j + 1).contains(y) implies interner@.contains(y) by {
                if y != x {
                    let nxt = names_in.take(j + 1);
                    let w = choose|w: int| 0 <= w < nxt.len() && #[trigger] nxt[w] == y;
                    assert(w < j);
                    assert(names_in.take(j as int)[w] == y);
                    assert(names_in.take(j as int).contains(y));
                    assert(before.contains(y));
                    let v = choose|v: int| 0 <= v < before.len() && before[v] == y;
                    assert(interner@.subrange(0, before.len() as int)[v] == y);
                }
            }
        }
        j = j + 1;
    }
    proof {
        assert(names_in.take(targets@.len() as int) =~= names_in);
        assert(targets@.take(targets@.len() as int) =~= targets@);
    }
    ids
}

/// Defining one more output adds its handle to the defined handles.
proof fn lemma_output_keys_step(names: Seq<Seq<char>>, outputs: Seq<NodeOutput>, i: int)
    requires
        0 <= i < outputs.len(),
    ensures
        output_keys(names, outputs.take(i + 1)) == output_keys(names, outputs.take(i)).insert(
            key_of(names, outputs[i].identifier@),
        ),
{
    let a = outputs.take(i);
    let b = outputs.take(i + 1);
    assert forall|k: u32| output_keys(names, b).contains(k) <==> output_keys(names, a).insert(key_of(names, outputs[i].identifier@)).contains(k) by {
        if output_keys(names, b).contains(k) {
            let w = choose|w: int| 0 <= w < b.len() && k == key_of(names, (#[trigger] b[w]).identifier@);
            if w < i {
                assert(a[w] == b[w]);
            }
        }
        if output_keys(names, a).contains(k) {
            let w = choose|w: int| 0 <= w < a.len() && k == key_of(names, (#[trigger] a[w]).identifier@);
            assert(b[w] == a[w]);
        }
        if k == key_of(names, outputs[i].identifier@) {
            assert(b[i] == outputs[i]);
        }
    }
    assert(output_keys(names, b) =~= output_keys(names, a).insert(key_of(names, outputs[i].identifier@)));
}

/// Whether `id` occurs in `ids`.
fn holds_node(ids: &Vec<NodeId>, id: NodeId) -> (found: bool)
    ensures
        found == ids@.contains(id),
{
    let mut k: usize = 0;
    while k < ids.len()
        invariant
            k <= ids@.len(),
            forall|w: int| 0 <= w < k ==> ids@[w] != id,
        decreases ids@.len() - k,
    {
        if ids[k].0 == id.0 {
            proof {
                assert(ids@[k as int] == id);
            }
            return true;
        }
        k = k + 1;
    }
    false
}

proof fn lemma_has_entry_push(entries: Seq<EntryView>, e: EntryView, g: FileKey)
    ensures
        has_entry_from(entries.push(e), g) <==> (has_entry_from(entries, g) || e.file_id == g),
{
    let r = entries.push(e);
    assert(r[entries.len() as int] == e);
    if has_entry_from(r, g) && e.file_id != g {
        let w = choose|w: int| 0 <= w < r.len() && (#[trigger] r[w]).file_id == g;
        assert(entries[w] == r[w]);
    }
    if has_entry_from(entries, g) {
        let w = choose|w: int| 0 <= w < entries.len() && (#[trigger] entries[w]).file_id == g;
        assert(r[w] == entries[w]);
    }
}

/// What appending outputs does to the node store.
proof fn lemma_with_outputs_shape(
    store: Map<u32, Seq<EntryView>>,
    names: Seq<Seq<char>>,
    f: FileKey,
    outputs: Seq<NodeOutput>,
)
    requires
        forall|k: u32| #[trigger] store.contains_key(k) ==> store[k].len() > 0,
    ensures
        forall|k: u32|
            #[trigger] with_outputs(store, names, f, outputs).contains_key(k) <==> (store.contains_key(k)
                || output_keys(names, outputs).contains(k)),
        forall|k: u32|
            #[trigger] with_outputs(store, names, f, outputs).contains_key(k) ==> with_outputs(
                store,
                names,
                f,
                outputs,
            )[k].len() > 0,
        forall|k: u32, x: EntryView|
            with_outputs(store, names, f, outputs).contains_key(k) && #[trigger] with_outputs(
                store,
                names,
                f,
                outputs,
            )[k].contains(x) ==> (store.contains_key(k) && store[k].contains(x)) || exists|j: int|
                0 <= j < outputs.len() && x == entry_of(names, f, #[trigger] outputs[j]),
        forall|k: u32, g: FileKey|
            #[trigger] touched_by(with_outputs(store, names, f, outputs), g).contains(k) <==> (
            touched_by(store, g).contains(k) || (g == f && output_keys(names, outputs).contains(k))),
    decreases outputs.len(),
{
    let result = with_outputs(store, names, f, outputs);
    if outputs.len() == 0 {
        assert forall|k: u32| !output_keys(names, outputs).contains(k) by {}
    } else {
        let init = outputs.drop_last();
        lemma_with_outputs_shape(store, names, f, init);
        let before = with_outputs(store, names, f, init);
        let o = outputs.last();
        let key = key_of(names, o.identifier@);
        let existing = if before.contains_key(key) { before[key] } else { Seq::<EntryView>::empty() };
        let e = entry_of(names, f, o);
        assert(result == before.insert(key, existing.push(e)));
        assert(outputs[outputs.len() - 1] == o);
        assert forall|k: u32| output_keys(names, outputs).contains(k) <==> (output_keys(names, init).contains(k) || k == key) by {
            if output_keys(names, outputs).contains(k) {
                let i = choose|i: int| 0 <= i < outputs.len() && k == key_of(names, (#[trigger] outputs[i]).identifier@);
                if i < init.len() {
                    assert(init[i] == outputs[i]);
                }
            }
            if output_keys(names, init).contains(k) {
                let i = choose|i: int| 0 <= i < init.len() && k == key_of(names, (#[trigger] init[i]).identifier@);
                assert(outputs[i] == init[i]);
            }
        }
        assert forall|k: u32, x: EntryView|
            result.contains_key(k) && #[trigger] result[k].contains(x) implies (store.contains_key(k) && store[k].contains(x)) || exists|j: int|
                0 <= j < outputs.len() && x == entry_of(names, f, #[trigger] outputs[j]) by {
            if k == key {
                let w = choose|w: int| 0 <= w < result[k].len() && result[k][w] == x;
                if w < existing.len() {
                    assert(existing[w] == x);
                    assert(before[k].contains(x));
                    if !(store.contains_key(k) && store[k].contains(x)) {
                        let j = choose|j: int| 0 <= j < init.len() && x == entry_of(names, f, #[trigger] init[j]);
                        assert(outputs[j] == init[j]);
                    }
                } else {
                    assert(x == e);
                }
            } else {
                assert(before[k] == result[k]);
                if !(store.contains_key(k) && store[k].contains(x)) {
                    let j = choose|j: int| 0 <= j < init.len() && x == entry_of(names, f, #[trigger] init[j]);
                    assert(outputs[j] == init[j]);
                }
            }
        }
        assert forall|k: u32, g: FileKey|
            #[trigger] touched_by(result, g).contains(k) <==> (touched_by(store, g).contains(k) || (g == f && output_keys(names, outputs).contains(k))) by {
            assert(touched_by(before, g).contains(k) <==> (touched_by(store, g).contains(k) || (g == f && output_keys(names, init).contains(k))));
            if k == key {
                lemma_has_entry_push(existing, e, g);
                assert(result.contains_key(k));
                assert(result[k] == existing.push(e));
                if before.contains_key(k) {
                    assert(existing == before[k]);
                } else {
                    assert(!has_entry_from(existing, g));
                }
            } else {
                assert(result.contains_key(k) == before.contains_key(k));
                if before.contains_key(k) {
                    assert(result[k] == before[k]);
                }
            }
        }
    }
}

/// Keeps the entries that do not come from file `f`, in order.
fn keep_other_files(entries: Vec<NodeEntry>, f: FileKey) -> (kept: Vec<NodeEntry>)
    ensures
        kept@.map_values(|e: NodeEntry| e@) == entries_from_other_files(
            entries@.map_values(|e: NodeEntry| e@),
            f,
        ),
{
    let ghost all = entries@.map_values(|e: NodeEntry| e@);
    let mut kept: Vec<NodeEntry> = Vec::new();
    for entry in it: entries
        invariant
            all == it.seq().map_values(|e: NodeEntry| e@),
            kept@.map_values(|e: NodeEntry| e@) == entries_from_other_files(
                all.take(it.index() as int),
                f,
            ),
    {
        proof {
            let next = all.take(it.index() + 1);
            assert(next.drop_last() =~= all.take(it.index() as int));
            assert(next.last() == entry@);
        }
        if entry.file_id != f {
            kept.push(entry);
            proof {
                assert(kept@.map_values(|e: NodeEntry| e@) =~= entries_from_other_files(
                    all.take(it.index() as int),
                    f,
                ).push(kept@.last()@));
            }
        }
    }
    proof {
        assert(all.take(all.len() as int) =~= all);
    }
    kept
}


/// Node `k` is defined exactly once.
pub open spec fn is_single(store: Map<u32, Seq<EntryView>>, k: u32) -> bool {
    store.contains_key(k) && store[k].len() == 1
}

/// For each handle below `n`, whether its node is defined exactly once.
pub open spec fn singles(store: Map<u32, Seq<EntryView>>, n: nat) -> Seq<bool> {
    Seq::new(n, |k: int| is_single(store, k as u32))
}

/// The transclusions of the nodes defined exactly once, as (source, target).
pub open spec fn store_transclusions(store: Map<u32, Seq<EntryView>>) -> Set<(u32, u32)> {
    Set::new(
        |e: (u32, u32)| is_single(store, e.0) && store[e.0][0].transclusions.contains(NodeId(e.1)),
    )
}

/// The nodes of the transclusion graph: the nodes defined exactly once and
/// the targets of their transclusions.
pub open spec fn store_graph_nodes(store: Map<u32, Seq<EntryView>>, n: nat) -> Set<u32> {
    Set::new(
        |x: u32|
            ((x as int) < n && is_single(store, x)) || exists|a: u32| #[trigger] store_transclusions(store).contains((a, x)),
    )
}

/// The links of the nodes defined exactly once, as (source, target).
pub open spec fn store_links(store: Map<u32, Seq<EntryView>>) -> Set<(u32, u32)> {
    Set::new(|e: (u32, u32)| is_single(store, e.0) && store[e.0][0].links.contains(NodeId(e.1)))
}

impl<B, M, D> Compiler<B, M, D> {
    /// Builds the transclusion graph and the link graph of the nodes defined
    /// exactly once, with every such node in the transclusion graph, and
    /// marks those nodes.
    fn build_graphs(&self) -> (r: (DiGraphMap<u32, ()>, DiGraphMap<u32, ()>, Vec<bool>))
        requires
            self.wf(),
        ensures
            r.2@ == singles(self.store(), self.names().len()),
            graphs_wf(r.0, r.1, r.2@),
            graph_edges(r.0) == store_transclusions(self.store()),
            graph_edges(r.1) == store_links(self.store()),
            graph_nodes(r.0) == store_graph_nodes(self.store(), self.names().len()),
    {
        let ghost store = self.store();
        let ghost names = self.names();
        let n = self.interner.len();
        proof {
            self.interner.lemma_distinct_names();
        }
        let mut t = new_graph();
        let mut l = new_graph();
        let mut single: Vec<bool> = Vec::new();
        let mut k: usize = 0;
        while k < n
            invariant
                self.wf(),
                store == self.store(),
                names == self.names(),
                n == names.len(),
                n <= u32::MAX as nat + 1,
                k <= n,
                single@ == singles(store, k as nat),
                forall|x: u32| #[trigger] graph_nodes(t).contains(x) ==> (x as int) < n,
                forall|x: u32| (x as int) < k && is_single(store, x) ==> #[trigger] graph_nodes(t).contains(x),
                forall|x: u32| #[trigger] graph_nodes(t).contains(x) ==> (((x as int) < k && is_single(store, x))
                    || exists|a: u32| graph_edges(t).contains((a, x))),
                forall|a: u32, b: u32|
                    #[trigger] graph_edges(t).contains((a, b)) ==> graph_nodes(t).contains(a) && graph_nodes(t).contains(b),
                forall|a: u32, b: u32|
                    #[trigger] graph_edges(t).contains((a, b)) <==> ((a as int) < k && store_transclusions(store).contains((a, b))),
                forall|a: u32, b: u32|
                    #[trigger] graph_edges(l).contains((a, b)) <==> ((a as int) < k && store_links(store).contains((a, b))),
            decreases n - k,
        {
            let key = k as u32;
            let one = match self.nodes.get(&key) {
                Some(entries) => entries.len() == 1,
                None => false,
            };
            proof {
                assert(one == is_single(store, key)) by {
                    if self.nodes@.contains_key(key) {
                        assert(store[key].len() == self.nodes@[key]@.len());
                    }
                }
            }
            if one {
                let entries = self.nodes.get(&key).unwrap();
                let entry = &entries[0];
                proof {
                    assert(store[key][0] == entry@);
                }
                add_graph_node(&mut t, key);
                let mut j: usize = 0;
                while j < entry.transclusions.len()
                    invariant
                        self.wf(),
                        store == self.store(),
                        names == self.names(),
                        n == names.len(),
                        n <= u32::MAX as nat + 1,
                        k < n,
                        key == k,
                        is_single(store, key),
                        store[key][0] == entry@,
                        j <= entry.transclusions@.len(),
                        graph_nodes(t).contains(key),
                        forall|x: u32| #[trigger] graph_nodes(t).contains(x) ==> (x as int) < n,
                        forall|x: u32| (x as int) < k && is_single(store, x) ==> #[trigger] graph_nodes(t).contains(x),
                        forall|x: u32| #[trigger] graph_nodes(t).contains(x) ==> (((x as int) <= k && is_single(store, x))
                            || exists|a: u32| graph_edges(t).contains((a, x))),
                        forall|a: u32, b: u32|
                            #[trigger] graph_edges(t).contains((a, b)) ==> graph_nodes(t).contains(a) && graph_nodes(t).contains(b),
                        forall|a: u32, b: u32|
                            #[trigger] graph_edges(t).contains((a, b)) <==> (((a as int) < k && store_transclusions(store).contains((a, b)))
                                || (a == key && exists|q: int| 0 <= q < j && entry.transclusions@[q] == NodeId(b))),
                    decreases entry.transclusions@.len() - j,
                {
                    let target = entry.transclusions[j].0;
                    proof {
                        assert(store.contains_key(key) && 0 <= 0 < store[key].len() && 0 <= j < store[key][0].transclusions.len());
                        assert((store[key][0].transclusions[j as int].0 as int) < names.len());
                    }
                    let ghost t_before = t;
                    add_graph_edge(&mut t, key, target);
                    proof {
                        assert(graph_edges(t).contains((key, target)));
                        assert forall|x: u32| #[trigger] graph_nodes(t).contains(x) implies (((x as int) <= k && is_single(store, x))
                            || exists|a: u32| graph_edges(t).contains((a, x))) by {
                            if x != key && x != target {
                                assert(graph_nodes(t_before).contains(x));
                                if exists|a: u32| graph_edges(t_before).contains((a, x)) {
                                    let a = choose|a: u32| graph_edges(t_before).contains((a, x));
                                    assert(graph_edges(t).contains((a, x)));
                                }
                            }
                        }
                        assert forall|a: u32, b: u32|
                            #[trigger] graph_edges(t).contains((a, b)) <==> (((a as int) < k && store_transclusions(store).contains((a, b)))
                                || (a == key && exists|q: int| 0 <= q < j + 1 && entry.transclusions@[q] == NodeId(b))) by {
                            if a == key && b == target {
                                assert(entry.transclusions@[j as int] == NodeId(b));
                            }
                            if a == key && exists|q: int| 0 <= q < j + 1 && entry.transclusions@[q] == NodeId(b) {
                                let q = choose|q: int| 0 <= q < j + 1 && entry.transclusions@[q] == NodeId(b);
                                if q < j {
                                    assert(exists|q2: int| 0 <= q2 < j && entry.transclusions@[q2] == NodeId(b));
                                }
                            }
                        }
                    }
                    j = j + 1;
                }
                proof {
                    assert forall|a: u32, b: u32|
                        #[trigger] graph_edges(t).contains((a, b)) <==> ((a as int) < k + 1 && store_transclusions(store).contains((a, b))) by {
                        if a == key {
                            if store_transclusions(store).contains((a, b)) {
                                let q = choose|q: int| 0 <= q < entry.transclusions@.len() && entry.transclusions@[q] == NodeId(b);
                            }
                            if exists|q: int| 0 <= q < entry.transclusions@.len() && entry.transclusions@[q] == NodeId(b) {
                                let q = choose|q: int| 0 <= q < entry.transclusions@.len() && entry.transclusions@[q] == NodeId(b);
                                assert(store[key][0].transclusions.contains(NodeId(b)));
                            }
                        }
                    }
                }
                let mut j: usize = 0;
                while j < entry.links.len()
                    invariant
                        self.wf(),
                        store == self.store(),
                        k < n,
                        key == k,
                        is_single(store, key),
                        store[key][0] == entry@,
                        j <= entry.links@.len(),
                        graph_nodes(t).contains(key),
                        forall|x: u32| #[trigger] graph_nodes(t).contains(x) ==> (x as int) < n,
                        forall|x: u32| (x as int) < k && is_single(store, x) ==> #[trigger] graph_nodes(t).contains(x),
                        forall|x: u32| #[trigger] graph_nodes(t).contains(x) ==> (((x as int) <= k && is_single(store, x))
                            || exists|a: u32| graph_edges(t).contains((a, x))),
                        forall|a: u32, b: u32|
                            #[trigger] graph_edges(t).contains((a, b)) ==> graph_nodes(t).contains(a) && graph_nodes(t).contains(b),
                        forall|a: u32, b: u32|
                            #[trigger] graph_edges(t).contains((a, b)) <==> ((a as int) < k + 1 && store_transclusions(store).contains((a, b))),
                        forall|a: u32, b: u32|
                            #[trigger] graph_edges(l).contains((a, b)) <==> (((a as int) < k && store_links(store).contains((a, b)))
                                || (a == key && exists|q: int| 0 <= q < j && entry.links@[q] == NodeId(b))),
                    decreases entry.links@.len() - j,
                {
                    let target = entry.links[j].0;
                    add_graph_edge(&mut l, key, target);
                    proof {
                        assert forall|a: u32, b: u32|
                            #[trigger] graph_edges(l).contains((a, b)) <==> (((a as int) < k && store_links(store).contains((a, b)))
                                || (a == key && exists|q: int| 0 <= q < j + 1 && entry.links@[q] == NodeId(b))) by {
                            if a == key && b == target {
                                assert(entry.links@[j as int] == NodeId(b));
                            }
                            if a == key && exists|q: int| 0 <= q < j + 1 && entry.links@[q] == NodeId(b) {
                                let q = choose|q: int| 0 <= q < j + 1 && entry.links@[q] == NodeId(b);
                                if q < j {
                                    assert(exists|q2: int| 0 <= q2 < j && entry.links@[q2] == NodeId(b));
                                }
                            }
                        }
                    }
                    j = j + 1;
                }
                proof {
                    assert forall|a: u32, b: u32|
                        #[trigger] graph_edges(l).contains((a, b)) <==> ((a as int) < k + 1 && store_links(store).contains((a, b))) by {
                        if a == key {
                            if store_links(store).contains((a, b)) {
                                let q = choose|q: int| 0 <= q < entry.links@.len() && entry.links@[q] == NodeId(b);
                            }
                            if exists|q: int| 0 <= q < entry.links@.len() && entry.links@[q] == NodeId(b) {
                                let q = choose|q: int| 0 <= q < entry.links@.len() && entry.links@[q] == NodeId(b);
                                assert(store[key][0].links.contains(NodeId(b)));
                            }
                        }
                    }
                }
            } else {
                proof {
                    assert forall|a: u32, b: u32|
                        #[trigger] graph_edges(t).contains((a, b)) <==> ((a as int) < k + 1 && store_transclusions(store).contains((a, b))) by {}
                    assert forall|a: u32, b: u32|
                        #[trigger] graph_edges(l).contains((a, b)) <==> ((a as int) < k + 1 && store_links(store).contains((a, b))) by {}
                }
            }
            single.push(one);
            proof {
                assert(single@ =~= singles(store, (k + 1) as nat));
            }
            k = k + 1;
        }
        proof {
            assert forall|a: u32, b: u32| #[trigger] store_transclusions(store).contains((a, b)) implies (a as int) < n by {
                assert(store.contains_key(a));
            }
            assert forall|a: u32, b: u32| #[trigger] store_links(store).contains((a, b)) implies (a as int) < n && (b as int) < n by {
                assert(store.contains_key(a));
                let q = choose|q: int| 0 <= q < store[a][0].links.len() && store[a][0].links[q] == NodeId(b);
                assert((store[a][0].links[q].0 as int) < names.len());
            }
            assert forall|e: (u32, u32)| graph_edges(t).contains(e) <==> store_transclusions(store).contains(e) by {
                let (a, b) = e;
                assert(graph_edges(t).contains((a, b)) <==> ((a as int) < n && store_transclusions(store).contains((a, b))));
            }
            assert forall|e: (u32, u32)| graph_edges(l).contains(e) <==> store_links(store).contains(e) by {
                let (a, b) = e;
                assert(graph_edges(l).contains((a, b)) <==> ((a as int) < n && store_links(store).contains((a, b))));
            }
            assert(graph_edges(t) =~= store_transclusions(store));
            assert(graph_edges(l) =~= store_links(store));
            assert forall|x: u32| graph_nodes(t).contains(x) <==> store_graph_nodes(store, n as nat).contains(x) by {
                if graph_nodes(t).contains(x) && !((x as int) < n && is_single(store, x)) {
                    let a = choose|a: u32| graph_edges(t).contains((a, x));
                    assert(store_transclusions(store).contains((a, x)));
                }
                if store_graph_nodes(store, n as nat).contains(x) && !((x as int) < n && is_single(store, x)) {
                    let a = choose|a: u32| #[trigger] store_transclusions(store).contains((a, x));
                    assert(graph_edges(t).contains((a, x)));
                }
            }
            assert(graph_nodes(t) =~= store_graph_nodes(store, n as nat));
            assert forall|a: u32, b: u32| #[trigger] graph_edges(t).contains((a, b)) implies single@[a as int] by {
                assert(store_transclusions(store).contains((a, b)));
            }
            assert forall|a: u32, b: u32| #[trigger] graph_edges(l).contains((a, b)) implies single@[a as int] by {
                assert(store_links(store).contains((a, b)));
            }
            assert forall|x: u32| (x as int) < single@.len() && #[trigger] single@[x as int] implies graph_nodes(t).contains(x) by {
                assert(is_single(store, x));
            }
        }
        (t, l, single)
    }
}


/// What one processing run hands to rendering: the nodes to render, in
/// order, and the names of the pages that are no longer produced.
pub struct RenderPlan {
    pub items: Vec<RenderItem>,
    pub deletes: Vec<String>,
}

/// The nodes that are rendered after processing the store.
pub open spec fn rendered_nodes(store: Map<u32, Seq<EntryView>>, n: nat) -> Set<u32> {
    Set::new(|k: u32| renderable(store_transclusions(store), singles(store, n), k))
}

/// What processing a changed store decides, from the compiler `before` to
/// the compiler `after`: `items` is the render plan of the store (see
/// [`plan_matches`]), the produced pages become the renderable nodes,
/// `deletes` names, in handle order, the nodes whose pages were produced and
/// are no longer rendered, and the diagnostics are, by file, those of the
/// duplicate identifiers, the dangling transclusions, the dangling links and
/// the transclusion cycles.
pub open spec fn plan_outcome<B, M, D>(
    before: Compiler<B, M, D>,
    after: Compiler<B, M, D>,
    items: Seq<RenderItem>,
    deletes: Seq<Seq<char>>,
) -> bool {
    let store = before.store();
    let n = before.names().len();
    &&& plan_matches(
        items,
        store_transclusions(store),
        store_links(store),
        singles(store, n),
        before.dirty(),
        before.removed(),
        before.backmatters(),
    )
    &&& after.outputs() == rendered_nodes(store, n)
    &&& deletes == Seq::new(n, |k: int| k).filter(
        |k: int| before.outputs().contains(k as u32) && !rendered_nodes(store, n).contains(k as u32),
    ).map_values(|k: int| before.names()[k])
    &&& exists|ss: Seq<Vec<u32>>, msgs: Seq<Seq<char>>|
        is_scc_order(store_graph_nodes(store, n), store_transclusions(store), ss) && cycle_messages_ok(
            store_transclusions(store),
            ss,
            before.names(),
            msgs,
        ) && after.process_diagnostics_map() == grouped(
            duplicate_diagnostics_upto(store, before.names(), n) + dangling_diagnostics_upto(
                store,
                before.names(),
                n,
                false,
            ) + dangling_diagnostics_upto(store, before.names(), n, true) + cycle_diagnostics_upto(
                store_transclusions(store),
                ss,
                store,
                msgs,
                ss.len(),
            ),
        )
}

impl<B, M, D> Compiler<B, M, D> {
    /// The nodes whose pages the last processing produced.
    pub closed spec fn outputs(&self) -> Set<u32> {
        self.outputs@
    }

    /// Every node whose page was produced has a name.
    pub proof fn lemma_outputs_named(&self)
        requires
            self.wf(),
        ensures
            forall|k: u32| #[trigger] self.outputs().contains(k) ==> (k as int) < self.names().len(),
    {
    }

    /// The backmatter recorded for each node.
    pub closed spec fn backmatters(&self) -> Map<u32, Backmatter> {
        self.backmatters@
    }

    /// The diagnostics of the last processing, by file.
    pub closed spec fn process_diagnostics_map(&self) -> Map<FileKey, Seq<DiagnosticView>> {
        Map::new(
            |f: FileKey| self.process_diagnostics@.contains_key(f),
            |f: FileKey| self.process_diagnostics@[f]@.map_values(|d: Diagnostic| d@),
        )
    }

    /// Decides what to render after the changes since the last processing.
    ///
    /// With no node changed or removed, nothing is to be done. Otherwise the
    /// plan lists, each once and after the nodes it transcludes, every
    /// renderable node (defined once and reaching no transclusion cycle)
    /// whose body is affected or whose backmatter is stale; the pages of
    /// nodes that are no longer rendered are to be deleted. The produced
    /// pages become the renderable nodes, and no node is left changed or
    /// removed.
    pub fn plan(&mut self) -> (plan: RenderPlan)
        requires
            old(self).wf(),
        ensures
            final(self).wf(),
            final(self).store() == old(self).store(),
            final(self).names() == old(self).names(),
            final(self).file_nodes() == old(self).file_nodes(),
            final(self).compile_diagnostics_map() == old(self).compile_diagnostics_map(),
            final(self).dirty() == Set::<u32>::empty(),
            final(self).removed() == Set::<u32>::empty(),
            final(self).rendered_bodies() == old(self).rendered_bodies(),
            final(self).rendered_backmatters() == old(self).rendered_backmatters(),
            old(self).dirty().is_empty() && old(self).removed().is_empty() ==> {
                &&& plan.items@.len() == 0
                &&& plan.deletes@.len() == 0
                &&& final(self).outputs() == old(self).outputs()
                &&& final(self).backmatters() == old(self).backmatters()
                &&& final(self).process_diagnostics_map() == old(self).process_diagnostics_map()
            },
            !(old(self).dirty().is_empty() && old(self).removed().is_empty()) ==> plan_outcome(
                *old(self),
                *final(self),
                plan.items@,
                plan.deletes@.map_values(|d: String| d@),
            ),
    {
        let ghost orig = *self;
        if self.dirty.is_empty() && self.removed.is_empty() {
            proof {
                rendering::lemma_same_rendered(orig, *self);
            }
            return RenderPlan { items: Vec::new(), deletes: Vec::new() };
        }
        proof {
            if self.dirty@.is_empty() && self.removed@.is_empty() {
                assert(self.dirty@ =~= Set::<u32>::empty());
                assert(self.removed@ =~= Set::<u32>::empty());
            }
        }
        let ghost store = orig.store();
        let ghost n = orig.names().len();
        let (t, l, single) = self.build_graphs();
        let sccs = strongly_connected_components(&t);
        let mut flat = self.duplicate_diagnostics();
        let mut dangling_t = self.dangling_diagnostics(false);
        let mut dangling_l = self.dangling_diagnostics(true);
        let mut cycles = self.cycle_diagnostics(&t, &l, &single, &sccs);
        let ghost f0 = flat@;
        let ghost f1 = dangling_t@;
        let ghost f2 = dangling_l@;
        let ghost f3 = cycles@;
        flat.append(&mut dangling_t);
        flat.append(&mut dangling_l);
        flat.append(&mut cycles);
        proof {
            assert(flat@ == f0 + f1 + f2 + f3);
            assert(flat_view(flat@) =~= flat_view(f0) + flat_view(f1) + flat_view(f2) + flat_view(f3));
        }
        self.process_diagnostics = group_by_file(flat);
        let (items, rendered) = plan_from_components(
            &t,
            &l,
            &single,
            &self.dirty,
            &self.removed,
            &mut self.backmatters,
            &sccs,
        );
        let ghost wanted = Seq::new(n, |k: int| k).filter(
            |k: int| orig.outputs().contains(k as u32) && !rendered_nodes(store, n).contains(k as u32),
        );
        let n_names = self.interner.len();
        let mut deletes: Vec<String> = Vec::new();
        let mut outputs: HashSet<u32> = HashSet::new();
        let mut k: usize = 0;
        proof {
            assert(Seq::new(0, |k: int| k).filter(
                |k: int| orig.outputs().contains(k as u32) && !rendered_nodes(store, n).contains(k as u32),
            ) =~= Seq::<int>::empty());
        }
        while k < n_names
            invariant
                n_names == n,
                n == orig.names().len(),
                orig.names() == orig.interner@,
                n <= u32::MAX as nat + 1,
                k <= n_names,
                rendered@.len() == n,
                self.interner == orig.interner,
                self.outputs == orig.outputs,
                self.interner.wf(),
                forall|x: u32| (x as int) < n ==> #[trigger] rendered@[x as int] == renderable(
                    store_transclusions(store),
                    singles(store, n),
                    x,
                ),
                forall|x: u32| #[trigger] outputs@.contains(x) <==> ((x as int) < k && rendered@[x as int]),
                deletes@.map_values(|d: String| d@) == Seq::new(k as nat, |q: int| q).filter(
                    |q: int| orig.outputs().contains(q as u32) && !rendered_nodes(store, n).contains(q as u32),
                ).map_values(|q: int| orig.names()[q]),
            decreases n_names - k,
        {
            proof {
                orig.interner.lemma_distinct_names();
            }
            let key = k as u32;
            let ghost before = deletes@.map_values(|d: String| d@);
            let ghost prefix = Seq::new(k as nat, |q: int| q);
            let ghost next = Seq::new((k + 1) as nat, |q: int| q);
            let ghost keep = |q: int| orig.outputs().contains(q as u32) && !rendered_nodes(store, n).contains(q as u32);
            proof {
                assert(next =~= prefix.push(k as int));
                assert(next.drop_last() =~= prefix);
                reveal(Seq::filter);
                assert(next.filter(keep) == if keep(k as int) {
                    prefix.filter(keep).push(k as int)
                } else {
                    prefix.filter(keep)
                });
                assert(rendered_nodes(store, n).contains(key) == rendered@[k as int]);
            }
            if self.outputs.contains(&key) && !rendered[k] {
                proof {
                    assert(orig.names().len() == n);
                }
                let name = self.interner.name(NodeId(key));
                deletes.push(name.to_owned());
                proof {
                    assert(deletes@.map_values(|d: String| d@) =~= before.push(orig.names()[k as int]));
                }
            } else {
                proof {
                    assert(deletes@.map_values(|d: String| d@) =~= before);
                }
            }
            if rendered[k] {
                outputs.insert(key);
            }
            k = k + 1;
        }
        proof {
            assert(outputs@ =~= rendered_nodes(store, n)) by {
                assert forall|x: u32| outputs@.contains(x) <==> rendered_nodes(store, n).contains(x) by {
                    if rendered_nodes(store, n).contains(x) {
                        assert(singles(store, n).len() == n);
                    }
                }
            }
        }
        self.outputs = outputs;
        self.dirty = HashSet::new();
        self.removed = HashSet::new();
        proof {
            assert(self.store() == orig.store());
            assert(self.file_nodes() == orig.file_nodes());
            assert(self.compile_diagnostics_map() == orig.compile_diagnostics_map());
            assert forall|x: u32| #[trigger] self.outputs@.contains(x) implies (x as int) < self.names().len() by {
                assert(rendered_nodes(store, n).contains(x));
                assert(singles(store, n).len() == n);
            }
            lemma_backmatter_members_bounded(t, l, single@, orig.backmatters(), self.backmatters@);
            assert(self.dirty@ =~= Set::<u32>::empty());
            assert(self.removed@ =~= Set::<u32>::empty());
            let msgs = choose|msgs: Seq<Seq<char>>|
                cycle_messages_ok(graph_edges(t), sccs@, orig.names(), msgs) && flat_view(f3)
                    == cycle_diagnostics_upto(graph_edges(t), sccs@, store, msgs, sccs@.len());
            assert(self.process_diagnostics_map() =~= grouped(
                duplicate_diagnostics_upto(store, orig.names(), n) + dangling_diagnostics_upto(store, orig.names(), n, false)
                    + dangling_diagnostics_upto(store, orig.names(), n, true) + cycle_diagnostics_upto(
                    store_transclusions(store),
                    sccs@,
                    store,
                    msgs,
                    sccs@.len(),
                ),
            ));
        }
        proof {
            rendering::lemma_same_rendered(orig, *self);
        }
        RenderPlan { items, deletes }
    }
}


/// The duplicate-identifier diagnostics of the nodes below `k`: for each
/// node with several entries, in handle order, an error for the file of
/// each entry.
pub open spec fn duplicate_diagnostics_upto(
    store: Map<u32, Seq<EntryView>>,
    names: Seq<Seq<char>>,
    k: nat,
) -> Seq<(FileKey, DiagnosticView)>
    decreases k,
{
    if k == 0 {
        Seq::empty()
    } else {
        let prev = duplicate_diagnostics_upto(store, names, (k - 1) as nat);
        let key = (k - 1) as u32;
        if store.contains_key(key) && store[key].len() > 1 {
            prev + store[key].map_values(
                |e: EntryView|
                    (
                        e.file_id,
                        DiagnosticView {
                            severity: Severity::Error,
                            message: duplicate_message(names[k - 1]),
                        },
                    ),
            )
        } else {
            prev
        }
    }
}

/// The handles in `ids`, each once, in order of first occurrence.
pub open spec fn distinct_ids(ids: Seq<NodeId>) -> Seq<u32>
    decreases ids.len(),
{
    if ids.len() == 0 {
        Seq::empty()
    } else {
        let d = distinct_ids(ids.drop_last());
        if d.contains(ids.last().0) {
            d
        } else {
            d.push(ids.last().0)
        }
    }
}

/// The message about a target that is not defined once.
pub open spec fn dangling_message(link: bool, name: Seq<char>) -> Seq<char> {
    if link {
        dangling_link_message(name)
    } else {
        dangling_transclusion_message(name)
    }
}

/// A warning in `file` for each of `targets` that is not defined once.
pub open spec fn dangling_for(
    targets: Seq<u32>,
    store: Map<u32, Seq<EntryView>>,
    names: Seq<Seq<char>>,
    file: FileKey,
    link: bool,
) -> Seq<(FileKey, DiagnosticView)>
    decreases targets.len(),
{
    if targets.len() == 0 {
        Seq::empty()
    } else {
        let prev = dangling_for(targets.drop_last(), store, names, file, link);
        let t = targets.last();
        if is_single(store, t) {
            prev
        } else {
            prev.push(
                (
                    file,
                    DiagnosticView {
                        severity: Severity::Warning,
                        message: dangling_message(link, names[t as int]),
                    },
                ),
            )
        }
    }
}

/// The targets of an entry: its links or its transclusions.
pub open spec fn targets_of(e: EntryView, link: bool) -> Seq<NodeId> {
    if link {
        e.links
    } else {
        e.transclusions
    }
}

/// The dangling-target diagnostics of the nodes below `k` defined once, in
/// handle order: for each, its distinct targets that are not defined once.
pub open spec fn dangling_diagnostics_upto(
    store: Map<u32, Seq<EntryView>>,
    names: Seq<Seq<char>>,
    k: nat,
    link: bool,
) -> Seq<(FileKey, DiagnosticView)>
    decreases k,
{
    if k == 0 {
        Seq::empty()
    } else {
        let prev = dangling_diagnostics_upto(store, names, (k - 1) as nat, link);
        let key = (k - 1) as u32;
        if is_single(store, key) {
            prev + dangling_for(
                distinct_ids(targets_of(store[key][0], link)),
                store,
                names,
                store[key][0].file_id,
                link,
            )
        } else {
            prev
        }
    }
}

/// The handles in `ids`, each once, in order of first occurrence.
fn distinct(ids: &Vec<NodeId>) -> (d: Vec<u32>)
    ensures
        d@ == distinct_ids(ids@),
{
    let mut d: Vec<u32> = Vec::new();
    let mut i: usize = 0;
    while i < ids.len()
        invariant
            i <= ids@.len(),
            d@ == distinct_ids(ids@.take(i as int)),
        decreases ids@.len() - i,
    {
        let x = ids[i].0;
        let mut found = false;
        let mut j: usize = 0;
        while j < d.len()
            invariant
                j <= d@.len(),
                found == exists|q: int| 0 <= q < j && d@[q] == x,
            decreases d@.len() - j,
        {
            if d[j] == x {
                found = true;
            }
            j = j + 1;
        }
        proof {
            let next = ids@.take(i + 1);
            assert(next.drop_last() =~= ids@.take(i as int));
            assert(next.last() == ids@[i as int]);
            if found {
                let q = choose|q: int| 0 <= q < j && d@[q] == x;
                assert(d@.contains(x));
            }
        }
        if !found {
            d.push(x);
        }
        i = i + 1;
    }
    proof {
        assert(ids@.take(ids@.len() as int) =~= ids@);
    }
    d
}

impl<B, M, D> Compiler<B, M, D> {
    /// An error for each entry of each node defined in several files.
    fn duplicate_diagnostics(&self) -> (out: Vec<(FileKey, Diagnostic)>)
        requires
            self.wf(),
        ensures
            flat_view(out@) == duplicate_diagnostics_upto(self.store(), self.names(), self.names().len()),
    {
        let ghost store = self.store();
        let ghost names = self.names();
        let n = self.interner.len();
        proof {
            self.interner.lemma_distinct_names();
        }
        let mut out: Vec<(FileKey, Diagnostic)> = Vec::new();
        let mut k: usize = 0;
        while k < n
            invariant
                self.wf(),
                store == self.store(),
                names == self.names(),
                n == names.len(),
                n <= u32::MAX as nat + 1,
                k <= n,
                flat_view(out@) == duplicate_diagnostics_upto(store, names, k as nat),
            decreases n - k,
        {
            proof {
                self.interner.lemma_distinct_names();
            }
            let key = k as u32;
            let ghost prev = out@;
            match self.nodes.get(&key) {
                Some(entries) => {
                    if entries.len() > 1 {
                        let name = self.interner.name(NodeId(key));
                        let mut j: usize = 0;
                        while j < entries.len()
                            invariant
                                self.wf(),
                                store == self.store(),
                                names == self.names(),
                                k < n,
                                n == names.len(),
                                key == k,
                                self.nodes@.contains_key(key),
                                entries == self.nodes@[key],
                                name@ == names[k as int],
                                j <= entries@.len(),
                                flat_view(out@) == flat_view(prev) + entries@.take(j as int).map_values(
                                    |e: NodeEntry|
                                        (
                                            e.file_id,
                                            DiagnosticView {
                                                severity: Severity::Error,
                                                message: duplicate_message(names[k as int]),
                                            },
                                        ),
                                ),
                            decreases entries@.len() - j,
                        {
                            let message = duplicate_node_identifier_message(name);
                            let ghost before = out@;
                            out.push((entries[j].file_id, Diagnostic { severity: Severity::Error, message }));
                            proof {
                                assert(flat_view(out@) =~= flat_view(before).push((entries@[j as int].file_id, DiagnosticView {
                                    severity: Severity::Error,
                                    message: duplicate_message(names[k as int]),
                                })));
                                assert(entries@.take(j + 1) =~= entries@.take(j as int).push(entries@[j as int]));
                                assert(flat_view(out@) =~= flat_view(prev) + entries@.take(j + 1).map_values(
                                    |e: NodeEntry|
                                        (
                                            e.file_id,
                                            DiagnosticView {
                                                severity: Severity::Error,
                                                message: duplicate_message(names[k as int]),
                                            },
                                        ),
                                ));
                            }
                            j = j + 1;
                        }
                        proof {
                            assert(entries@.take(entries@.len() as int) =~= entries@);
                            assert(store[key] == entries@.map_values(|e: NodeEntry| e@));
                            assert(entries@.map_values(
                                |e: NodeEntry|
                                    (
                                        e.file_id,
                                        DiagnosticView {
                                            severity: Severity::Error,
                                            message: duplicate_message(names[k as int]),
                                        },
                                    ),
                            ) =~= store[key].map_values(
                                |e: EntryView|
                                    (
                                        e.file_id,
                                        DiagnosticView {
                                            severity: Severity::Error,
                                            message: duplicate_message(names[k as int]),
                                        },
                                    ),
                            ));
                        }
                    } else {
                        proof {
                            assert(store[key].len() == entries@.len());
                        }
                    }
                },
                None => {},
            }
            k = k + 1;
        }
        out
    }

    /// A warning, in its file, for each distinct target of a node defined
    /// once that is not itself defined once: its links when `link` holds,
    /// else its transclusions.
    fn dangling_diagnostics(&self, link: bool) -> (out: Vec<(FileKey, Diagnostic)>)
        requires
            self.wf(),
        ensures
            flat_view(out@) == dangling_diagnostics_upto(self.store(), self.names(), self.names().len(), link),
    {
        let ghost store = self.store();
        let ghost names = self.names();
        let n = self.interner.len();
        proof {
            self.interner.lemma_distinct_names();
        }
        let mut out: Vec<(FileKey, Diagnostic)> = Vec::new();
        let mut k: usize = 0;
        while k < n
            invariant
                self.wf(),
                store == self.store(),
                names == self.names(),
                n == names.len(),
                n <= u32::MAX as nat + 1,
                k <= n,
                flat_view(out@) == dangling_diagnostics_upto(store, names, k as nat, link),
            decreases n - k,
        {
            let key = k as u32;
            let ghost prev = out@;
            let one = match self.nodes.get(&key) {
                Some(entries) => entries.len() == 1,
                None => false,
            };
            if one {
                let entry = &self.nodes.get(&key).unwrap()[0];
                proof {
                    assert(store[key][0] == entry@);
                }
                let targets = if link {
                    distinct(&entry.links)
                } else {
                    distinct(&entry.transclusions)
                };
                let file = entry.file_id;
                let mut j: usize = 0;
                while j < targets.len()
                    invariant
                        self.wf(),
                        store == self.store(),
                        names == self.names(),
                        k < n,
                        n == names.len(),
                        key == k,
                        is_single(store, key),
                        store[key][0] == entry@,
                        file == entry.file_id,
                        targets@ == distinct_ids(targets_of(entry@, link)),
                        j <= targets@.len(),
                        flat_view(out@) == flat_view(prev) + dangling_for(targets@.take(j as int), store, names, file, link),
                    decreases targets@.len() - j,
                {
                    let t = targets[j];
                    proof {
                        lemma_distinct_ids_members(targets_of(entry@, link));
                        assert(targets@.contains(t));
                        let q = choose|q: int| 0 <= q < targets_of(entry@, link).len() && targets_of(entry@, link)[q].0 == t;
                        assert(store.contains_key(key) && 0 < store[key].len());
                        if link {
                            assert((store[key][0].links[q].0 as int) < names.len());
                        } else {
                            assert((store[key][0].transclusions[q].0 as int) < names.len());
                        }
                        let next = targets@.take(j + 1);
                        assert(next.drop_last() =~= targets@.take(j as int));
                        assert(next.last() == t);
                    }
                    let t_one = match self.nodes.get(&t) {
                        Some(entries) => entries.len() == 1,
                        None => false,
                    };
                    proof {
                        assert(t_one == is_single(store, t)) by {
                            if self.nodes@.contains_key(t) {
                                assert(store[t].len() == self.nodes@[t]@.len());
                            }
                        }
                    }
                    if !t_one {
                        proof {
                            self.interner.lemma_distinct_names();
                        }
                        let name = self.interner.name(NodeId(t));
                        let message = if link {
                            dangling_link_text(name)
                        } else {
                            dangling_transclusion_text(name)
                        };
                        let ghost before = out@;
                        out.push((file, Diagnostic { severity: Severity::Warning, message }));
                        proof {
                            assert(flat_view(out@) =~= flat_view(before).push((file, DiagnosticView {
                                severity: Severity::Warning,
                                message: dangling_message(link, names[t as int]),
                            })));
                            assert(flat_view(out@) =~= flat_view(prev) + dangling_for(targets@.take(j + 1), store, names, file, link));
                        }
                    }
                    j = j + 1;
                }
                proof {
                    assert(targets@.take(targets@.len() as int) =~= targets@);
                }
            } else {
                proof {
                    assert(one == is_single(store, key)) by {
                        if self.nodes@.contains_key(key) {
                            assert(store[key].len() == self.nodes@[key]@.len());
                        }
                    }
                }
            }
            proof {
                assert(flat_view(out@) =~= dangling_diagnostics_upto(store, names, (k + 1) as nat, link));
            }
            k = k + 1;
        }
        out
    }
}

/// Every member of the distinct handles comes from the list.
proof fn lemma_distinct_ids_members(ids: Seq<NodeId>)
    ensures
        forall|x: u32| distinct_ids(ids).contains(x) ==> exists|q: int| 0 <= q < ids.len() && ids[q].0 == x,
    decreases ids.len(),
{
    if ids.len() > 0 {
        lemma_distinct_ids_members(ids.drop_last());
        assert forall|x: u32| distinct_ids(ids).contains(x) implies exists|q: int| 0 <= q < ids.len() && ids[q].0 == x by {
            let d = distinct_ids(ids.drop_last());
            if d.contains(x) {
                let q = choose|q: int| 0 <= q < ids.drop_last().len() && ids.drop_last()[q].0 == x;
                assert(ids[q] == ids.drop_last()[q]);
            } else {
                assert(ids[ids.len() - 1].0 == x);
            }
        }
    }
}


/// Component `i` is a cycle: it has several members, or its member
/// transcludes itself.
pub open spec fn cyclic_component(te: Set<(u32, u32)>, ss: Seq<Vec<u32>>, i: int) -> bool {
    ss[i]@.len() > 1 || te.contains((ss[i]@[0], ss[i]@[0]))
}

/// The files defining `members`, each once, in order of first occurrence.
pub open spec fn distinct_files(members: Seq<u32>, store: Map<u32, Seq<EntryView>>) -> Seq<FileKey>
    decreases members.len(),
{
    if members.len() == 0 {
        Seq::empty()
    } else {
        let d = distinct_files(members.drop_last(), store);
        let f = store[members.last()][0].file_id;
        if d.contains(f) {
            d
        } else {
            d.push(f)
        }
    }
}

/// The names of `members`.
pub open spec fn member_names(members: Seq<u32>, names: Seq<Seq<char>>) -> Seq<Seq<char>> {
    members.map_values(|m: u32| names[m as int])
}

/// `msg` is the cycle message listing the names of `members` in order.
pub open spec fn is_cycle_message(msg: Seq<char>, members: Seq<u32>, names: Seq<Seq<char>>) -> bool {
    exists|sorted: Seq<Seq<char>>|
        sorted.to_multiset() == member_names(members, names).to_multiset() && is_sorted(sorted) && msg
            == cycle_message(sorted)
}

/// `msgs[i]` is, for each cyclic component `i`, the cycle message listing
/// its member names in order.
pub open spec fn cycle_messages_ok(
    te: Set<(u32, u32)>,
    ss: Seq<Vec<u32>>,
    names: Seq<Seq<char>>,
    msgs: Seq<Seq<char>>,
) -> bool {
    &&& msgs.len() == ss.len()
    &&& forall|i: int|
        0 <= i < ss.len() && cyclic_component(te, ss, i) ==> is_cycle_message(#[trigger] msgs[i], ss[i]@, names)
}

/// The cycle diagnostics of the first `i` components: for each cyclic one,
/// an error with its message for each file defining a member.
pub open spec fn cycle_diagnostics_upto(
    te: Set<(u32, u32)>,
    ss: Seq<Vec<u32>>,
    store: Map<u32, Seq<EntryView>>,
    msgs: Seq<Seq<char>>,
    i: nat,
) -> Seq<(FileKey, DiagnosticView)>
    decreases i,
{
    if i == 0 {
        Seq::empty()
    } else {
        let prev = cycle_diagnostics_upto(te, ss, store, msgs, (i - 1) as nat);
        if cyclic_component(te, ss, i - 1) {
            prev + distinct_files(ss[i - 1]@, store).map_values(
                |f: FileKey| (f, DiagnosticView { severity: Severity::Error, message: msgs[i - 1] }),
            )
        } else {
            prev
        }
    }
}

impl<B, M, D> Compiler<B, M, D> {
    /// An error, for each file defining a member, for each transclusion
    /// cycle among the components `sccs`, listing the member names in order.
    #[verifier::rlimit(100)]
    #[verifier::spinoff_prover]
    fn cycle_diagnostics(
        &self,
        t: &DiGraphMap<u32, ()>,
        l: &DiGraphMap<u32, ()>,
        single: &Vec<bool>,
        sccs: &Vec<Vec<u32>>,
    ) -> (out: Vec<(FileKey, Diagnostic)>)
        requires
            self.wf(),
            single@ == singles(self.store(), self.names().len()),
            graphs_wf(*t, *l, single@),
            graph_edges(*t) == store_transclusions(self.store()),
            is_scc_order(graph_nodes(*t), graph_edges(*t), sccs@),
        ensures
            exists|msgs: Seq<Seq<char>>|
                cycle_messages_ok(graph_edges(*t), sccs@, self.names(), msgs) && flat_view(out@)
                    == cycle_diagnostics_upto(graph_edges(*t), sccs@, self.store(), msgs, sccs@.len()),
    {
        let ghost store = self.store();
        let ghost names = self.names();
        let ghost te = graph_edges(*t);
        let ghost nodes = graph_nodes(*t);
        let ghost ss = sccs@;
        let mut out: Vec<(FileKey, Diagnostic)> = Vec::new();
        let ghost mut msgs: Seq<Seq<char>> = Seq::empty();
        let mut i: usize = 0;
        while i < sccs.len()
            invariant
                self.wf(),
                store == self.store(),
                names == self.names(),
                te == graph_edges(*t),
                nodes == graph_nodes(*t),
                ss == sccs@,
                single@ == singles(store, names.len()),
                graphs_wf(*t, *l, single@),
                is_scc_order(nodes, te, ss),
                i <= ss.len(),
                msgs.len() == i,
                forall|q: int| 0 <= q < i && cyclic_component(te, ss, q) ==> is_cycle_message(#[trigger] msgs[q], ss[q]@, names),
                flat_view(out@) == cycle_diagnostics_upto(te, ss, store, msgs, i as nat),
            decreases ss.len() - i,
        {
            let scc = &sccs[i];
            proof {
                reveal(is_scc_order);
                assert(ss[i as int]@.len() > 0);
            }
            let first = scc[0];
            let ghost old_msgs = msgs;
            if scc.len() > 1 || graph_has_edge(t, first, first) {
                proof {
                    lemma_cyclic_members_single(*t, *l, single@, store, ss, i as int);
                }
                let Ghost(msg) = self.push_cycle_diagnostics(scc, &mut out);
                proof {
                    msgs = msgs.push(msg);
                    assert(cyclic_component(te, ss, i as int));
                }
            } else {
                proof {
                    msgs = msgs.push(Seq::<char>::empty());
                }
            }
            proof {
                assert forall|q: int| 0 <= q < i + 1 && cyclic_component(te, ss, q) implies is_cycle_message(#[trigger] msgs[q], ss[q]@, names) by {
                    if q < i {
                        assert(msgs[q] == old_msgs[q]);
                    }
                }
                lemma_cycle_upto_prefix(te, ss, store, old_msgs, msgs, i as nat);
            }
            i = i + 1;
        }
        proof {
            assert(cycle_messages_ok(te, ss, names, msgs));
        }
        out
    }

    /// Pushes an error for each file defining a member of the cyclic
    /// component `scc`, with the message listing its member names in order.
    fn push_cycle_diagnostics(&self, scc: &Vec<u32>, out: &mut Vec<(FileKey, Diagnostic)>) -> (msg: Ghost<Seq<char>>)
        requires
            self.wf(),
            forall|q: int| 0 <= q < scc@.len() ==> is_single(self.store(), #[trigger] scc@[q])
                && (scc@[q] as int) < self.names().len(),
        ensures
            is_cycle_message(msg@, scc@, self.names()),
            flat_view(final(out)@) == flat_view(old(out)@) + distinct_files(scc@, self.store()).map_values(
                |f: FileKey| (f, DiagnosticView { severity: Severity::Error, message: msg@ }),
            ),
    {
        let ghost prev_out = out@;
        let (files, member_names_v) = self.component_files_and_names(scc);
        let message = cycle_text(member_names_v);
        let ghost m = message@;
        let mut r: usize = 0;
        while r < files.len()
            invariant
                r <= files@.len(),
                message@ == m,
                flat_view(out@) == flat_view(prev_out) + files@.take(r as int).map_values(
                    |f: FileKey| (f, DiagnosticView { severity: Severity::Error, message: m }),
                ),
            decreases files@.len() - r,
        {
            let ghost before = out@;
            out.push((files[r], Diagnostic { severity: Severity::Error, message: message.clone() }));
            proof {
                assert(flat_view(out@) =~= flat_view(before).push((files@[r as int], DiagnosticView {
                    severity: Severity::Error,
                    message: m,
                })));
                assert(files@.take(r + 1) =~= files@.take(r as int).push(files@[r as int]));
                assert(flat_view(out@) =~= flat_view(prev_out) + files@.take(r + 1).map_values(
                    |f: FileKey| (f, DiagnosticView { severity: Severity::Error, message: m }),
                ));
            }
            r = r + 1;
        }
        proof {
            assert(files@.take(files@.len() as int) =~= files@);
        }
        Ghost(m)
    }
}

/// The members of a cyclic component are defined once.
proof fn lemma_cyclic_members_single(
    t: DiGraphMap<u32, ()>,
    l: DiGraphMap<u32, ()>,
    single: Seq<bool>,
    store: Map<u32, Seq<EntryView>>,
    ss: Seq<Vec<u32>>,
    i: int,
)
    requires
        graphs_wf(t, l, single),
        single == singles(store, single.len()),
        is_scc_order(graph_nodes(t), graph_edges(t), ss),
        0 <= i < ss.len(),
        cyclic_component(graph_edges(t), ss, i),
    ensures
        forall|q: int| 0 <= q < ss[i]@.len() ==> is_single(store, #[trigger] ss[i]@[q]) && (ss[i]@[q] as int) < single.len(),
{
    let te = graph_edges(t);
    let nodes = graph_nodes(t);
    lemma_scc_cycles(nodes, te, ss, i);
    assert forall|q: int| 0 <= q < ss[i]@.len() implies is_single(store, #[trigger] ss[i]@[q]) && (ss[i]@[q] as int) < single.len() by {
        let m = ss[i]@[q];
        reveal(is_scc_order);
        assert(nodes.contains(ss[i]@[q]));
        assert(on_cycle(te, m));
        let w = choose|w: u32| #[trigger] te.contains((m, w)) && crate::graph::reaches(te, w, m);
        assert(te.contains((m, w)));
        assert(single[m as int]);
    }
}

impl<B, M, D> Compiler<B, M, D> {
    /// The files defining the members, each once, and the member names.
    fn component_files_and_names(&self, scc: &Vec<u32>) -> (r: (Vec<FileKey>, Vec<String>))
        requires
            self.wf(),
            forall|q: int| 0 <= q < scc@.len() ==> is_single(self.store(), #[trigger] scc@[q])
                && (scc@[q] as int) < self.names().len(),
        ensures
            r.0@ == distinct_files(scc@, self.store()),
            r.1@.map_values(|s: String| s@) == member_names(scc@, self.names()),
    {
        let ghost store = self.store();
        let ghost names = self.names();
        let mut member_names_v: Vec<String> = Vec::new();
        let mut files: Vec<FileKey> = Vec::new();
        let mut p: usize = 0;
        while p < scc.len()
            invariant
                self.wf(),
                store == self.store(),
                names == self.names(),
                forall|q: int| 0 <= q < scc@.len() ==> is_single(store, #[trigger] scc@[q]) && (scc@[q] as int) < names.len(),
                p <= scc@.len(),
                member_names_v@.map_values(|s: String| s@) == member_names(scc@.take(p as int), names),
                files@ == distinct_files(scc@.take(p as int), store),
            decreases scc@.len() - p,
        {
            let m = scc[p];
            proof {
                assert(is_single(store, scc@[p as int]));
                self.interner.lemma_distinct_names();
                let next = scc@.take(p + 1);
                assert(next.drop_last() =~= scc@.take(p as int));
                assert(next.last() == m);
            }
            let name = self.interner.name(NodeId(m));
            let ghost before_names = member_names_v@;
            let owned = name.to_owned();
            member_names_v.push(owned);
            proof {
                assert(member_names(scc@.take(p + 1), names) =~= member_names(scc@.take(p as int), names).push(names[m as int]));
                assert(member_names_v@.map_values(|s: String| s@) =~= before_names.map_values(|s: String| s@).push(owned@));
            }
            let f = self.nodes.get(&m).unwrap()[0].file_id;
            proof {
                assert(f == store[m][0].file_id);
            }
            let mut seen = false;
            let mut q: usize = 0;
            while q < files.len()
                invariant
                    q <= files@.len(),
                    seen == exists|w: int| 0 <= w < q && files@[w] == f,
                decreases files@.len() - q,
            {
                if files[q] == f {
                    seen = true;
                }
                q = q + 1;
            }
            proof {
                if seen {
                    let w = choose|w: int| 0 <= w < q && files@[w] == f;
                    assert(files@.contains(f));
                }
            }
            if !seen {
                files.push(f);
            }
            p = p + 1;
        }
        proof {
            assert(scc@.take(scc@.len() as int) =~= scc@);
        }
        (files, member_names_v)
    }
}

/// The cycle diagnostics of a prefix depend only on the messages of that
/// prefix.
proof fn lemma_cycle_upto_prefix(
    te: Set<(u32, u32)>,
    ss: Seq<Vec<u32>>,
    store: Map<u32, Seq<EntryView>>,
    a: Seq<Seq<char>>,
    b: Seq<Seq<char>>,
    i: nat,
)
    requires
        i <= a.len(),
        i <= b.len(),
        forall|q: int| 0 <= q < i ==> a[q] == b[q],
    ensures
        cycle_diagnostics_upto(te, ss, store, a, i) == cycle_diagnostics_upto(te, ss, store, b, i),
    decreases i,
{
    if i > 0 {
        lemma_cycle_upto_prefix(te, ss, store, a, b, (i - 1) as nat);
        assert(a[i - 1] == b[i - 1]);
    }
}


impl<B, M, D> Compiler<B, M, D> {
    /// The warnings and errors of each file that had any when compiled.
    pub fn compile_diagnostics(&self) -> (r: &HashMap<FileKey, (Vec<D>, Vec<D>)>)
        ensures
            forall|f: FileKey| #[trigger] r@.contains_key(f) == self.compile_diagnostics_map().contains_key(f),
            forall|f: FileKey|
                #[trigger] r@.contains_key(f) ==> (r@[f].0@, r@[f].1@) == self.compile_diagnostics_map()[f],
    {
        &self.compile_diagnostics
    }

    /// The diagnostics of the last processing, by file.
    pub fn process_diagnostics(&self) -> (r: &HashMap<FileKey, Vec<Diagnostic>>)
        ensures
            forall|f: FileKey| #[trigger] r@.contains_key(f) == self.process_diagnostics_map().contains_key(f),
            forall|f: FileKey|
                #[trigger] r@.contains_key(f) ==> r@[f]@.map_values(|d: Diagnostic| d@) == self.process_diagnostics_map()[f],
    {
        &self.process_diagnostics
    }

    /// The interned node names.
    pub fn interner(&self) -> (r: &NodeInterner)
        ensures
            r@ == self.names(),
    {
        &self.interner
    }

    /// The entries of node `id`, in the order they arrived.
    pub fn entries(&self, id: NodeId) -> (r: Option<&Vec<NodeEntry>>)
        ensures
            match r {
                Some(v) => self.store().contains_key(id.0) && v@.map_values(|e: NodeEntry| e@) == self.store()[id.0],
                None => !self.store().contains_key(id.0),
            },
    {
        self.nodes.get(&id.0)
    }

    /// Whether the page of node `id` was produced by the last processing.
    pub fn is_output(&self, id: NodeId) -> (r: bool)
        ensures
            r == self.outputs().contains(id.0),
    {
        self.outputs.contains(&id.0)
    }

    /// Whether node `id` changed since the last processing.
    pub fn is_dirty(&self, id: NodeId) -> (r: bool)
        ensures
            r == self.dirty().contains(id.0),
    {
        self.dirty.contains(&id.0)
    }

    /// Whether node `id` disappeared since the last processing.
    pub fn is_removed(&self, id: NodeId) -> (r: bool)
        ensures
            r == self.removed().contains(id.0),
    {
        self.removed.contains(&id.0)
    }
}


/// Compiling a file and then removing it leaves the node store as removing
/// it alone would: whatever a compilation of file `f` added, removing `f`
/// takes away again.
pub proof fn lemma_remove_undoes_update(
    store: Map<u32, Seq<EntryView>>,
    names: Seq<Seq<char>>,
    f: FileKey,
    outputs: Seq<NodeOutput>,
)
    requires
        forall|k: u32| #[trigger] store.contains_key(k) ==> store[k].len() > 0,
    ensures
        without_file(with_outputs(without_file(store, f), names, f, outputs), f) == without_file(store, f),
{
    let base = without_file(store, f);
    assert forall|k: u32| #[trigger] base.contains_key(k) implies !has_entry_from(base[k], f) && base[k].len() > 0 by {
        lemma_other_files_members(store[k], f);
    }
    lemma_added_entries_from(base, names, f, outputs);
    let w = with_outputs(base, names, f, outputs);
    assert forall|k: u32| #![trigger without_file(w, f).contains_key(k)] #![trigger base.contains_key(k)]
        without_file(w, f).contains_key(k) == base.contains_key(k) && (base.contains_key(k)
            ==> without_file(w, f)[k] == base[k]) by {
        if base.contains_key(k) {
            lemma_other_files_members(base[k], f);
        }
    }
    assert(without_file(w, f) =~= base);
}

/// Appending the outputs of file `f` keeps, for each node, the entries
/// from other files as they were.
proof fn lemma_added_entries_from(
    base: Map<u32, Seq<EntryView>>,
    names: Seq<Seq<char>>,
    f: FileKey,
    outputs: Seq<NodeOutput>,
)
    requires
        forall|k: u32| #[trigger] base.contains_key(k) ==> !has_entry_from(base[k], f) && base[k].len() > 0,
    ensures
        forall|k: u32| #[trigger] base.contains_key(k) ==> with_outputs(base, names, f, outputs).contains_key(k),
        forall|k: u32|
            #[trigger] with_outputs(base, names, f, outputs).contains_key(k) ==> entries_from_other_files(
                with_outputs(base, names, f, outputs)[k],
                f,
            ) == if base.contains_key(k) {
                base[k]
            } else {
                Seq::<EntryView>::empty()
            },
    decreases outputs.len(),
{
    if outputs.len() == 0 {
        assert forall|k: u32| #[trigger] base.contains_key(k) implies entries_from_other_files(base[k], f) == base[k] by {
            lemma_other_files_members(base[k], f);
        }
    } else {
        let init = outputs.drop_last();
        lemma_added_entries_from(base, names, f, init);
        let before = with_outputs(base, names, f, init);
        let key = key_of(names, outputs.last().identifier@);
        let existing = if before.contains_key(key) {
            before[key]
        } else {
            Seq::<EntryView>::empty()
        };
        let e = entry_of(names, f, outputs.last());
        assert(entries_from_other_files(existing.push(e), f) == entries_from_other_files(existing, f)) by {
            assert(existing.push(e).drop_last() =~= existing);
        }
    }
}

/// Interning names that are all present changes nothing.
pub proof fn lemma_intern_present(names: Seq<Seq<char>>, names_in: Seq<Seq<char>>)
    requires
        forall|x: Seq<char>| names_in.contains(x) ==> names.contains(x),
    ensures
        intern_all(names, names_in) == names,
    decreases names_in.len(),
{
    if names_in.len() > 0 {
        let init = names_in.drop_last();
        assert forall|x: Seq<char>| init.contains(x) implies names.contains(x) by {
            let w = choose|w: int| 0 <= w < init.len() && init[w] == x;
            assert(names_in[w] == x);
        }
        lemma_intern_present(names, init);
        assert(names_in.contains(names_in.last())) by {
            assert(names_in[names_in.len() - 1] == names_in.last());
        }
    }
}

/// Compiling a file again with the same result changes neither the names
/// nor the node store.
pub proof fn lemma_recompile_same(
    store: Map<u32, Seq<EntryView>>,
    names: Seq<Seq<char>>,
    f: FileKey,
    outputs: Seq<NodeOutput>,
)
    requires
        names.no_duplicates(),
        forall|k: u32| #[trigger] store.contains_key(k) ==> store[k].len() > 0,
    ensures
        ({
            let first_names = intern_all(names, all_output_names(outputs));
            let first = with_outputs(without_file(store, f), first_names, f, outputs);
            &&& intern_all(first_names, all_output_names(outputs)) == first_names
            &&& with_outputs(without_file(first, f), first_names, f, outputs) == first
        }),
{
    let first_names = intern_all(names, all_output_names(outputs));
    lemma_intern_all(names, all_output_names(outputs));
    lemma_intern_present(first_names, all_output_names(outputs));
    lemma_remove_undoes_update(store, first_names, f, outputs);
}


/// No node is both rendered and deleted by one processing: the planned
/// nodes are renderable, and only pages of nodes that are no longer
/// renderable are deleted.
pub proof fn lemma_planned_not_deleted(
    store: Map<u32, Seq<EntryView>>,
    n: nat,
    items: Seq<RenderItem>,
    dirty: Set<u32>,
    removed: Set<u32>,
    before: Map<u32, Backmatter>,
)
    requires
        plan_matches(items, store_transclusions(store), store_links(store), singles(store, n), dirty, removed, before),
    ensures
        forall|a: int| 0 <= a < items.len() ==> rendered_nodes(store, n).contains(#[trigger] items[a].node_id.0),
        forall|a: int, k: u32|
            0 <= a < items.len() && !#[trigger] rendered_nodes(store, n).contains(k) ==> #[trigger] items[a].node_id.0 != k,
{
    assert forall|a: int| 0 <= a < items.len() implies rendered_nodes(store, n).contains(#[trigger] items[a].node_id.0) by {
        assert(renderable(store_transclusions(store), singles(store, n), items[a].node_id.0));
    }
}


/// The nodes a recorded backmatter shows are nodes of the graphs.
proof fn lemma_backmatter_members_bounded(
    t: DiGraphMap<u32, ()>,
    l: DiGraphMap<u32, ()>,
    single: Seq<bool>,
    before: Map<u32, Backmatter>,
    after: Map<u32, Backmatter>,
)
    requires
        graphs_wf(t, l, single),
        forall|k: u32, x: u32| before.contains_key(k) && #[trigger] before[k]@.contexts.contains(x) ==> (x as int) < single.len(),
        forall|k: u32, x: u32| before.contains_key(k) && #[trigger] before[k]@.backlinks.contains(x) ==> (x as int) < single.len(),
        forall|k: u32, x: u32| before.contains_key(k) && #[trigger] before[k]@.outlinks.contains(x) ==> (x as int) < single.len(),
        forall|k: u32|
            #[trigger] renderable(graph_edges(t), single, k) ==> after.contains_key(k) && after[k]@ == crate::process::backmatter_of(
                graph_edges(t),
                graph_edges(l),
                k,
            ),
        forall|k: u32|
            !renderable(graph_edges(t), single, k) ==> (#[trigger] after.contains_key(k) == before.contains_key(k) && (
            before.contains_key(k) ==> after[k] == before[k])),
    ensures
        forall|k: u32, x: u32| after.contains_key(k) && #[trigger] after[k]@.contexts.contains(x) ==> (x as int) < single.len(),
        forall|k: u32, x: u32| after.contains_key(k) && #[trigger] after[k]@.backlinks.contains(x) ==> (x as int) < single.len(),
        forall|k: u32, x: u32| after.contains_key(k) && #[trigger] after[k]@.outlinks.contains(x) ==> (x as int) < single.len(),
{
    assert forall|k: u32, x: u32| after.contains_key(k) && #[trigger] after[k]@.contexts.contains(x) implies (x as int) < single.len() by {
        if renderable(graph_edges(t), single, k) {
            assert(graph_edges(t).contains((x, k)));
        } else {
            assert(before.contains_key(k));
        }
    }
    assert forall|k: u32, x: u32| after.contains_key(k) && #[trigger] after[k]@.backlinks.contains(x) implies (x as int) < single.len() by {
        if renderable(graph_edges(t), single, k) {
            assert(graph_edges(l).contains((x, k)));
        } else {
            assert(before.contains_key(k));
        }
    }
    assert forall|k: u32, x: u32| after.contains_key(k) && #[trigger] after[k]@.outlinks.contains(x) implies (x as int) < single.len() by {
        if renderable(graph_edges(t), single, k) {
            let m = choose|m: u32| #[trigger] crate::graph::reaches(graph_edges(t), k, m) && graph_edges(l).contains((m, x));
            assert(graph_edges(l).contains((m, x)));
        } else {
            assert(before.contains_key(k));
        }
    }
}

} // verus!
