use vstd::prelude::*;

use crate::compiler::{
    all_output_names, cycle_diagnostics_upto, cycle_messages_ok, cyclic_component,
    dangling_diagnostics_upto, dangling_for, dangling_message, distinct_files, distinct_ids,
    duplicate_diagnostics_upto, entries_from_other_files, entry_of, has_entry_from, intern_all,
    is_cycle_message, is_single, key_of, lemma_intern_all, lemma_key_stable,
    lemma_output_names_members, lemma_with_outputs_shape, member_names, output_keys, output_names,
    plan_outcome, rendered_nodes, singles, store_graph_nodes, store_transclusions, targets_of,
    with_outputs, without_file, Compiler, EntryView, NodeOutput,
};
use crate::diagnostics::{cycle_message, duplicate_message, grouped, is_sorted, DiagnosticView, Severity};
use crate::graph::{is_scc_order, is_walk, lemma_reaches_unfold, reaches};
use crate::import_graph::FileKey;
use crate::interner::NodeId;
use crate::process::{lemma_scc_cycles, on_cycle, renderable, unrenderable, RenderItem};

verus! {

// ---------------------------------------------------------------------------
// The site built from the files alone, by node name.
// ---------------------------------------------------------------------------

/// Output `i` of file `f` defines the node named `s`.
pub open spec fn defines(files: Map<FileKey, Seq<NodeOutput>>, f: FileKey, i: int, s: Seq<char>) -> bool {
    &&& files.contains_key(f)
    &&& 0 <= i < files[f].len()
    &&& files[f][i].identifier@ == s
}

/// Exactly one output, over all the files, defines the node named `s`.
pub open spec fn defined_once(files: Map<FileKey, Seq<NodeOutput>>, s: Seq<char>) -> bool {
    exists|f: FileKey, i: int|
        #[trigger] defines(files, f, i, s) && forall|g: FileKey, j: int|
            #[trigger] defines(files, g, j, s) ==> g == f && j == i
}

/// The output that defines `s`, when exactly one does.
pub open spec fn sole_definition(files: Map<FileKey, Seq<NodeOutput>>, s: Seq<char>) -> NodeOutput {
    let (f, i) = choose|f: FileKey, i: int| #[trigger] defines(files, f, i, s);
    files[f][i]
}

/// The names of the nodes that an output transcludes.
pub open spec fn transcluded_names(o: NodeOutput) -> Seq<Seq<char>> {
    o.transclusions@.map_values(|t: String| t@)
}

/// The node named `s` is defined once and its definition transcludes the
/// node named `t`.
pub open spec fn name_transcludes(files: Map<FileKey, Seq<NodeOutput>>, s: Seq<char>, t: Seq<char>) -> bool {
    defined_once(files, s) && transcluded_names(sole_definition(files, s)).contains(t)
}

/// `w` follows transclusions, by name, from its first name to its last.
pub open spec fn is_name_walk(files: Map<FileKey, Seq<NodeOutput>>, w: Seq<Seq<char>>) -> bool {
    &&& w.len() >= 1
    &&& forall|k: int| 0 <= k < w.len() - 1 ==> name_transcludes(files, #[trigger] w[k], w[k + 1])
}

/// The node named `b` can be reached from the node named `a` by following
/// zero or more transclusions.
pub open spec fn name_reaches(files: Map<FileKey, Seq<NodeOutput>>, a: Seq<char>, b: Seq<char>) -> bool {
    exists|w: Seq<Seq<char>>|
        #![trigger is_name_walk(files, w), w.last()]
        is_name_walk(files, w) && w[0] == a && w.last() == b
}

/// The node named `s` lies on a transclusion cycle.
pub open spec fn name_on_cycle(files: Map<FileKey, Seq<NodeOutput>>, s: Seq<char>) -> bool {
    exists|m: Seq<char>| #[trigger] name_transcludes(files, s, m) && name_reaches(files, m, s)
}

/// The pages of a site built from the outputs of its files alone: the names
/// defined exactly once that do not transclude, directly or not, a node on a
/// transclusion cycle.
pub open spec fn site_pages(files: Map<FileKey, Seq<NodeOutput>>) -> Set<Seq<char>> {
    Set::new(
        |s: Seq<char>|
            defined_once(files, s) && !exists|c: Seq<char>|
                name_on_cycle(files, c) && #[trigger] name_reaches(files, s, c),
    )
}

// ---------------------------------------------------------------------------
// How a node store mirrors the outputs of the files.
// ---------------------------------------------------------------------------

/// The entries that come from file `f`, in order.
pub open spec fn entries_in_file(entries: Seq<EntryView>, f: FileKey) -> Seq<EntryView>
    decreases entries.len(),
{
    if entries.len() == 0 {
        entries
    } else {
        let rest = entries_in_file(entries.drop_last(), f);
        if entries.last().file_id == f {
            rest.push(entries.last())
        } else {
            rest
        }
    }
}

/// The entries that the outputs of file `f` give the node named `s`, in
/// order.
pub open spec fn file_definitions(
    names: Seq<Seq<char>>,
    f: FileKey,
    outputs: Seq<NodeOutput>,
    s: Seq<char>,
) -> Seq<EntryView>
    decreases outputs.len(),
{
    if outputs.len() == 0 {
        Seq::empty()
    } else {
        let rest = file_definitions(names, f, outputs.drop_last(), s);
        if outputs.last().identifier@ == s {
            rest.push(entry_of(names, f, outputs.last()))
        } else {
            rest
        }
    }
}

/// The entries that file `f` gives the node named `s`: none when the file
/// has no outputs.
pub open spec fn defined_in(
    files: Map<FileKey, Seq<NodeOutput>>,
    names: Seq<Seq<char>>,
    f: FileKey,
    s: Seq<char>,
) -> Seq<EntryView> {
    if files.contains_key(f) {
        file_definitions(names, f, files[f], s)
    } else {
        Seq::empty()
    }
}

/// The entries of node `k`, none when it is not in the store.
pub open spec fn entries_at(store: Map<u32, Seq<EntryView>>, k: u32) -> Seq<EntryView> {
    if store.contains_key(k) {
        store[k]
    } else {
        Seq::empty()
    }
}

/// The node store, under the handles `names`, holds exactly the outputs of
/// the files: every name the outputs mention has a handle, and for each
/// node and file the entries from that file are the file's definitions of
/// the node, in the file's order.
pub open spec fn mirrors(
    store: Map<u32, Seq<EntryView>>,
    names: Seq<Seq<char>>,
    files: Map<FileKey, Seq<NodeOutput>>,
) -> bool {
    &&& names.no_duplicates()
    &&& names.len() <= u32::MAX as nat + 1
    &&& forall|f: FileKey, x: Seq<char>|
        files.contains_key(f) && #[trigger] all_output_names(files[f]).contains(x) ==> names.contains(x)
    &&& forall|k: u32| #[trigger] store.contains_key(k) ==> (k as int) < names.len() && store[k].len() > 0
    &&& forall|k: u32, f: FileKey|
        (k as int) < names.len() ==> #[trigger] entries_in_file(entries_at(store, k), f) == defined_in(
            files,
            names,
            f,
            names[k as int],
        )
}

// ---------------------------------------------------------------------------
// Facts about the definitions above.
// ---------------------------------------------------------------------------

proof fn lemma_entries_in_file_members(entries: Seq<EntryView>, f: FileKey)
    ensures
        forall|x: EntryView|
            #![trigger entries_in_file(entries, f).contains(x)]
            #![trigger entries.contains(x)]
            entries_in_file(entries, f).contains(x) <==> (entries.contains(x) && x.file_id == f),
        (forall|x: EntryView| entries.contains(x) ==> x.file_id == f) ==> entries_in_file(entries, f) == entries,
    decreases entries.len(),
{
    if entries.len() > 0 {
        let init = entries.drop_last();
        let last = entries.last();
        lemma_entries_in_file_members(init, f);
        let rest = entries_in_file(init, f);
        assert(entries == init.push(last));
        assert(entries[entries.len() - 1] == last);
        assert forall|x: EntryView| entries_in_file(entries, f).contains(x) <==> (entries.contains(x) && x.file_id == f) by {
            if entries.contains(x) {
                let w = choose|w: int| 0 <= w < entries.len() && entries[w] == x;
                if w < init.len() {
                    assert(init[w] == x);
                }
            }
            if init.contains(x) {
                let w = choose|w: int| 0 <= w < init.len() && init[w] == x;
                assert(entries[w] == x);
            }
            if last.file_id == f {
                assert(rest.push(last)[rest.len() as int] == last);
                if rest.contains(x) {
                    let w = choose|w: int| 0 <= w < rest.len() && rest[w] == x;
                    assert(rest.push(last)[w] == x);
                }
                if rest.push(last).contains(x) {
                    let w = choose|w: int| 0 <= w < rest.push(last).len() && rest.push(last)[w] == x;
                    if w < rest.len() {
                        assert(rest[w] == x);
                    }
                }
            }
        }
        if forall|x: EntryView| entries.contains(x) ==> x.file_id == f {
            assert forall|x: EntryView| init.contains(x) implies x.file_id == f by {
                let w = choose|w: int| 0 <= w < init.len() && init[w] == x;
                assert(entries[w] == x);
                assert(entries.contains(x));
            }
            assert(entries.contains(last));
        }
    }
}

/// What the definitions of a name in one file consist of: none exactly when
/// no output defines it, at least two exactly when two outputs do, and each
/// is the entry of an output that defines it.
proof fn lemma_file_definitions_shape(names: Seq<Seq<char>>, f: FileKey, outputs: Seq<NodeOutput>, s: Seq<char>)
    ensures
        file_definitions(names, f, outputs, s).len() == 0 <==> forall|i: int|
            0 <= i < outputs.len() ==> (#[trigger] outputs[i]).identifier@ != s,
        file_definitions(names, f, outputs, s).len() >= 2 <==> exists|i: int, j: int|
            0 <= i < j < outputs.len() && (#[trigger] outputs[i]).identifier@ == s && (#[trigger] outputs[j]).identifier@ == s,
        forall|x: EntryView|
            #[trigger] file_definitions(names, f, outputs, s).contains(x) ==> exists|i: int|
                0 <= i < outputs.len() && (#[trigger] outputs[i]).identifier@ == s && x == entry_of(names, f, outputs[i]),
    decreases outputs.len(),
{
    if outputs.len() > 0 {
        let init = outputs.drop_last();
        let last = outputs.last();
        lemma_file_definitions_shape(names, f, init, s);
        let rest = file_definitions(names, f, init, s);
        let all = file_definitions(names, f, outputs, s);
        assert(outputs[outputs.len() - 1] == last);
        assert forall|i: int| 0 <= i < init.len() implies init[i] == outputs[i] by {}
        if last.identifier@ == s {
            assert(all.len() != 0);
            if rest.len() >= 1 {
                let i = choose|i: int| !(0 <= i < init.len() ==> (#[trigger] init[i]).identifier@ != s);
                assert(outputs[i].identifier@ == s && outputs[outputs.len() - 1].identifier@ == s);
            }
            if exists|i: int, j: int|
                0 <= i < j < outputs.len() && (#[trigger] outputs[i]).identifier@ == s && (#[trigger] outputs[j]).identifier@ == s {
                let (i, j) = choose|i: int, j: int|
                    0 <= i < j < outputs.len() && (#[trigger] outputs[i]).identifier@ == s && (#[trigger] outputs[j]).identifier@ == s;
                assert(init[i].identifier@ == s);
            }
            assert forall|x: EntryView| #[trigger] all.contains(x) implies exists|i: int|
                0 <= i < outputs.len() && (#[trigger] outputs[i]).identifier@ == s && x == entry_of(names, f, outputs[i]) by {
                let w = choose|w: int| 0 <= w < all.len() && all[w] == x;
                if w < rest.len() {
                    assert(rest[w] == x);
                    assert(rest.contains(x));
                    let i = choose|i: int| 0 <= i < init.len() && (#[trigger] init[i]).identifier@ == s && x == entry_of(names, f, init[i]);
                    assert(outputs[i] == init[i]);
                } else {
                    assert(x == entry_of(names, f, outputs[outputs.len() - 1]));
                }
            }
        } else {
            assert(all == rest);
            if exists|i: int, j: int|
                0 <= i < j < outputs.len() && (#[trigger] outputs[i]).identifier@ == s && (#[trigger] outputs[j]).identifier@ == s {
                let (i, j) = choose|i: int, j: int|
                    0 <= i < j < outputs.len() && (#[trigger] outputs[i]).identifier@ == s && (#[trigger] outputs[j]).identifier@ == s;
                assert(init[i].identifier@ == s && init[j].identifier@ == s);
            }
            if rest.len() >= 2 {
                let (i, j) = choose|i: int, j: int|
                    0 <= i < j < init.len() && (#[trigger] init[i]).identifier@ == s && (#[trigger] init[j]).identifier@ == s;
                assert(outputs[i].identifier@ == s && outputs[j].identifier@ == s);
            }
            if rest.len() != 0 {
                let i = choose|i: int| !(0 <= i < init.len() ==> (#[trigger] init[i]).identifier@ != s);
                assert(outputs[i].identifier@ == s);
            }
            assert forall|x: EntryView| #[trigger] all.contains(x) implies exists|i: int|
                0 <= i < outputs.len() && (#[trigger] outputs[i]).identifier@ == s && x == entry_of(names, f, outputs[i]) by {
                let i = choose|i: int| 0 <= i < init.len() && (#[trigger] init[i]).identifier@ == s && x == entry_of(names, f, init[i]);
                assert(outputs[i] == init[i]);
            }
        }
    }
}

/// The sole definition of a name defined once is the output that defines it.
proof fn lemma_sole_definition(files: Map<FileKey, Seq<NodeOutput>>, s: Seq<char>, f: FileKey, i: int)
    requires
        defined_once(files, s),
        defines(files, f, i, s),
    ensures
        sole_definition(files, s) == files[f][i],
        forall|g: FileKey, j: int| #[trigger] defines(files, g, j, s) ==> g == f && j == i,
{
    let (f0, i0) = choose|f0: FileKey, i0: int|
        #[trigger] defines(files, f0, i0, s) && forall|g: FileKey, j: int|
            #[trigger] defines(files, g, j, s) ==> g == f0 && j == i0;
    assert(f == f0 && i == i0);
    let (f1, i1) = choose|f1: FileKey, i1: int| #[trigger] defines(files, f1, i1, s);
    assert(defines(files, f1, i1, s));
    assert(f1 == f0 && i1 == i0);
}

/// Under the handles `names`, node `k` is defined once in the store exactly
/// when its name is defined once in the files, and its entry is then that
/// of the name's sole definition.
proof fn lemma_single_mirrors(
    store: Map<u32, Seq<EntryView>>,
    names: Seq<Seq<char>>,
    files: Map<FileKey, Seq<NodeOutput>>,
    k: u32,
)
    requires
        mirrors(store, names, files),
        (k as int) < names.len(),
    ensures
        is_single(store, k) <==> defined_once(files, names[k as int]),
        is_single(store, k) ==> store[k][0] == entry_of(
            names,
            store[k][0].file_id,
            sole_definition(files, names[k as int]),
        ),
        is_single(store, k) ==> exists|i: int|
            #[trigger] defines(files, store[k][0].file_id, i, names[k as int]) && sole_definition(
                files,
                names[k as int],
            ) == files[store[k][0].file_id][i],
{
    let s = names[k as int];
    let es = entries_at(store, k);
    if is_single(store, k) {
        let e = es[0];
        let f = e.file_id;
        assert(es.contains(e));
        assert forall|x: EntryView| es.contains(x) implies x.file_id == f by {
            let w = choose|w: int| 0 <= w < es.len() && es[w] == x;
            assert(w == 0);
        }
        lemma_entries_in_file_members(es, f);
        assert(entries_in_file(es, f) == defined_in(files, names, f, s));
        assert(files.contains_key(f));
        let defs = file_definitions(names, f, files[f], s);
        assert(defs == es);
        lemma_file_definitions_shape(names, f, files[f], s);
        assert(defs.contains(e));
        let i = choose|i: int|
            0 <= i < files[f].len() && (#[trigger] files[f][i]).identifier@ == s && e == entry_of(names, f, files[f][i]);
        assert(defines(files, f, i, s));
        assert forall|g: FileKey, j: int| #[trigger] defines(files, g, j, s) implies g == f && j == i by {
            if g != f {
                lemma_entries_in_file_members(es, g);
                assert(entries_in_file(es, g) == defined_in(files, names, g, s));
                lemma_file_definitions_shape(names, g, files[g], s);
                let dg = file_definitions(names, g, files[g], s);
                assert(files[g][j].identifier@ == s);
                assert(dg.len() != 0);
                assert(dg.contains(dg[0]));
                assert(entries_in_file(es, g).contains(dg[0]));
                assert(es.contains(dg[0]) && dg[0].file_id == g);
                let w = choose|w: int| 0 <= w < es.len() && es[w] == dg[0];
                assert(w == 0);
                assert(false);
            } else if j != i {
                if j < i {
                    assert(files[f][j].identifier@ == s && files[f][i].identifier@ == s);
                } else {
                    assert(files[f][i].identifier@ == s && files[f][j].identifier@ == s);
                }
                assert(defs.len() >= 2);
                assert(false);
            }
        }
        assert(defined_once(files, s));
        lemma_sole_definition(files, s, f, i);
        assert(defines(files, store[k][0].file_id, i, s));
    }
    if defined_once(files, s) {
        let (f, i) = choose|f: FileKey, i: int|
            #[trigger] defines(files, f, i, s) && forall|g: FileKey, j: int|
                #[trigger] defines(files, g, j, s) ==> g == f && j == i;
        lemma_sole_definition(files, s, f, i);
        lemma_file_definitions_shape(names, f, files[f], s);
        let defs = file_definitions(names, f, files[f], s);
        assert(defs.len() != 0) by {
            assert(files[f][i].identifier@ == s);
        }
        assert(defs.len() < 2) by {
            if defs.len() >= 2 {
                let (a, b) = choose|a: int, b: int|
                    0 <= a < b < files[f].len() && (#[trigger] files[f][a]).identifier@ == s
                        && (#[trigger] files[f][b]).identifier@ == s;
                assert(defines(files, f, a, s) && defines(files, f, b, s));
            }
        }
        assert(entries_in_file(es, f) == defs);
        assert forall|x: EntryView| es.contains(x) implies x.file_id == f by {
            let g = x.file_id;
            lemma_entries_in_file_members(es, g);
            assert(entries_in_file(es, g).contains(x));
            assert(entries_in_file(es, g) == defined_in(files, names, g, s));
            if g != f {
                assert(files.contains_key(g));
                lemma_file_definitions_shape(names, g, files[g], s);
                let dg = file_definitions(names, g, files[g], s);
                assert(dg.len() != 0);
                let j = choose|j: int| !(0 <= j < files[g].len() ==> (#[trigger] files[g][j]).identifier@ != s);
                assert(defines(files, g, j, s));
            }
        }
        lemma_entries_in_file_members(es, f);
        assert(es.len() == 1);
        assert(store.contains_key(k));
    }
}

/// The handle of a name among names without duplicates.
proof fn lemma_handle_of(names: Seq<Seq<char>>, t: Seq<char>)
    requires
        names.no_duplicates(),
        names.len() <= u32::MAX as nat + 1,
        names.contains(t),
    ensures
        (key_of(names, t) as int) < names.len(),
        names[key_of(names, t) as int] == t,
        forall|b: u32| (b as int) < names.len() && names[b as int] == t ==> key_of(names, t) == b,
{
    let i = names.index_of(t);
    assert(0 <= i < names.len() && names[i] == t);
    assert(key_of(names, t) as int == i);
}

/// The names that output `i` of file `f` transcludes have handles.
proof fn lemma_transcluded_named(
    store: Map<u32, Seq<EntryView>>,
    names: Seq<Seq<char>>,
    files: Map<FileKey, Seq<NodeOutput>>,
    f: FileKey,
    i: int,
)
    requires
        mirrors(store, names, files),
        files.contains_key(f),
        0 <= i < files[f].len(),
    ensures
        names.contains(files[f][i].identifier@),
        forall|x: Seq<char>| #[trigger] transcluded_names(files[f][i]).contains(x) ==> names.contains(x),
{
    lemma_output_names_members(files[f]);
    let o = files[f][i];
    assert forall|x: Seq<char>| #[trigger] transcluded_names(o).contains(x) implies names.contains(x) by {
        let j = choose|j: int| 0 <= j < transcluded_names(o).len() && transcluded_names(o)[j] == x;
        assert(all_output_names(files[f]).contains(files[f][i].transclusions@[j]@));
    }
    assert(all_output_names(files[f]).contains(files[f][i].identifier@));
}

/// Under the handles `names`, the transclusions of the store are those the
/// files give, by name.
proof fn lemma_edges_mirror(
    store: Map<u32, Seq<EntryView>>,
    names: Seq<Seq<char>>,
    files: Map<FileKey, Seq<NodeOutput>>,
    a: u32,
    b: u32,
)
    requires
        mirrors(store, names, files),
    ensures
        store_transclusions(store).contains((a, b)) <==> ((a as int) < names.len() && (b as int) < names.len()
            && name_transcludes(files, names[a as int], names[b as int])),
{
    if (a as int) < names.len() {
        lemma_single_mirrors(store, names, files, a);
        let s = names[a as int];
        if is_single(store, a) {
            let (f, i) = choose|f: FileKey, i: int|
                #[trigger] defines(files, f, i, s) && forall|g: FileKey, j: int|
                    #[trigger] defines(files, g, j, s) ==> g == f && j == i;
            lemma_sole_definition(files, s, f, i);
            lemma_transcluded_named(store, names, files, f, i);
            let o = files[f][i];
            let e = store[a][0];
            assert(e.transclusions == o.transclusions@.map_values(|t: String| NodeId(key_of(names, t@))));
            if store_transclusions(store).contains((a, b)) {
                assert(e.transclusions.contains(NodeId(b)));
                let j = choose|j: int| 0 <= j < e.transclusions.len() && e.transclusions[j] == NodeId(b);
                let t = o.transclusions@[j]@;
                assert(transcluded_names(o)[j] == t);
                assert(transcluded_names(o).contains(t));
                lemma_handle_of(names, t);
                assert(key_of(names, t) == b);
            }
            if (b as int) < names.len() && name_transcludes(files, s, names[b as int]) {
                let j = choose|j: int| 0 <= j < transcluded_names(o).len() && transcluded_names(o)[j] == names[b as int];
                let t = o.transclusions@[j]@;
                assert(transcluded_names(o).contains(t));
                lemma_handle_of(names, t);
                assert(e.transclusions[j] == NodeId(b));
                assert(e.transclusions.contains(NodeId(b)));
            }
        }
    } else {
        assert(!store.contains_key(a));
    }
}

/// A name that a defined-once name transcludes has a handle.
proof fn lemma_target_named(
    store: Map<u32, Seq<EntryView>>,
    names: Seq<Seq<char>>,
    files: Map<FileKey, Seq<NodeOutput>>,
    x: Seq<char>,
    y: Seq<char>,
)
    requires
        mirrors(store, names, files),
        name_transcludes(files, x, y),
    ensures
        names.contains(x),
        names.contains(y),
{
    let (f, i) = choose|f: FileKey, i: int|
        #[trigger] defines(files, f, i, x) && forall|g: FileKey, j: int|
            #[trigger] defines(files, g, j, x) ==> g == f && j == i;
    lemma_sole_definition(files, x, f, i);
    lemma_transcluded_named(store, names, files, f, i);
}

/// Under the handles `names`, reaching one node from another in the store
/// is reaching one name from the other in the files.
proof fn lemma_reaches_mirror(
    store: Map<u32, Seq<EntryView>>,
    names: Seq<Seq<char>>,
    files: Map<FileKey, Seq<NodeOutput>>,
    a: u32,
    b: u32,
)
    requires
        mirrors(store, names, files),
        (a as int) < names.len(),
        (b as int) < names.len(),
    ensures
        reaches(store_transclusions(store), a, b) <==> name_reaches(files, names[a as int], names[b as int]),
{
    let t = store_transclusions(store);
    if reaches(t, a, b) {
        let w = choose|w: Seq<u32>| #![trigger is_walk(t, w), w.last()] is_walk(t, w) && w[0] == a && w.last() == b;
        assert forall|q: int| 0 <= q < w.len() implies (#[trigger] w[q] as int) < names.len() by {
            if q > 0 {
                assert(t.contains((w[q - 1], w[q])));
                lemma_edges_mirror(store, names, files, w[q - 1], w[q]);
            }
        }
        let v = w.map_values(|x: u32| names[x as int]);
        assert forall|q: int| 0 <= q < v.len() - 1 implies name_transcludes(files, #[trigger] v[q], v[q + 1]) by {
            assert(t.contains((w[q], w[q + 1])));
            lemma_edges_mirror(store, names, files, w[q], w[q + 1]);
        }
        assert(is_name_walk(files, v) && v[0] == names[a as int] && v.last() == names[b as int]);
    }
    if name_reaches(files, names[a as int], names[b as int]) {
        let v = choose|v: Seq<Seq<char>>|
            #![trigger is_name_walk(files, v), v.last()]
            is_name_walk(files, v) && v[0] == names[a as int] && v.last() == names[b as int];
        assert forall|q: int| 0 <= q < v.len() implies names.contains(#[trigger] v[q]) by {
            if q > 0 {
                assert(name_transcludes(files, v[q - 1], v[q]));
                lemma_target_named(store, names, files, v[q - 1], v[q]);
            }
        }
        let w = v.map_values(|x: Seq<char>| key_of(names, x));
        assert forall|q: int| 0 <= q < w.len() implies (#[trigger] w[q] as int) < names.len() && names[w[q] as int] == v[q] by {
            assert(names.contains(v[q]));
            lemma_handle_of(names, v[q]);
        }
        assert forall|q: int| 0 <= q < w.len() - 1 implies t.contains((#[trigger] w[q], w[q + 1])) by {
            assert(names[w[q] as int] == v[q] && names[w[q + 1] as int] == v[q + 1]);
            assert(name_transcludes(files, v[q], v[q + 1]));
            lemma_edges_mirror(store, names, files, w[q], w[q + 1]);
        }
        lemma_handle_of(names, names[a as int]);
        lemma_handle_of(names, names[b as int]);
        assert(w[0] == a);
        assert(w.last() == w[w.len() - 1]);
        assert(w.last() == b);
        assert(is_walk(t, w));
    }
}

/// Under the handles `names`, a node of the store reaches a transclusion
/// cycle exactly when its name does in the files.
proof fn lemma_unrenderable_mirror(
    store: Map<u32, Seq<EntryView>>,
    names: Seq<Seq<char>>,
    files: Map<FileKey, Seq<NodeOutput>>,
    k: u32,
)
    requires
        mirrors(store, names, files),
        (k as int) < names.len(),
    ensures
        unrenderable(store_transclusions(store), k) <==> exists|c: Seq<char>|
            name_on_cycle(files, c) && #[trigger] name_reaches(files, names[k as int], c),
{
    let t = store_transclusions(store);
    if unrenderable(t, k) {
        let c = choose|c: u32| on_cycle(t, c) && #[trigger] reaches(t, k, c);
        let m = choose|m: u32| #[trigger] t.contains((c, m)) && reaches(t, m, c);
        lemma_edges_mirror(store, names, files, c, m);
        lemma_reaches_mirror(store, names, files, k, c);
        lemma_reaches_mirror(store, names, files, m, c);
        assert(name_transcludes(files, names[c as int], names[m as int]));
        assert(name_on_cycle(files, names[c as int]));
        assert(name_reaches(files, names[k as int], names[c as int]));
    }
    if exists|c: Seq<char>| name_on_cycle(files, c) && #[trigger] name_reaches(files, names[k as int], c) {
        let c = choose|c: Seq<char>| name_on_cycle(files, c) && #[trigger] name_reaches(files, names[k as int], c);
        let m = choose|m: Seq<char>| #[trigger] name_transcludes(files, c, m) && name_reaches(files, m, c);
        lemma_target_named(store, names, files, c, m);
        lemma_handle_of(names, c);
        lemma_handle_of(names, m);
        let ci = key_of(names, c);
        let mi = key_of(names, m);
        lemma_edges_mirror(store, names, files, ci, mi);
        lemma_reaches_mirror(store, names, files, mi, ci);
        lemma_reaches_mirror(store, names, files, k, ci);
        assert(t.contains((ci, mi)));
        assert(on_cycle(t, ci));
        assert(reaches(t, k, ci));
    }
}

/// Incremental compilation renders what a build from scratch renders. When
/// the node store holds exactly the current outputs of the files, under the
/// handles `names`, the nodes rendered after processing it are, by name,
/// exactly the pages of the site built from those outputs alone: the names
/// defined once that reach no transclusion cycle. Which handle each name
/// has plays no part.
pub proof fn lemma_rendered_match_site(
    store: Map<u32, Seq<EntryView>>,
    names: Seq<Seq<char>>,
    files: Map<FileKey, Seq<NodeOutput>>,
)
    requires
        mirrors(store, names, files),
    ensures
        rendered_nodes(store, names.len()).map(|k: u32| names[k as int]) == site_pages(files),
        forall|k: u32| #[trigger] rendered_nodes(store, names.len()).contains(k) ==> (k as int) < names.len(),
        forall|k: u32|
            (k as int) < names.len() ==> (#[trigger] rendered_nodes(store, names.len()).contains(k)
                <==> site_pages(files).contains(names[k as int])),
{
    let n = names.len();
    let r = rendered_nodes(store, n);
    let t = store_transclusions(store);
    assert forall|k: u32| (k as int) < n implies (#[trigger] r.contains(k) <==> site_pages(files).contains(names[k as int])) by {
        lemma_single_mirrors(store, names, files, k);
        lemma_unrenderable_mirror(store, names, files, k);
        assert(singles(store, n)[k as int] == is_single(store, k));
    }
    assert forall|s: Seq<char>| #[trigger] site_pages(files).contains(s) implies exists|k: u32| r.contains(k) && s == names[k as int] by {
        let (f, i) = choose|f: FileKey, i: int|
            #[trigger] defines(files, f, i, s) && forall|g: FileKey, j: int|
                #[trigger] defines(files, g, j, s) ==> g == f && j == i;
        lemma_transcluded_named(store, names, files, f, i);
        lemma_handle_of(names, s);
        let k = key_of(names, s);
        assert(r.contains(k));
    }
    assert(r.map(|k: u32| names[k as int]) =~= site_pages(files));
}

// ---------------------------------------------------------------------------
// Compiling and removing files keep the store mirroring the files.
// ---------------------------------------------------------------------------

proof fn lemma_entries_in_file_append(a: Seq<EntryView>, b: Seq<EntryView>, g: FileKey)
    ensures
        entries_in_file(a + b, g) == entries_in_file(a, g) + entries_in_file(b, g),
    decreases b.len(),
{
    if b.len() == 0 {
        assert(a + b =~= a);
        assert(entries_in_file(a, g) + entries_in_file(b, g) =~= entries_in_file(a, g));
    } else {
        let bi = b.drop_last();
        lemma_entries_in_file_append(a, bi, g);
        assert((a + b).drop_last() =~= a + bi);
        assert((a + b).last() == b.last());
        if b.last().file_id == g {
            assert(entries_in_file(a, g) + entries_in_file(bi, g).push(b.last()) =~= (entries_in_file(a, g)
                + entries_in_file(bi, g)).push(b.last()));
        }
    }
}

proof fn lemma_entries_in_other_files(es: Seq<EntryView>, f: FileKey, g: FileKey)
    ensures
        entries_in_file(entries_from_other_files(es, f), g) == if g == f {
            Seq::<EntryView>::empty()
        } else {
            entries_in_file(es, g)
        },
    decreases es.len(),
{
    if es.len() > 0 {
        let init = es.drop_last();
        lemma_entries_in_other_files(init, f, g);
        let rest = entries_from_other_files(init, f);
        if es.last().file_id != f {
            assert(rest.push(es.last()).drop_last() =~= rest);
        }
    }
}

/// The entries that outputs of file `f` give keep their file.
proof fn lemma_definitions_in_file(names: Seq<Seq<char>>, f: FileKey, outputs: Seq<NodeOutput>, s: Seq<char>, g: FileKey)
    ensures
        entries_in_file(file_definitions(names, f, outputs, s), g) == if g == f {
            file_definitions(names, f, outputs, s)
        } else {
            Seq::<EntryView>::empty()
        },
{
    let defs = file_definitions(names, f, outputs, s);
    lemma_file_definitions_shape(names, f, outputs, s);
    lemma_entries_in_file_members(defs, g);
    assert forall|x: EntryView| defs.contains(x) implies x.file_id == f by {
        let i = choose|i: int| 0 <= i < outputs.len() && (#[trigger] outputs[i]).identifier@ == s && x == entry_of(names, f, outputs[i]);
    }
    if g != f {
        let e = entries_in_file(defs, g);
        if e.len() > 0 {
            let x = e[0];
            assert(e.contains(x));
            assert(defs.contains(x) && x.file_id == g);
            assert(x.file_id == f);
        }
        assert(e =~= Seq::<EntryView>::empty());
    }
}

/// The names of the earlier outputs are among the names of all outputs.
proof fn lemma_init_names(outputs: Seq<NodeOutput>)
    requires
        outputs.len() > 0,
    ensures
        forall|x: Seq<char>| all_output_names(outputs.drop_last()).contains(x) ==> all_output_names(outputs).contains(x),
{
    let a = all_output_names(outputs.drop_last());
    let all = all_output_names(outputs);
    assert(all == a + output_names(outputs.last()));
    assert forall|x: Seq<char>| a.contains(x) implies all.contains(x) by {
        let w = choose|w: int| 0 <= w < a.len() && a[w] == x;
        assert(all[w] == x);
    }
}

/// The definitions of a file do not change when more names get handles.
proof fn lemma_definitions_stable(
    small: Seq<Seq<char>>,
    large: Seq<Seq<char>>,
    f: FileKey,
    outputs: Seq<NodeOutput>,
    s: Seq<char>,
)
    requires
        large.no_duplicates(),
        small.len() <= large.len(),
        large.subrange(0, small.len() as int) == small,
        forall|x: Seq<char>| all_output_names(outputs).contains(x) ==> small.contains(x),
    ensures
        file_definitions(small, f, outputs, s) == file_definitions(large, f, outputs, s),
    decreases outputs.len(),
{
    if outputs.len() > 0 {
        let init = outputs.drop_last();
        let o = outputs.last();
        lemma_init_names(outputs);
        lemma_definitions_stable(small, large, f, init, s);
        lemma_output_names_members(outputs);
        assert(outputs[outputs.len() - 1] == o);
        assert forall|j: int| 0 <= j < o.links@.len() implies key_of(small, #[trigger] o.links@[j]@) == key_of(large, o.links@[j]@) by {
            assert(all_output_names(outputs).contains(outputs[outputs.len() - 1].links@[j]@));
            lemma_key_stable(small, large, o.links@[j]@);
        }
        assert forall|j: int| 0 <= j < o.transclusions@.len() implies key_of(small, #[trigger] o.transclusions@[j]@) == key_of(large, o.transclusions@[j]@) by {
            assert(all_output_names(outputs).contains(outputs[outputs.len() - 1].transclusions@[j]@));
            lemma_key_stable(small, large, o.transclusions@[j]@);
        }
        assert(entry_of(small, f, o).links =~= entry_of(large, f, o).links);
        assert(entry_of(small, f, o).transclusions =~= entry_of(large, f, o).transclusions);
    }
}

/// Appending the outputs of file `f` adds to each node, after its entries,
/// the file's definitions of it.
proof fn lemma_with_outputs_entries(
    store: Map<u32, Seq<EntryView>>,
    names: Seq<Seq<char>>,
    f: FileKey,
    outputs: Seq<NodeOutput>,
    k: u32,
)
    requires
        names.no_duplicates(),
        names.len() <= u32::MAX as nat + 1,
        (k as int) < names.len(),
        forall|x: Seq<char>| all_output_names(outputs).contains(x) ==> names.contains(x),
    ensures
        entries_at(with_outputs(store, names, f, outputs), k) == entries_at(store, k) + file_definitions(
            names,
            f,
            outputs,
            names[k as int],
        ),
    decreases outputs.len(),
{
    let s = names[k as int];
    if outputs.len() == 0 {
        assert(entries_at(store, k) + Seq::<EntryView>::empty() =~= entries_at(store, k));
    } else {
        let init = outputs.drop_last();
        let o = outputs.last();
        lemma_init_names(outputs);
        lemma_with_outputs_entries(store, names, f, init, k);
        lemma_output_names_members(outputs);
        assert(outputs[outputs.len() - 1] == o);
        assert(all_output_names(outputs).contains(outputs[outputs.len() - 1].identifier@));
        lemma_handle_of(names, o.identifier@);
        let key = key_of(names, o.identifier@);
        let before = with_outputs(store, names, f, init);
        if key == k {
            assert(o.identifier@ == s);
            assert(entries_at(store, k) + file_definitions(names, f, init, s).push(entry_of(names, f, o)) =~= (
            entries_at(store, k) + file_definitions(names, f, init, s)).push(entry_of(names, f, o)));
        } else {
            assert(o.identifier@ != s);
        }
    }
}

/// A compiler with nothing compiled mirrors files that have no outputs.
pub proof fn lemma_nothing_mirrors()
    ensures
        mirrors(Map::<u32, Seq<EntryView>>::empty(), Seq::<Seq<char>>::empty(), Map::<FileKey, Seq<NodeOutput>>::empty()),
{
}

/// Removing a file, or compiling it with errors, keeps the store mirroring
/// the files, less that file's outputs.
pub proof fn lemma_remove_mirrors(
    store: Map<u32, Seq<EntryView>>,
    names: Seq<Seq<char>>,
    files: Map<FileKey, Seq<NodeOutput>>,
    f: FileKey,
)
    requires
        mirrors(store, names, files),
    ensures
        mirrors(without_file(store, f), names, files.remove(f)),
{
    let after = without_file(store, f);
    let fs = files.remove(f);
    assert forall|k: u32, g: FileKey| (k as int) < names.len() implies #[trigger] entries_in_file(entries_at(after, k), g)
        == defined_in(fs, names, g, names[k as int]) by {
        let es = entries_at(store, k);
        assert(entries_at(after, k) == entries_from_other_files(es, f));
        lemma_entries_in_other_files(es, f, g);
        assert(entries_in_file(es, g) == defined_in(files, names, g, names[k as int]));
    }
}

/// Compiling file `f` afresh, with outputs, keeps the store mirroring the
/// files, with `outputs` as the file's outputs.
pub proof fn lemma_update_mirrors(
    store: Map<u32, Seq<EntryView>>,
    names: Seq<Seq<char>>,
    files: Map<FileKey, Seq<NodeOutput>>,
    f: FileKey,
    outputs: Seq<NodeOutput>,
)
    requires
        mirrors(store, names, files),
        names.len() + all_output_names(outputs).len() <= u32::MAX,
    ensures
        mirrors(
            with_outputs(
                without_file(store, f),
                intern_all(names, all_output_names(outputs)),
                f,
                outputs,
            ),
            intern_all(names, all_output_names(outputs)),
            files.insert(f, outputs),
        ),
{
    lemma_remove_mirrors(store, names, files, f);
    let mid = without_file(store, f);
    let fm = files.remove(f);
    let large = intern_all(names, all_output_names(outputs));
    let w = with_outputs(mid, large, f, outputs);
    let fs = files.insert(f, outputs);
    lemma_intern_all(names, all_output_names(outputs));
    let n = names.len();
    assert forall|x: Seq<char>| names.contains(x) implies large.contains(x) by {
        let w = choose|w: int| 0 <= w < names.len() && names[w] == x;
        assert(large.subrange(0, n as int)[w] == x);
    }
    assert forall|g: FileKey, x: Seq<char>| fs.contains_key(g) && #[trigger] all_output_names(fs[g]).contains(x) implies large.contains(x) by {
        if g != f {
            assert(fm.contains_key(g));
        }
    }
    lemma_with_outputs_shape(mid, large, f, outputs);
    assert forall|k: u32| #[trigger] w.contains_key(k) implies (k as int) < large.len() && w[k].len() > 0 by {
        if !mid.contains_key(k) {
            assert(output_keys(large, outputs).contains(k));
            let i = choose|i: int| 0 <= i < outputs.len() && k == key_of(large, (#[trigger] outputs[i]).identifier@);
            lemma_output_names_members(outputs);
            lemma_handle_of(large, outputs[i].identifier@);
        }
    }
    assert forall|k: u32, g: FileKey| (k as int) < large.len() implies #[trigger] entries_in_file(entries_at(w, k), g)
        == defined_in(fs, large, g, large[k as int]) by {
        let s = large[k as int];
        lemma_with_outputs_entries(mid, large, f, outputs, k);
        lemma_entries_in_file_append(entries_at(mid, k), file_definitions(large, f, outputs, s), g);
        lemma_definitions_in_file(large, f, outputs, s, g);
        if (k as int) < n {
            assert(s == names[k as int]);
            assert(entries_in_file(entries_at(mid, k), g) == defined_in(fm, names, g, s));
            if g != f && fm.contains_key(g) {
                lemma_definitions_stable(names, large, g, fm[g], s);
            }
            assert(entries_in_file(entries_at(mid, k), g) + entries_in_file(file_definitions(large, f, outputs, s), g)
                =~= defined_in(fs, large, g, s));
        } else {
            assert(!mid.contains_key(k));
            assert(entries_at(mid, k) =~= Seq::<EntryView>::empty());
            assert(entries_in_file(entries_at(mid, k), g) =~= Seq::<EntryView>::empty());
            if g != f && fm.contains_key(g) {
                lemma_file_definitions_shape(large, g, fm[g], s);
                assert forall|i: int| 0 <= i < fm[g].len() implies (#[trigger] fm[g][i]).identifier@ != s by {
                    lemma_output_names_members(fm[g]);
                    assert(all_output_names(fm[g]).contains(fm[g][i].identifier@));
                    assert(names.contains(fm[g][i].identifier@));
                    if fm[g][i].identifier@ == s {
                        let v = choose|v: int| 0 <= v < n && names[v] == s;
                        assert(large[v] == s);
                    }
                }
            }
            assert(entries_in_file(entries_at(mid, k), g) + entries_in_file(file_definitions(large, f, outputs, s), g)
                =~= defined_in(fs, large, g, s));
        }
    }
}

/// Processing renders the pages of a build from scratch. When the store of
/// the compiler holds exactly the current outputs of the files, whatever
/// compiles and removals led there, the nodes whose pages processing
/// produces are, by name, exactly the pages of the site built from those
/// outputs alone.
pub proof fn lemma_incremental_matches_site<B, M, D>(
    before: Compiler<B, M, D>,
    after: Compiler<B, M, D>,
    items: Seq<RenderItem>,
    deletes: Seq<Seq<char>>,
    files: Map<FileKey, Seq<NodeOutput>>,
)
    requires
        before.wf(),
        plan_outcome(before, after, items, deletes),
        mirrors(before.store(), before.names(), files),
    ensures
        after.outputs().map(|k: u32| before.names()[k as int]) == site_pages(files),
{
    lemma_rendered_match_site(before.store(), before.names(), files);
}

/// Processing deletes exactly the pages that a build from scratch no longer
/// has. When the pages before processing are, by name, those of the site
/// built from the outputs `files_before`, and the store holds exactly the
/// outputs `files`, the pages to delete are the names that were pages of
/// the first site and are not pages of the second.
pub proof fn lemma_deletes_match_site<B, M, D>(
    before: Compiler<B, M, D>,
    after: Compiler<B, M, D>,
    items: Seq<RenderItem>,
    deletes: Seq<Seq<char>>,
    files_before: Map<FileKey, Seq<NodeOutput>>,
    files: Map<FileKey, Seq<NodeOutput>>,
)
    requires
        before.wf(),
        plan_outcome(before, after, items, deletes),
        before.outputs().map(|k: u32| before.names()[k as int]) == site_pages(files_before),
        mirrors(before.store(), before.names(), files),
    ensures
        deletes.to_set() == site_pages(files_before).difference(site_pages(files)),
{
    let store = before.store();
    let names = before.names();
    let n = names.len();
    let rendered = rendered_nodes(store, n);
    let keep = |q: int| before.outputs().contains(q as u32) && !rendered.contains(q as u32);
    let all = Seq::new(n, |q: int| q);
    lemma_rendered_match_site(store, names, files);
    before.lemma_outputs_named();
    all.filter_lemma(keep);
    let kept = all.filter(keep);
    assert(deletes == kept.map_values(|k: int| names[k]));
    assert forall|x: Seq<char>| deletes.to_set().contains(x) implies site_pages(files_before).difference(site_pages(files)).contains(x) by {
        let d = choose|d: int| 0 <= d < deletes.len() && deletes[d] == x;
        let q = kept[d];
        assert(keep(q));
        assert(kept.contains(q));
        all.lemma_filter_contains_rev(keep, q);
        assert(0 <= q < n);
        let k = q as u32;
        assert(before.outputs().contains(k) && !rendered.contains(k));
        assert(names[k as int] == x);
        assert(before.outputs().map(|k: u32| names[k as int]).contains(x));
    }
    assert forall|x: Seq<char>| site_pages(files_before).difference(site_pages(files)).contains(x) implies deletes.to_set().contains(x) by {
        assert(before.outputs().map(|k: u32| names[k as int]).contains(x));
        let k = choose|k: u32| before.outputs().contains(k) && x == names[k as int];
        assert((k as int) < n);
        assert(!rendered.contains(k));
        assert(all[k as int] == k as int);
        assert(kept.contains(k as int));
        let d = choose|d: int| 0 <= d < kept.len() && kept[d] == k as int;
        assert(deletes[d] == x);
    }
    assert(deletes.to_set() =~= site_pages(files_before).difference(site_pages(files)));
}

// ---------------------------------------------------------------------------
// Diagnostics.
// ---------------------------------------------------------------------------

/// An error with the given message.
pub open spec fn error_view(message: Seq<char>) -> DiagnosticView {
    DiagnosticView { severity: Severity::Error, message }
}

/// A warning with the given message.
pub open spec fn warning_view(message: Seq<char>) -> DiagnosticView {
    DiagnosticView { severity: Severity::Warning, message }
}

/// The names of the nodes that an output links to (`link`) or transcludes.
pub open spec fn target_names(o: NodeOutput, link: bool) -> Seq<Seq<char>> {
    if link {
        o.links@.map_values(|l: String| l@)
    } else {
        transcluded_names(o)
    }
}

/// A diagnostic that a build from the outputs `files` alone gives file `f`,
/// other than those of transclusion cycles: an error for each name the file
/// defines that is defined more than once, and a warning for each name that
/// a node defined once in the file transcludes or links to and that is not
/// defined once.
pub open spec fn site_diagnostic(files: Map<FileKey, Seq<NodeOutput>>, f: FileKey, d: DiagnosticView) -> bool {
    ||| exists|j: int, s: Seq<char>|
        #[trigger] defines(files, f, j, s) && !defined_once(files, s) && d == error_view(duplicate_message(s))
    ||| exists|j: int, s: Seq<char>, link: bool, t: Seq<char>|
        #![trigger defines(files, f, j, s), target_names(files[f][j], link).contains(t)]
        defines(files, f, j, s) && defined_once(files, s) && target_names(files[f][j], link).contains(t)
            && !defined_once(files, t) && d == warning_view(dangling_message(link, t))
}

/// The names on the transclusion cycle through `c`: those that `c`
/// reaches and that reach `c`.
pub open spec fn cycle_through(files: Map<FileKey, Seq<NodeOutput>>, c: Seq<char>) -> Set<Seq<char>> {
    Set::new(|x: Seq<char>| name_reaches(files, c, x) && name_reaches(files, x, c))
}

/// `d` is the error about the transclusion cycle through `c`: its message
/// lists the names on the cycle, each once, in order.
pub open spec fn lists_cycle(files: Map<FileKey, Seq<NodeOutput>>, c: Seq<char>, d: DiagnosticView) -> bool {
    &&& d.severity == Severity::Error
    &&& exists|sorted: Seq<Seq<char>>|
        is_sorted(sorted) && sorted.no_duplicates() && sorted.to_set() == cycle_through(files, c) && d.message
            == #[trigger] cycle_message(sorted)
}

/// An error that a build from the outputs alone gives file `f` about a
/// transclusion cycle: one listing a cycle that has a name the file
/// defines.
pub open spec fn site_cycle_error(files: Map<FileKey, Seq<NodeOutput>>, f: FileKey, d: DiagnosticView) -> bool {
    exists|c: Seq<char>, x: Seq<char>, j: int|
        #![trigger cycle_through(files, c).contains(x), defines(files, f, j, x)]
        name_on_cycle(files, c) && cycle_through(files, c).contains(x) && defines(files, f, j, x) && lists_cycle(
            files,
            c,
            d,
        )
}

proof fn lemma_grouped_members(flat: Seq<(FileKey, DiagnosticView)>)
    ensures
        forall|f: FileKey, d: DiagnosticView|
            #![trigger grouped(flat)[f].contains(d)]
            #![trigger flat.contains((f, d))]
            (grouped(flat).contains_key(f) && grouped(flat)[f].contains(d)) <==> flat.contains((f, d)),
    decreases flat.len(),
{
    if flat.len() > 0 {
        let init = flat.drop_last();
        lemma_grouped_members(init);
        let g = grouped(init);
        let (lf, ld) = flat.last();
        let prev = if g.contains_key(lf) { g[lf] } else { Seq::<DiagnosticView>::empty() };
        assert(flat == init.push(flat.last()));
        assert(flat[flat.len() - 1] == flat.last());
        assert forall|f: FileKey, d: DiagnosticView|
            (grouped(flat).contains_key(f) && #[trigger] grouped(flat)[f].contains(d)) <==> flat.contains((f, d)) by {
            if flat.contains((f, d)) {
                let w = choose|w: int| 0 <= w < flat.len() && flat[w] == (f, d);
                if w < init.len() {
                    assert(init[w] == (f, d));
                    assert(init.contains((f, d)));
                    if f == lf {
                        let v = choose|v: int| 0 <= v < prev.len() && prev[v] == d;
                        assert(prev.push(ld)[v] == d);
                    }
                } else {
                    assert(prev.push(ld)[prev.len() as int] == d);
                }
            }
            if grouped(flat).contains_key(f) && grouped(flat)[f].contains(d) {
                if f == lf {
                    let v = choose|v: int| 0 <= v < prev.push(ld).len() && prev.push(ld)[v] == d;
                    if v < prev.len() {
                        assert(prev[v] == d);
                        assert(init.contains((f, d)));
                        let w = choose|w: int| 0 <= w < init.len() && init[w] == (f, d);
                        assert(flat[w] == (f, d));
                    }
                } else {
                    assert(init.contains((f, d)));
                    let w = choose|w: int| 0 <= w < init.len() && init[w] == (f, d);
                    assert(flat[w] == (f, d));
                }
            }
        }
    }
}

proof fn lemma_concat_members<A>(a: Seq<A>, b: Seq<A>)
    ensures
        forall|x: A| #[trigger] (a + b).contains(x) <==> (a.contains(x) || b.contains(x)),
{
    assert forall|x: A| #[trigger] (a + b).contains(x) <==> (a.contains(x) || b.contains(x)) by {
        if (a + b).contains(x) {
            let w = choose|w: int| 0 <= w < (a + b).len() && (a + b)[w] == x;
            if w < a.len() {
                assert(a[w] == x);
            } else {
                assert(b[w - a.len()] == x);
            }
        }
        if a.contains(x) {
            let w = choose|w: int| 0 <= w < a.len() && a[w] == x;
            assert((a + b)[w] == x);
        }
        if b.contains(x) {
            let w = choose|w: int| 0 <= w < b.len() && b[w] == x;
            assert((a + b)[a.len() + w] == x);
        }
    }
}

/// Node `q` has several entries, one of them from file `g`, and `d` is the
/// duplicate-identifier error about it.
pub open spec fn duplicate_at(
    store: Map<u32, Seq<EntryView>>,
    names: Seq<Seq<char>>,
    q: u32,
    g: FileKey,
    d: DiagnosticView,
) -> bool {
    &&& store.contains_key(q)
    &&& store[q].len() > 1
    &&& has_entry_from(store[q], g)
    &&& d == error_view(duplicate_message(names[q as int]))
}

proof fn lemma_duplicates_members(store: Map<u32, Seq<EntryView>>, names: Seq<Seq<char>>, k: nat)
    requires
        k <= u32::MAX as nat + 1,
    ensures
        forall|g: FileKey, d: DiagnosticView|
            #[trigger] duplicate_diagnostics_upto(store, names, k).contains((g, d)) <==> exists|q: u32|
                (q as int) < k && #[trigger] duplicate_at(store, names, q, g, d),
    decreases k,
{
    if k > 0 {
        lemma_duplicates_members(store, names, (k - 1) as nat);
        let prev = duplicate_diagnostics_upto(store, names, (k - 1) as nat);
        let key = (k - 1) as u32;
        assert(key as int == k - 1);
        if store.contains_key(key) && store[key].len() > 1 {
            let add = store[key].map_values(
                |e: EntryView|
                    (e.file_id, error_view(duplicate_message(names[k - 1]))),
            );
            lemma_concat_members(prev, add);
            assert forall|g: FileKey, d: DiagnosticView| #[trigger] add.contains((g, d)) <==> duplicate_at(store, names, key, g, d) by {
                if add.contains((g, d)) {
                    let w = choose|w: int| 0 <= w < add.len() && add[w] == (g, d);
                    assert(store[key][w].file_id == g);
                }
                if duplicate_at(store, names, key, g, d) {
                    let w = choose|w: int| 0 <= w < store[key].len() && (#[trigger] store[key][w]).file_id == g;
                    assert(add[w] == (g, d));
                }
            }
            assert forall|g: FileKey, d: DiagnosticView|
                #[trigger] duplicate_diagnostics_upto(store, names, k).contains((g, d)) <==> exists|q: u32|
                    (q as int) < k && #[trigger] duplicate_at(store, names, q, g, d) by {
                if exists|q: u32| (q as int) < k && #[trigger] duplicate_at(store, names, q, g, d) {
                    let q = choose|q: u32| (q as int) < k && #[trigger] duplicate_at(store, names, q, g, d);
                    if q != key {
                        assert(prev.contains((g, d)));
                    } else {
                        assert(add.contains((g, d)));
                    }
                }
            }
        } else {
            assert forall|g: FileKey, d: DiagnosticView|
                #[trigger] duplicate_diagnostics_upto(store, names, k).contains((g, d)) <==> exists|q: u32|
                    (q as int) < k && #[trigger] duplicate_at(store, names, q, g, d) by {
                if exists|q: u32| (q as int) < k && #[trigger] duplicate_at(store, names, q, g, d) {
                    let q = choose|q: u32| (q as int) < k && #[trigger] duplicate_at(store, names, q, g, d);
                    assert(q != key);
                    assert(prev.contains((g, d)));
                }
            }
        }
    }
}

proof fn lemma_distinct_ids_complete(ids: Seq<NodeId>)
    ensures
        forall|x: u32| #[trigger] distinct_ids(ids).contains(x) <==> exists|q: int| 0 <= q < ids.len() && ids[q].0 == x,
    decreases ids.len(),
{
    if ids.len() > 0 {
        let init = ids.drop_last();
        lemma_distinct_ids_complete(init);
        let d = distinct_ids(init);
        assert forall|x: u32| #[trigger] distinct_ids(ids).contains(x) <==> exists|q: int| 0 <= q < ids.len() && ids[q].0 == x by {
            if exists|q: int| 0 <= q < ids.len() && ids[q].0 == x {
                let q = choose|q: int| 0 <= q < ids.len() && ids[q].0 == x;
                if q < init.len() {
                    assert(init[q].0 == x);
                    assert(d.contains(x));
                    if !d.contains(ids.last().0) {
                        let w = choose|w: int| 0 <= w < d.len() && d[w] == x;
                        assert(d.push(ids.last().0)[w] == x);
                    }
                } else {
                    assert(ids.last().0 == x);
                    if !d.contains(x) {
                        assert(d.push(x)[d.len() as int] == x);
                    }
                }
            }
            if distinct_ids(ids).contains(x) {
                if d.contains(x) {
                    let q = choose|q: int| 0 <= q < init.len() && init[q].0 == x;
                    assert(ids[q] == init[q]);
                } else {
                    let w = choose|w: int| 0 <= w < d.push(ids.last().0).len() && d.push(ids.last().0)[w] == x;
                    assert(w == d.len());
                    assert(ids[ids.len() - 1].0 == x);
                }
            }
        }
    }
}

proof fn lemma_dangling_for_members(
    targets: Seq<u32>,
    store: Map<u32, Seq<EntryView>>,
    names: Seq<Seq<char>>,
    file: FileKey,
    link: bool,
)
    ensures
        forall|g: FileKey, d: DiagnosticView|
            #[trigger] dangling_for(targets, store, names, file, link).contains((g, d)) <==> (g == file && exists|t: u32|
                #[trigger] targets.contains(t) && !is_single(store, t) && d == warning_view(dangling_message(link, names[t as int]))),
    decreases targets.len(),
{
    if targets.len() > 0 {
        let init = targets.drop_last();
        lemma_dangling_for_members(init, store, names, file, link);
        let prev = dangling_for(init, store, names, file, link);
        let t0 = targets.last();
        assert(targets[targets.len() - 1] == t0);
        let item = (file, warning_view(dangling_message(link, names[t0 as int])));
        assert forall|g: FileKey, d: DiagnosticView|
            #[trigger] dangling_for(targets, store, names, file, link).contains((g, d)) <==> (g == file && exists|t: u32|
                #[trigger] targets.contains(t) && !is_single(store, t) && d == warning_view(dangling_message(link, names[t as int]))) by {
            let all = dangling_for(targets, store, names, file, link);
            if all.contains((g, d)) {
                let w = choose|w: int| 0 <= w < all.len() && all[w] == (g, d);
                if w < prev.len() {
                    assert(prev[w] == (g, d));
                    assert(prev.contains((g, d)));
                    let t = choose|t: u32|
                        #[trigger] init.contains(t) && !is_single(store, t) && d == warning_view(dangling_message(link, names[t as int]));
                    let v = choose|v: int| 0 <= v < init.len() && init[v] == t;
                    assert(targets[v] == t);
                    assert(targets.contains(t));
                } else {
                    assert(targets.contains(t0));
                }
            }
            if g == file && exists|t: u32|
                #[trigger] targets.contains(t) && !is_single(store, t) && d == warning_view(dangling_message(link, names[t as int])) {
                let t = choose|t: u32|
                    #[trigger] targets.contains(t) && !is_single(store, t) && d == warning_view(dangling_message(link, names[t as int]));
                let v = choose|v: int| 0 <= v < targets.len() && targets[v] == t;
                if v < init.len() {
                    assert(init[v] == t);
                    assert(init.contains(t));
                    assert(prev.contains((g, d)));
                    let w = choose|w: int| 0 <= w < prev.len() && prev[w] == (g, d);
                    if !is_single(store, t0) {
                        assert(prev.push(item)[w] == (g, d));
                    }
                } else {
                    assert(t == t0);
                    assert(prev.push(item)[prev.len() as int] == (g, d));
                }
            }
        }
    }
}

/// Node `q` is defined once, in file `g`, and `d` is the warning about one
/// of its targets (links if `link`, else transclusions) that is not defined
/// once.
pub open spec fn dangling_at(
    store: Map<u32, Seq<EntryView>>,
    names: Seq<Seq<char>>,
    q: u32,
    g: FileKey,
    d: DiagnosticView,
    link: bool,
) -> bool {
    &&& is_single(store, q)
    &&& store[q][0].file_id == g
    &&& exists|t: u32|
        #[trigger] distinct_ids(targets_of(store[q][0], link)).contains(t) && !is_single(store, t) && d
            == warning_view(dangling_message(link, names[t as int]))
}

proof fn lemma_danglings_members(store: Map<u32, Seq<EntryView>>, names: Seq<Seq<char>>, k: nat, link: bool)
    requires
        k <= u32::MAX as nat + 1,
    ensures
        forall|g: FileKey, d: DiagnosticView|
            #[trigger] dangling_diagnostics_upto(store, names, k, link).contains((g, d)) <==> exists|q: u32|
                (q as int) < k && #[trigger] dangling_at(store, names, q, g, d, link),
    decreases k,
{
    if k > 0 {
        lemma_danglings_members(store, names, (k - 1) as nat, link);
        let prev = dangling_diagnostics_upto(store, names, (k - 1) as nat, link);
        let key = (k - 1) as u32;
        assert(key as int == k - 1);
        if is_single(store, key) {
            let targets = distinct_ids(targets_of(store[key][0], link));
            let add = dangling_for(targets, store, names, store[key][0].file_id, link);
            lemma_concat_members(prev, add);
            lemma_dangling_for_members(targets, store, names, store[key][0].file_id, link);
            assert forall|g: FileKey, d: DiagnosticView|
                #[trigger] dangling_diagnostics_upto(store, names, k, link).contains((g, d)) <==> exists|q: u32|
                    (q as int) < k && #[trigger] dangling_at(store, names, q, g, d, link) by {
                if exists|q: u32| (q as int) < k && #[trigger] dangling_at(store, names, q, g, d, link) {
                    let q = choose|q: u32| (q as int) < k && #[trigger] dangling_at(store, names, q, g, d, link);
                    if q != key {
                        assert(prev.contains((g, d)));
                    } else {
                        assert(add.contains((g, d)));
                    }
                }
                if add.contains((g, d)) {
                    assert(dangling_at(store, names, key, g, d, link));
                }
            }
        } else {
            assert forall|g: FileKey, d: DiagnosticView|
                #[trigger] dangling_diagnostics_upto(store, names, k, link).contains((g, d)) <==> exists|q: u32|
                    (q as int) < k && #[trigger] dangling_at(store, names, q, g, d, link) by {
                if exists|q: u32| (q as int) < k && #[trigger] dangling_at(store, names, q, g, d, link) {
                    let q = choose|q: u32| (q as int) < k && #[trigger] dangling_at(store, names, q, g, d, link);
                    assert(q != key);
                    assert(prev.contains((g, d)));
                }
            }
        }
    }
}

/// Under mirroring, the duplicate-identifier errors of the store are those
/// that the files give.
proof fn lemma_duplicate_mirror(
    store: Map<u32, Seq<EntryView>>,
    names: Seq<Seq<char>>,
    files: Map<FileKey, Seq<NodeOutput>>,
    g: FileKey,
    d: DiagnosticView,
)
    requires
        mirrors(store, names, files),
    ensures
        (exists|q: u32| (q as int) < names.len() && #[trigger] duplicate_at(store, names, q, g, d)) <==> exists|j: int, s: Seq<char>|
            #[trigger] defines(files, g, j, s) && !defined_once(files, s) && d == error_view(duplicate_message(s)),
{
    if exists|q: u32| (q as int) < names.len() && #[trigger] duplicate_at(store, names, q, g, d) {
        let q = choose|q: u32| (q as int) < names.len() && #[trigger] duplicate_at(store, names, q, g, d);
        let s = names[q as int];
        let es = store[q];
        assert(es == entries_at(store, q));
        let w = choose|w: int| 0 <= w < es.len() && (#[trigger] es[w]).file_id == g;
        assert(es.contains(es[w]));
        lemma_entries_in_file_members(es, g);
        assert(entries_in_file(es, g).contains(es[w]));
        assert(entries_in_file(es, g) == defined_in(files, names, g, s));
        assert(files.contains_key(g));
        lemma_file_definitions_shape(names, g, files[g], s);
        let j = choose|j: int| !(0 <= j < files[g].len() ==> (#[trigger] files[g][j]).identifier@ != s);
        assert(defines(files, g, j, s));
        lemma_single_mirrors(store, names, files, q);
    }
    if exists|j: int, s: Seq<char>| #[trigger] defines(files, g, j, s) && !defined_once(files, s) && d == error_view(duplicate_message(s)) {
        let (j, s) = choose|j: int, s: Seq<char>|
            #[trigger] defines(files, g, j, s) && !defined_once(files, s) && d == error_view(duplicate_message(s));
        lemma_transcluded_named(store, names, files, g, j);
        lemma_handle_of(names, s);
        let q = key_of(names, s);
        let es = entries_at(store, q);
        assert(entries_in_file(es, g) == defined_in(files, names, g, s));
        lemma_file_definitions_shape(names, g, files[g], s);
        let e = entries_in_file(es, g);
        assert(e.len() != 0);
        assert(e.contains(e[0]));
        lemma_entries_in_file_members(es, g);
        assert(es.contains(e[0]) && e[0].file_id == g);
        let w = choose|w: int| 0 <= w < es.len() && es[w] == e[0];
        assert(store.contains_key(q));
        assert(has_entry_from(store[q], g));
        lemma_single_mirrors(store, names, files, q);
        assert(duplicate_at(store, names, q, g, d));
    }
}

/// The handle of the name of an output's target, and where it stands among
/// the targets of the output's entry.
proof fn lemma_target_handle(
    store: Map<u32, Seq<EntryView>>,
    names: Seq<Seq<char>>,
    files: Map<FileKey, Seq<NodeOutput>>,
    g: FileKey,
    j: int,
    link: bool,
    p: int,
)
    requires
        mirrors(store, names, files),
        files.contains_key(g),
        0 <= j < files[g].len(),
        0 <= p < target_names(files[g][j], link).len(),
    ensures
        targets_of(entry_of(names, g, files[g][j]), link).len() == target_names(files[g][j], link).len(),
        targets_of(entry_of(names, g, files[g][j]), link)[p].0 == key_of(names, target_names(files[g][j], link)[p]),
        (key_of(names, target_names(files[g][j], link)[p]) as int) < names.len(),
        names[key_of(names, target_names(files[g][j], link)[p]) as int] == target_names(files[g][j], link)[p],
{
    lemma_output_names_members(files[g]);
    let o = files[g][j];
    let tn = target_names(o, link)[p];
    if link {
        assert(all_output_names(files[g]).contains(files[g][j].links@[p]@));
    } else {
        assert(all_output_names(files[g]).contains(files[g][j].transclusions@[p]@));
    }
    lemma_handle_of(names, tn);
}

/// Under mirroring, the dangling-target warnings of the store are those
/// that the files give.
proof fn lemma_dangling_mirror(
    store: Map<u32, Seq<EntryView>>,
    names: Seq<Seq<char>>,
    files: Map<FileKey, Seq<NodeOutput>>,
    g: FileKey,
    d: DiagnosticView,
    link: bool,
)
    requires
        mirrors(store, names, files),
    ensures
        (exists|q: u32| (q as int) < names.len() && #[trigger] dangling_at(store, names, q, g, d, link)) <==> exists|j: int, s: Seq<char>, t: Seq<char>|
            #![trigger defines(files, g, j, s), target_names(files[g][j], link).contains(t)]
            defines(files, g, j, s) && defined_once(files, s) && target_names(files[g][j], link).contains(t)
                && !defined_once(files, t) && d == warning_view(dangling_message(link, t)),
{
    if exists|q: u32| (q as int) < names.len() && #[trigger] dangling_at(store, names, q, g, d, link) {
        let q = choose|q: u32| (q as int) < names.len() && #[trigger] dangling_at(store, names, q, g, d, link);
        let s = names[q as int];
        lemma_single_mirrors(store, names, files, q);
        let i = choose|i: int|
            #[trigger] defines(files, store[q][0].file_id, i, s) && sole_definition(files, s) == files[store[q][0].file_id][i];
        let e = store[q][0];
        assert(e == entry_of(names, g, files[g][i]));
        let t = choose|t: u32|
            #[trigger] distinct_ids(targets_of(e, link)).contains(t) && !is_single(store, t) && d == warning_view(
                dangling_message(link, names[t as int]),
            );
        lemma_distinct_ids_complete(targets_of(e, link));
        let p = choose|p: int| 0 <= p < targets_of(e, link).len() && targets_of(e, link)[p].0 == t;
        lemma_target_handle(store, names, files, g, i, link, p);
        let tn = target_names(files[g][i], link)[p];
        assert(names[t as int] == tn);
        assert(target_names(files[g][i], link).contains(tn));
        lemma_single_mirrors(store, names, files, t);
        assert(defines(files, g, i, s) && defined_once(files, s) && target_names(files[g][i], link).contains(tn)
            && !defined_once(files, tn) && d == warning_view(dangling_message(link, tn)));
    }
    if exists|j: int, s: Seq<char>, t: Seq<char>|
        #![trigger defines(files, g, j, s), target_names(files[g][j], link).contains(t)]
        defines(files, g, j, s) && defined_once(files, s) && target_names(files[g][j], link).contains(t)
            && !defined_once(files, t) && d == warning_view(dangling_message(link, t)) {
        let (j, s, tn) = choose|j: int, s: Seq<char>, t: Seq<char>|
            #![trigger defines(files, g, j, s), target_names(files[g][j], link).contains(t)]
            defines(files, g, j, s) && defined_once(files, s) && target_names(files[g][j], link).contains(t)
                && !defined_once(files, t) && d == warning_view(dangling_message(link, t));
        lemma_transcluded_named(store, names, files, g, j);
        lemma_handle_of(names, s);
        let q = key_of(names, s);
        lemma_single_mirrors(store, names, files, q);
        let i = choose|i: int|
            #[trigger] defines(files, store[q][0].file_id, i, s) && sole_definition(files, s) == files[store[q][0].file_id][i];
        lemma_sole_definition(files, s, g, j);
        assert(store[q][0].file_id == g && i == j);
        let e = store[q][0];
        assert(e == entry_of(names, g, files[g][j]));
        let p = choose|p: int| 0 <= p < target_names(files[g][j], link).len() && target_names(files[g][j], link)[p] == tn;
        lemma_target_handle(store, names, files, g, j, link, p);
        let t = key_of(names, tn);
        lemma_distinct_ids_complete(targets_of(e, link));
        assert(targets_of(e, link)[p].0 == t);
        assert(distinct_ids(targets_of(e, link)).contains(t));
        lemma_single_mirrors(store, names, files, t);
        assert(!is_single(store, t));
        assert(dangling_at(store, names, q, g, d, link));
    }
}

proof fn lemma_distinct_files_members(members: Seq<u32>, store: Map<u32, Seq<EntryView>>)
    ensures
        forall|g: FileKey| #[trigger] distinct_files(members, store).contains(g) <==> exists|p: int|
            0 <= p < members.len() && store[#[trigger] members[p]][0].file_id == g,
    decreases members.len(),
{
    if members.len() > 0 {
        let init = members.drop_last();
        lemma_distinct_files_members(init, store);
        let d = distinct_files(init, store);
        let lf = store[members.last()][0].file_id;
        assert(members[members.len() - 1] == members.last());
        assert forall|g: FileKey| #[trigger] distinct_files(members, store).contains(g) <==> exists|p: int|
            0 <= p < members.len() && store[#[trigger] members[p]][0].file_id == g by {
            if exists|p: int| 0 <= p < members.len() && store[#[trigger] members[p]][0].file_id == g {
                let p = choose|p: int| 0 <= p < members.len() && store[#[trigger] members[p]][0].file_id == g;
                if p < init.len() {
                    assert(init[p] == members[p]);
                    assert(d.contains(g));
                    if !d.contains(lf) {
                        let w = choose|w: int| 0 <= w < d.len() && d[w] == g;
                        assert(d.push(lf)[w] == g);
                    }
                } else if !d.contains(g) {
                    assert(d.push(lf)[d.len() as int] == g);
                }
            }
            if distinct_files(members, store).contains(g) {
                if d.contains(g) {
                    let p = choose|p: int| 0 <= p < init.len() && store[#[trigger] init[p]][0].file_id == g;
                    assert(members[p] == init[p]);
                } else {
                    let w = choose|w: int| 0 <= w < d.push(lf).len() && d.push(lf)[w] == g;
                    assert(w == d.len());
                }
            }
        }
    }
}

/// The error for file `g` about component `i`, a cycle with a member
/// defined in `g`.
pub open spec fn cycle_error_at(
    te: Set<(u32, u32)>,
    ss: Seq<Vec<u32>>,
    store: Map<u32, Seq<EntryView>>,
    msgs: Seq<Seq<char>>,
    i: int,
    g: FileKey,
    d: DiagnosticView,
) -> bool {
    &&& cyclic_component(te, ss, i)
    &&& distinct_files(ss[i]@, store).contains(g)
    &&& d == error_view(msgs[i])
}

proof fn lemma_cycles_members(
    te: Set<(u32, u32)>,
    ss: Seq<Vec<u32>>,
    store: Map<u32, Seq<EntryView>>,
    msgs: Seq<Seq<char>>,
    k: nat,
)
    ensures
        forall|g: FileKey, d: DiagnosticView|
            #[trigger] cycle_diagnostics_upto(te, ss, store, msgs, k).contains((g, d)) <==> exists|i: int|
                0 <= i < k && #[trigger] cycle_error_at(te, ss, store, msgs, i, g, d),
    decreases k,
{
    if k > 0 {
        lemma_cycles_members(te, ss, store, msgs, (k - 1) as nat);
        let prev = cycle_diagnostics_upto(te, ss, store, msgs, (k - 1) as nat);
        let i0 = k - 1;
        if cyclic_component(te, ss, i0) {
            let add = distinct_files(ss[i0]@, store).map_values(
                |f: FileKey| (f, DiagnosticView { severity: Severity::Error, message: msgs[i0] }),
            );
            lemma_concat_members(prev, add);
            assert forall|g: FileKey, d: DiagnosticView| #[trigger] add.contains((g, d)) <==> cycle_error_at(te, ss, store, msgs, i0, g, d) by {
                let df = distinct_files(ss[i0]@, store);
                if add.contains((g, d)) {
                    let w = choose|w: int| 0 <= w < add.len() && add[w] == (g, d);
                    assert(df[w] == g);
                    assert(df.contains(g));
                }
                if cycle_error_at(te, ss, store, msgs, i0, g, d) {
                    let w = choose|w: int| 0 <= w < df.len() && df[w] == g;
                    assert(add[w] == (g, d));
                }
            }
            assert forall|g: FileKey, d: DiagnosticView|
                #[trigger] cycle_diagnostics_upto(te, ss, store, msgs, k).contains((g, d)) <==> exists|i: int|
                    0 <= i < k && #[trigger] cycle_error_at(te, ss, store, msgs, i, g, d) by {
                if exists|i: int| 0 <= i < k && #[trigger] cycle_error_at(te, ss, store, msgs, i, g, d) {
                    let i = choose|i: int| 0 <= i < k && #[trigger] cycle_error_at(te, ss, store, msgs, i, g, d);
                    if i != i0 {
                        assert(prev.contains((g, d)));
                    } else {
                        assert(add.contains((g, d)));
                    }
                }
            }
        } else {
            assert forall|g: FileKey, d: DiagnosticView|
                #[trigger] cycle_diagnostics_upto(te, ss, store, msgs, k).contains((g, d)) <==> exists|i: int|
                    0 <= i < k && #[trigger] cycle_error_at(te, ss, store, msgs, i, g, d) by {
                if exists|i: int| 0 <= i < k && #[trigger] cycle_error_at(te, ss, store, msgs, i, g, d) {
                    let i = choose|i: int| 0 <= i < k && #[trigger] cycle_error_at(te, ss, store, msgs, i, g, d);
                    assert(i != i0);
                    assert(prev.contains((g, d)));
                }
            }
        }
    }
}

proof fn lemma_scc_member(nodes: Set<u32>, edges: Set<(u32, u32)>, ss: Seq<Vec<u32>>, i: int, p: int)
    requires
        is_scc_order(nodes, edges, ss),
        0 <= i < ss.len(),
        0 <= p < ss[i]@.len(),
    ensures
        nodes.contains(ss[i]@[p]),
        forall|q: int| 0 <= q < ss[i]@.len() && q != p ==> ss[i]@[q] != ss[i]@[p],
        forall|j: int, q: int|
            0 <= j < ss.len() && 0 <= q < ss[j]@.len() ==> ((i == j) <==> (reaches(edges, ss[i]@[p], #[trigger] ss[j]@[q])
                && reaches(edges, ss[j]@[q], ss[i]@[p]))),
{
    reveal(is_scc_order);
}

proof fn lemma_scc_cover(nodes: Set<u32>, edges: Set<(u32, u32)>, ss: Seq<Vec<u32>>, x: u32)
    requires
        is_scc_order(nodes, edges, ss),
        nodes.contains(x),
    ensures
        exists|i: int, p: int| 0 <= i < ss.len() && 0 <= p < ss[i]@.len() && #[trigger] ss[i]@[p] == x,
{
    reveal(is_scc_order);
}

/// What a node reaches from a name with a handle has a handle.
proof fn lemma_reached_named(
    store: Map<u32, Seq<EntryView>>,
    names: Seq<Seq<char>>,
    files: Map<FileKey, Seq<NodeOutput>>,
    a: Seq<char>,
    y: Seq<char>,
)
    requires
        mirrors(store, names, files),
        names.contains(a),
        name_reaches(files, a, y),
    ensures
        names.contains(y),
{
    let v = choose|v: Seq<Seq<char>>| #![trigger is_name_walk(files, v), v.last()] is_name_walk(files, v) && v[0] == a && v.last() == y;
    if v.len() > 1 {
        assert(name_transcludes(files, v[v.len() - 2], v[v.len() - 2 + 1]));
        lemma_target_named(store, names, files, v[v.len() - 2], v[v.len() - 1]);
    }
}

/// The nodes of the transclusion graph have handles, and each edge joins
/// two of them.
proof fn lemma_graph_nodes_named(
    store: Map<u32, Seq<EntryView>>,
    names: Seq<Seq<char>>,
    files: Map<FileKey, Seq<NodeOutput>>,
)
    requires
        mirrors(store, names, files),
    ensures
        forall|x: u32| #[trigger] store_graph_nodes(store, names.len()).contains(x) ==> (x as int) < names.len(),
        forall|a: u32, b: u32|
            #[trigger] store_transclusions(store).contains((a, b)) ==> store_graph_nodes(store, names.len()).contains(a)
                && store_graph_nodes(store, names.len()).contains(b),
{
    let t = store_transclusions(store);
    let nodes = store_graph_nodes(store, names.len());
    assert forall|x: u32| #[trigger] nodes.contains(x) implies (x as int) < names.len() by {
        if !((x as int) < names.len() && is_single(store, x)) {
            let a = choose|a: u32| #[trigger] t.contains((a, x));
            lemma_edges_mirror(store, names, files, a, x);
        }
    }
    assert forall|a: u32, b: u32| #[trigger] t.contains((a, b)) implies nodes.contains(a) && nodes.contains(b) by {
        lemma_edges_mirror(store, names, files, a, b);
    }
}

/// The members of a component have handles and distinct names.
proof fn lemma_component_distinct(
    store: Map<u32, Seq<EntryView>>,
    names: Seq<Seq<char>>,
    files: Map<FileKey, Seq<NodeOutput>>,
    ss: Seq<Vec<u32>>,
    i: int,
)
    requires
        mirrors(store, names, files),
        is_scc_order(store_graph_nodes(store, names.len()), store_transclusions(store), ss),
        0 <= i < ss.len(),
    ensures
        forall|q: int| 0 <= q < ss[i]@.len() ==> (#[trigger] ss[i]@[q] as int) < names.len(),
        member_names(ss[i]@, names).no_duplicates(),
{
    let t = store_transclusions(store);
    let nodes = store_graph_nodes(store, names.len());
    let mn = member_names(ss[i]@, names);
    lemma_graph_nodes_named(store, names, files);
    assert forall|q: int| 0 <= q < ss[i]@.len() implies (#[trigger] ss[i]@[q] as int) < names.len() by {
        lemma_scc_member(nodes, t, ss, i, q);
    }
    assert forall|a: int, b: int| 0 <= a < mn.len() && 0 <= b < mn.len() && a != b implies mn[a] != mn[b] by {
        lemma_scc_member(nodes, t, ss, i, a);
        assert(ss[i]@[a] != ss[i]@[b]);
        assert((ss[i]@[a] as int) < names.len() && (ss[i]@[b] as int) < names.len());
    }
}

/// A name on the cycle through a member of a component is the name of a
/// member.
#[verifier::spinoff_prover]
proof fn lemma_cycle_name_member(
    store: Map<u32, Seq<EntryView>>,
    names: Seq<Seq<char>>,
    files: Map<FileKey, Seq<NodeOutput>>,
    ss: Seq<Vec<u32>>,
    i: int,
    p: int,
    y: Seq<char>,
)
    requires
        mirrors(store, names, files),
        is_scc_order(store_graph_nodes(store, names.len()), store_transclusions(store), ss),
        0 <= i < ss.len(),
        0 <= p < ss[i]@.len(),
        cycle_through(files, names[ss[i]@[p] as int]).contains(y),
    ensures
        member_names(ss[i]@, names).contains(y),
{
    let t = store_transclusions(store);
    let nodes = store_graph_nodes(store, names.len());
    let m = ss[i]@[p];
    lemma_component_distinct(store, names, files, ss, i);
    let c = names[m as int];
    assert(names.contains(c)) by {
        assert((m as int) < names.len());
    }
    lemma_reached_named(store, names, files, c, y);
    lemma_handle_of(names, y);
    let yi = key_of(names, y);
    lemma_reaches_mirror(store, names, files, m, yi);
    lemma_reaches_mirror(store, names, files, yi, m);
    lemma_scc_member(nodes, t, ss, i, p);
    assert(nodes.contains(yi)) by {
        if yi != m {
            lemma_reaches_unfold(t, yi, m);
            let z = choose|z: u32| #[trigger] t.contains((yi, z)) && reaches(t, z, m);
            assert(is_single(store, yi));
        }
    }
    lemma_scc_cover(nodes, t, ss, yi);
    let (j, q) = choose|j: int, q: int| 0 <= j < ss.len() && 0 <= q < ss[j]@.len() && #[trigger] ss[j]@[q] == yi;
    assert(reaches(t, ss[i]@[p], ss[j]@[q]) && reaches(t, ss[j]@[q], ss[i]@[p]));
    assert(j == i);
    assert(member_names(ss[i]@, names)[q] == y);
}

/// The names of the members of a component are distinct, and they are the
/// names on the cycle through any member.
proof fn lemma_component_names(
    store: Map<u32, Seq<EntryView>>,
    names: Seq<Seq<char>>,
    files: Map<FileKey, Seq<NodeOutput>>,
    ss: Seq<Vec<u32>>,
    i: int,
    p: int,
)
    requires
        mirrors(store, names, files),
        is_scc_order(store_graph_nodes(store, names.len()), store_transclusions(store), ss),
        0 <= i < ss.len(),
        0 <= p < ss[i]@.len(),
    ensures
        member_names(ss[i]@, names).no_duplicates(),
        member_names(ss[i]@, names).to_set() == cycle_through(files, names[ss[i]@[p] as int]),
{
    let t = store_transclusions(store);
    let nodes = store_graph_nodes(store, names.len());
    let mn = member_names(ss[i]@, names);
    let m = ss[i]@[p];
    lemma_component_distinct(store, names, files, ss, i);
    assert forall|y: Seq<char>| mn.to_set().contains(y) <==> cycle_through(files, names[m as int]).contains(y) by {
        if mn.contains(y) {
            let q = choose|q: int| 0 <= q < mn.len() && mn[q] == y;
            let mq = ss[i]@[q];
            lemma_scc_member(nodes, t, ss, i, p);
            assert(reaches(t, ss[i]@[p], ss[i]@[q]) && reaches(t, ss[i]@[q], ss[i]@[p]));
            lemma_reaches_mirror(store, names, files, m, mq);
            lemma_reaches_mirror(store, names, files, mq, m);
        }
        if cycle_through(files, names[m as int]).contains(y) {
            lemma_cycle_name_member(store, names, files, ss, i, p, y);
        }
    }
    assert(mn.to_set() =~= cycle_through(files, names[m as int]));
}

/// The message of a cyclic component lists the names on the cycle through
/// any of its members.
proof fn lemma_cycle_message_lists(
    store: Map<u32, Seq<EntryView>>,
    names: Seq<Seq<char>>,
    files: Map<FileKey, Seq<NodeOutput>>,
    ss: Seq<Vec<u32>>,
    msgs: Seq<Seq<char>>,
    i: int,
    p: int,
)
    requires
        mirrors(store, names, files),
        is_scc_order(store_graph_nodes(store, names.len()), store_transclusions(store), ss),
        cycle_messages_ok(store_transclusions(store), ss, names, msgs),
        0 <= i < ss.len(),
        0 <= p < ss[i]@.len(),
        cyclic_component(store_transclusions(store), ss, i),
    ensures
        lists_cycle(files, names[ss[i]@[p] as int], error_view(msgs[i])),
{
    broadcast use vstd::seq_lib::group_to_multiset_ensures;
    lemma_component_names(store, names, files, ss, i, p);
    let mn = member_names(ss[i]@, names);
    assert(is_cycle_message(msgs[i], ss[i]@, names));
    let sorted = choose|sorted: Seq<Seq<char>>|
        sorted.to_multiset() == mn.to_multiset() && is_sorted(sorted) && msgs[i] == cycle_message(sorted);
    mn.lemma_multiset_has_no_duplicates();
    sorted.lemma_multiset_has_no_duplicates_conv();
    assert forall|y: Seq<char>| sorted.to_set().contains(y) <==> mn.to_set().contains(y) by {
        assert(sorted.contains(y) <==> sorted.to_multiset().count(y) > 0);
        assert(mn.contains(y) <==> mn.to_multiset().count(y) > 0);
    }
    assert(sorted.to_set() =~= mn.to_set());
}

/// A cycle with a name that file `f` defines is reported to `f` by the
/// error of its component, which lists the names on the cycle.
#[verifier::spinoff_prover]
proof fn lemma_cycle_reported(
    store: Map<u32, Seq<EntryView>>,
    names: Seq<Seq<char>>,
    files: Map<FileKey, Seq<NodeOutput>>,
    ss: Seq<Vec<u32>>,
    msgs: Seq<Seq<char>>,
    f: FileKey,
    cn: Seq<char>,
    x: Seq<char>,
    j: int,
)
    requires
        mirrors(store, names, files),
        is_scc_order(store_graph_nodes(store, names.len()), store_transclusions(store), ss),
        cycle_messages_ok(store_transclusions(store), ss, names, msgs),
        name_on_cycle(files, cn),
        cycle_through(files, cn).contains(x),
        defines(files, f, j, x),
    ensures
        exists|i: int|
            0 <= i < ss.len() && #[trigger] cycle_error_at(store_transclusions(store), ss, store, msgs, i, f, error_view(msgs[i]))
                && lists_cycle(files, cn, error_view(msgs[i])),
{
    let t = store_transclusions(store);
    let n = names.len();
    let nodes = store_graph_nodes(store, n);
    lemma_graph_nodes_named(store, names, files);
    let m = choose|m: Seq<char>| #[trigger] name_transcludes(files, cn, m) && name_reaches(files, m, cn);
    lemma_target_named(store, names, files, cn, m);
    lemma_handle_of(names, cn);
    lemma_handle_of(names, m);
    let ci = key_of(names, cn);
    let mi = key_of(names, m);
    lemma_edges_mirror(store, names, files, ci, mi);
    lemma_reaches_mirror(store, names, files, mi, ci);
    assert(on_cycle(t, ci));
    assert(nodes.contains(ci));
    lemma_scc_cover(nodes, t, ss, ci);
    let (i, p) = choose|i: int, p: int| 0 <= i < ss.len() && 0 <= p < ss[i]@.len() && #[trigger] ss[i]@[p] == ci;
    lemma_scc_cycles(nodes, t, ss, i);
    assert(cyclic_component(t, ss, i)) by {
        if ss[i]@.len() <= 1 {
            assert(p == 0);
        }
    }
    lemma_component_names(store, names, files, ss, i, p);
    let mn = member_names(ss[i]@, names);
    assert(mn.to_set().contains(x));
    let q = choose|q: int| 0 <= q < mn.len() && mn[q] == x;
    let xi = ss[i]@[q];
    assert(on_cycle(t, ss[i]@[q]));
    let z = choose|z: u32| #[trigger] t.contains((xi, z)) && reaches(t, z, xi);
    assert(is_single(store, xi));
    lemma_edges_mirror(store, names, files, xi, z);
    lemma_single_mirrors(store, names, files, xi);
    let i2 = choose|i2: int|
        #[trigger] defines(files, store[xi][0].file_id, i2, names[xi as int]) && sole_definition(files, names[xi as int])
            == files[store[xi][0].file_id][i2];
    lemma_sole_definition(files, x, f, j);
    assert(store[xi][0].file_id == f);
    lemma_distinct_files_members(ss[i]@, store);
    assert(distinct_files(ss[i]@, store).contains(f));
    lemma_cycle_message_lists(store, names, files, ss, msgs, i, p);
    assert(cycle_error_at(t, ss, store, msgs, i, f, error_view(msgs[i])));
}

/// The error of a cyclic component reported to file `f` is the error of a
/// cycle with a name that `f` defines.
#[verifier::spinoff_prover]
proof fn lemma_cycle_error_listed(
    store: Map<u32, Seq<EntryView>>,
    names: Seq<Seq<char>>,
    files: Map<FileKey, Seq<NodeOutput>>,
    ss: Seq<Vec<u32>>,
    msgs: Seq<Seq<char>>,
    i: int,
    f: FileKey,
    d: DiagnosticView,
)
    requires
        mirrors(store, names, files),
        is_scc_order(store_graph_nodes(store, names.len()), store_transclusions(store), ss),
        cycle_messages_ok(store_transclusions(store), ss, names, msgs),
        0 <= i < ss.len(),
        cycle_error_at(store_transclusions(store), ss, store, msgs, i, f, d),
    ensures
        site_cycle_error(files, f, d),
{
    let t = store_transclusions(store);
    let nodes = store_graph_nodes(store, names.len());
    lemma_graph_nodes_named(store, names, files);
    lemma_distinct_files_members(ss[i]@, store);
    let p = choose|p: int| 0 <= p < ss[i]@.len() && store[#[trigger] ss[i]@[p]][0].file_id == f;
    let m = ss[i]@[p];
    lemma_scc_cycles(nodes, t, ss, i);
    assert(on_cycle(t, ss[i]@[p]));
    let z = choose|z: u32| #[trigger] t.contains((m, z)) && reaches(t, z, m);
    lemma_edges_mirror(store, names, files, m, z);
    lemma_reaches_mirror(store, names, files, z, m);
    let cn = names[m as int];
    assert(name_transcludes(files, cn, names[z as int]));
    assert(name_on_cycle(files, cn));
    lemma_single_mirrors(store, names, files, m);
    let j = choose|j: int|
        #[trigger] defines(files, store[m][0].file_id, j, cn) && sole_definition(files, cn) == files[store[m][0].file_id][j];
    let w = seq![cn];
    assert(is_name_walk(files, w) && w[0] == cn && w.last() == cn);
    assert(cycle_through(files, cn).contains(cn));
    lemma_cycle_message_lists(store, names, files, ss, msgs, i, p);
    assert(defines(files, f, j, cn));
}

/// Processing reports the diagnostics of a build from scratch. When the
/// store holds exactly the current outputs of the files: every
/// duplicate-identifier error and dangling-target warning that a build from
/// those outputs alone gives a file is among the diagnostics that
/// processing records for the file; for every transclusion cycle with a
/// name that a file defines, the file's diagnostics hold an error listing
/// the names on the cycle in order; and every diagnostic recorded is one of
/// these.
pub proof fn lemma_diagnostics_match_site<B, M, D>(
    before: Compiler<B, M, D>,
    after: Compiler<B, M, D>,
    items: Seq<RenderItem>,
    deletes: Seq<Seq<char>>,
    files: Map<FileKey, Seq<NodeOutput>>,
)
    requires
        before.wf(),
        plan_outcome(before, after, items, deletes),
        mirrors(before.store(), before.names(), files),
    ensures
        forall|f: FileKey, d: DiagnosticView|
            #[trigger] site_diagnostic(files, f, d) ==> after.process_diagnostics_map().contains_key(f)
                && after.process_diagnostics_map()[f].contains(d),
        forall|f: FileKey, c: Seq<char>, x: Seq<char>, j: int|
            name_on_cycle(files, c) && #[trigger] cycle_through(files, c).contains(x) && #[trigger] defines(files, f, j, x)
                ==> exists|d: DiagnosticView|
                after.process_diagnostics_map().contains_key(f) && #[trigger] after.process_diagnostics_map()[f].contains(d)
                    && lists_cycle(files, c, d),
        forall|f: FileKey, d: DiagnosticView|
            after.process_diagnostics_map().contains_key(f) && #[trigger] after.process_diagnostics_map()[f].contains(d)
                ==> site_diagnostic(files, f, d) || site_cycle_error(files, f, d),
{
    let store = before.store();
    let names = before.names();
    let n = names.len();
    let t = store_transclusions(store);
    let nodes = store_graph_nodes(store, n);
    let (ss, msgs) = choose|ss: Seq<Vec<u32>>, msgs: Seq<Seq<char>>|
        is_scc_order(nodes, t, ss) && cycle_messages_ok(t, ss, names, msgs)
            && after.process_diagnostics_map() == grouped(
            duplicate_diagnostics_upto(store, names, n) + dangling_diagnostics_upto(store, names, n, false)
                + dangling_diagnostics_upto(store, names, n, true) + cycle_diagnostics_upto(t, ss, store, msgs, ss.len()),
        );
    let a = duplicate_diagnostics_upto(store, names, n);
    let b = dangling_diagnostics_upto(store, names, n, false);
    let c = dangling_diagnostics_upto(store, names, n, true);
    let e = cycle_diagnostics_upto(t, ss, store, msgs, ss.len());
    let flat = a + b + c + e;
    lemma_grouped_members(flat);
    lemma_concat_members(a + b + c, e);
    lemma_concat_members(a + b, c);
    lemma_concat_members(a, b);
    lemma_duplicates_members(store, names, n);
    lemma_danglings_members(store, names, n, false);
    lemma_danglings_members(store, names, n, true);
    lemma_cycles_members(t, ss, store, msgs, ss.len());
    lemma_graph_nodes_named(store, names, files);
    let pd = after.process_diagnostics_map();
    assert forall|f: FileKey, d: DiagnosticView| #[trigger] site_diagnostic(files, f, d) implies pd.contains_key(f)
        && pd[f].contains(d) by {
        lemma_duplicate_mirror(store, names, files, f, d);
        lemma_dangling_mirror(store, names, files, f, d, false);
        lemma_dangling_mirror(store, names, files, f, d, true);
        if exists|j: int, s: Seq<char>| #[trigger] defines(files, f, j, s) && !defined_once(files, s) && d == error_view(duplicate_message(s)) {
            assert(a.contains((f, d)));
        } else {
            let (j, s, link, tn) = choose|j: int, s: Seq<char>, link: bool, tn: Seq<char>|
                #![trigger defines(files, f, j, s), target_names(files[f][j], link).contains(tn)]
                defines(files, f, j, s) && defined_once(files, s) && target_names(files[f][j], link).contains(tn)
                    && !defined_once(files, tn) && d == warning_view(dangling_message(link, tn));
            if link {
                assert(c.contains((f, d)));
            } else {
                assert(b.contains((f, d)));
            }
        }
        assert(flat.contains((f, d)));
    }
    assert forall|f: FileKey, cn: Seq<char>, x: Seq<char>, j: int|
        name_on_cycle(files, cn) && #[trigger] cycle_through(files, cn).contains(x) && #[trigger] defines(files, f, j, x)
        implies exists|d: DiagnosticView| pd.contains_key(f) && #[trigger] pd[f].contains(d) && lists_cycle(files, cn, d) by {
        lemma_cycle_reported(store, names, files, ss, msgs, f, cn, x, j);
        let i = choose|i: int|
            0 <= i < ss.len() && #[trigger] cycle_error_at(t, ss, store, msgs, i, f, error_view(msgs[i]))
                && lists_cycle(files, cn, error_view(msgs[i]));
        let d = error_view(msgs[i]);
        assert(e.contains((f, d)));
        assert(flat.contains((f, d)));
        assert(pd[f].contains(d));
    }
    assert forall|f: FileKey, d: DiagnosticView| pd.contains_key(f) && #[trigger] pd[f].contains(d) implies site_diagnostic(
        files,
        f,
        d,
    ) || site_cycle_error(files, f, d) by {
        assert(flat.contains((f, d)));
        lemma_duplicate_mirror(store, names, files, f, d);
        lemma_dangling_mirror(store, names, files, f, d, false);
        lemma_dangling_mirror(store, names, files, f, d, true);
        if a.contains((f, d)) {
            let q = choose|q: u32| (q as int) < n && #[trigger] duplicate_at(store, names, q, f, d);
        } else if b.contains((f, d)) {
            let q = choose|q: u32| (q as int) < n && #[trigger] dangling_at(store, names, q, f, d, false);
        } else if c.contains((f, d)) {
            let q = choose|q: u32| (q as int) < n && #[trigger] dangling_at(store, names, q, f, d, true);
        } else {
            let i = choose|i: int| 0 <= i < ss.len() && #[trigger] cycle_error_at(t, ss, store, msgs, i, f, d);
            lemma_cycle_error_listed(store, names, files, ss, msgs, i, f, d);
        }
    }
}

// ---------------------------------------------------------------------------
// Compile diagnostics.
// ---------------------------------------------------------------------------

/// The compile diagnostics of a build from the last compile of each file
/// alone (its warnings, and its errors when it failed): a file that failed
/// reports its warnings and errors, a file that compiled reports its
/// warnings when it has some, and other files report nothing.
pub open spec fn compile_report<D>(last: Map<FileKey, (Seq<D>, Option<Seq<D>>)>) -> Map<FileKey, (Seq<D>, Seq<D>)> {
    Map::new(
        |f: FileKey| last.contains_key(f) && (last[f].1 is Some || last[f].0.len() > 0),
        |f: FileKey|
            (
                last[f].0,
                match last[f].1 {
                    Some(errors) => errors,
                    None => Seq::<D>::empty(),
                },
            ),
    )
}

/// A compiler with nothing compiled reports what no compile reports.
pub proof fn lemma_nothing_reported<D>()
    ensures
        compile_report(Map::<FileKey, (Seq<D>, Option<Seq<D>>)>::empty()) == Map::<FileKey, (Seq<D>, Seq<D>)>::empty(),
{
    assert(compile_report(Map::<FileKey, (Seq<D>, Option<Seq<D>>)>::empty()) =~= Map::<FileKey, (Seq<D>, Seq<D>)>::empty());
}

/// Compiling file `f` with `warnings`, and `errors` when it fails, changes
/// the compile diagnostics as the update records them, and keeps them those
/// of a build from the last compile of each file.
pub proof fn lemma_update_reported<D>(
    map: Map<FileKey, (Seq<D>, Seq<D>)>,
    last: Map<FileKey, (Seq<D>, Option<Seq<D>>)>,
    f: FileKey,
    warnings: Seq<D>,
    errors: Option<Seq<D>>,
)
    requires
        map == compile_report(last),
    ensures
        compile_report(last.insert(f, (warnings, errors))) == match errors {
            Some(e) => map.insert(f, (warnings, e)),
            None => if warnings.len() == 0 {
                map.remove(f)
            } else {
                map.insert(f, (warnings, Seq::<D>::empty()))
            },
        },
{
    let r = compile_report(last.insert(f, (warnings, errors)));
    match errors {
        Some(e) => {
            assert(r =~= map.insert(f, (warnings, e)));
        },
        None => {
            if warnings.len() == 0 {
                assert(r =~= map.remove(f));
            } else {
                assert(r =~= map.insert(f, (warnings, Seq::<D>::empty())));
            }
        },
    }
}

/// Removing file `f` keeps the compile diagnostics those of a build from the
/// last compile of each remaining file.
pub proof fn lemma_remove_reported<D>(
    map: Map<FileKey, (Seq<D>, Seq<D>)>,
    last: Map<FileKey, (Seq<D>, Option<Seq<D>>)>,
    f: FileKey,
)
    requires
        map == compile_report(last),
    ensures
        compile_report(last.remove(f)) == map.remove(f),
{
    assert(compile_report(last.remove(f)) =~= map.remove(f));
}

} // verus!
