use vstd::prelude::*;

use crate::compiler::{
    key_of, lemma_other_files_members, lemma_with_outputs_shape, only_from,
    output_keys, rendered_nodes, singles, store_links, store_transclusions, touched_by, with_outputs,
    without_file, EntryView, is_single, plan_outcome, Compiler, NodeOutput,
};
use crate::graph::{is_walk, reaches};
use crate::process::{body_affected, changed_locally, on_cycle, renderable, unrenderable};

verus! {

/// The changes from the store `last` to the store `store` are recorded:
/// every node whose entries differ (or that is new) is dirty, and every node
/// that disappeared is removed.
pub open spec fn changes_tracked(
    last: Map<u32, Seq<EntryView>>,
    store: Map<u32, Seq<EntryView>>,
    dirty: Set<u32>,
    removed: Set<u32>,
) -> bool {
    &&& forall|k: u32|
        #[trigger] store.contains_key(k) && !(last.contains_key(k) && last[k] == store[k]) ==> dirty.contains(k)
    &&& forall|k: u32| #[trigger] last.contains_key(k) && !store.contains_key(k) ==> removed.contains(k)
}

/// Removing a file keeps the changes since `last` recorded.
pub proof fn lemma_remove_keeps_changes(
    last: Map<u32, Seq<EntryView>>,
    store: Map<u32, Seq<EntryView>>,
    dirty: Set<u32>,
    removed: Set<u32>,
    f: u16,
)
    requires
        forall|k: u32| #[trigger] store.contains_key(k) ==> store[k].len() > 0,
        changes_tracked(last, store, dirty, removed),
    ensures
        changes_tracked(
            last,
            without_file(store, f),
            dirty.union(touched_by(store, f)).difference(only_from(store, f)),
            removed.union(only_from(store, f)),
        ),
{
    let after = without_file(store, f);
    let d = dirty.union(touched_by(store, f)).difference(only_from(store, f));
    let r = removed.union(only_from(store, f));
    assert forall|k: u32| #[trigger] after.contains_key(k) && !(last.contains_key(k) && last[k] == after[k]) implies d.contains(k) by {
        lemma_other_files_members(store[k], f);
        assert(!only_from(store, f).contains(k));
        if !touched_by(store, f).contains(k) {
            assert(after[k] == store[k]);
        }
    }
    assert forall|k: u32| #[trigger] last.contains_key(k) && !after.contains_key(k) implies r.contains(k) by {
        if store.contains_key(k) {
            lemma_other_files_members(store[k], f);
            assert(only_from(store, f).contains(k));
        }
    }
}

/// Appending the entries of outputs leaves the nodes they do not define as
/// they were.
proof fn lemma_with_outputs_untouched(
    store: Map<u32, Seq<EntryView>>,
    names: Seq<Seq<char>>,
    f: u16,
    outputs: Seq<NodeOutput>,
    k: u32,
)
    requires
        !output_keys(names, outputs).contains(k),
    ensures
        with_outputs(store, names, f, outputs).contains_key(k) == store.contains_key(k),
        store.contains_key(k) ==> with_outputs(store, names, f, outputs)[k] == store[k],
    decreases outputs.len(),
{
    if outputs.len() > 0 {
        let init = outputs.drop_last();
        assert(!output_keys(names, init).contains(k)) by {
            if output_keys(names, init).contains(k) {
                let i = choose|i: int| 0 <= i < init.len() && k == key_of(names, (#[trigger] init[i]).identifier@);
                assert(outputs[i] == init[i]);
            }
        }
        lemma_with_outputs_untouched(store, names, f, init, k);
        let last_key = key_of(names, outputs.last().identifier@);
        assert(outputs[outputs.len() - 1] == outputs.last());
        assert(last_key != k);
    }
}

/// Compiling a file afresh keeps the changes since `last` recorded.
pub proof fn lemma_update_keeps_changes(
    last: Map<u32, Seq<EntryView>>,
    store: Map<u32, Seq<EntryView>>,
    names: Seq<Seq<char>>,
    dirty: Set<u32>,
    removed: Set<u32>,
    f: u16,
    outputs: Seq<NodeOutput>,
)
    requires
        forall|k: u32| #[trigger] store.contains_key(k) ==> store[k].len() > 0,
        changes_tracked(last, store, dirty, removed),
    ensures
        changes_tracked(
            last,
            with_outputs(without_file(store, f), names, f, outputs),
            dirty.union(touched_by(store, f)).difference(only_from(store, f)).union(output_keys(names, outputs)),
            removed.union(only_from(store, f)).difference(output_keys(names, outputs)),
        ),
{
    lemma_remove_keeps_changes(last, store, dirty, removed, f);
    let mid = without_file(store, f);
    let d1 = dirty.union(touched_by(store, f)).difference(only_from(store, f));
    let r1 = removed.union(only_from(store, f));
    let keys = output_keys(names, outputs);
    let after = with_outputs(mid, names, f, outputs);
    assert forall|k: u32| #[trigger] mid.contains_key(k) implies mid[k].len() > 0 by {}
    lemma_with_outputs_shape(mid, names, f, outputs);
    assert forall|k: u32| #[trigger] after.contains_key(k) && !(last.contains_key(k) && last[k] == after[k]) implies d1.union(
        keys,
    ).contains(k) by {
        if !keys.contains(k) {
            lemma_with_outputs_untouched(mid, names, f, outputs, k);
        }
    }
    assert forall|k: u32| #[trigger] last.contains_key(k) && !after.contains_key(k) implies r1.difference(keys).contains(
        k,
    ) by {
        if !keys.contains(k) {
            lemma_with_outputs_untouched(mid, names, f, outputs, k);
        }
    }
}

/// A node is unchanged: neither dirty nor removed.
pub open spec fn unchanged(dirty: Set<u32>, removed: Set<u32>, a: u32) -> bool {
    !dirty.contains(a) && !removed.contains(a)
}

/// An unchanged node that had transclusions keeps them.
proof fn lemma_unchanged_keeps_edges(
    last: Map<u32, Seq<EntryView>>,
    store: Map<u32, Seq<EntryView>>,
    dirty: Set<u32>,
    removed: Set<u32>,
    a: u32,
    b: u32,
)
    requires
        changes_tracked(last, store, dirty, removed),
        unchanged(dirty, removed, a),
        store_transclusions(last).contains((a, b)),
    ensures
        store_transclusions(store).contains((a, b)),
{
    assert(last.contains_key(a));
    assert(store.contains_key(a));
    assert(store[a] == last[a]);
}

/// A walk of `last` whose nodes before the last are unchanged is a walk of
/// the current store.
proof fn lemma_walk_kept(
    last: Map<u32, Seq<EntryView>>,
    store: Map<u32, Seq<EntryView>>,
    dirty: Set<u32>,
    removed: Set<u32>,
    w: Seq<u32>,
)
    requires
        changes_tracked(last, store, dirty, removed),
        is_walk(store_transclusions(last), w),
        forall|q: int| 0 <= q < w.len() - 1 ==> unchanged(dirty, removed, #[trigger] w[q]),
    ensures
        is_walk(store_transclusions(store), w),
{
    assert forall|q: int| 0 <= q < w.len() - 1 implies store_transclusions(store).contains((#[trigger] w[q], w[q + 1])) by {
        lemma_unchanged_keeps_edges(last, store, dirty, removed, w[q], w[q + 1]);
    }
}

/// Some node of `w` up to `q` is changed: there is a first one.
proof fn lemma_first_changed(dirty: Set<u32>, removed: Set<u32>, w: Seq<u32>, q: int) -> (i: int)
    requires
        0 <= q < w.len(),
        !unchanged(dirty, removed, w[q]),
    ensures
        0 <= i <= q,
        !unchanged(dirty, removed, w[i]),
        forall|j: int| 0 <= j < i ==> unchanged(dirty, removed, #[trigger] w[j]),
    decreases q,
{
    if exists|j: int| 0 <= j < q && !unchanged(dirty, removed, #[trigger] w[j]) {
        let j = choose|j: int| 0 <= j < q && !unchanged(dirty, removed, #[trigger] w[j]);
        lemma_first_changed(dirty, removed, w, j)
    } else {
        q
    }
}

/// The prefix of a walk is a walk.
proof fn lemma_walk_take(edges: Set<(u32, u32)>, w: Seq<u32>, n: int)
    requires
        is_walk(edges, w),
        1 <= n <= w.len(),
    ensures
        is_walk(edges, w.take(n)),
{
    let p = w.take(n);
    assert forall|q: int| 0 <= q < p.len() - 1 implies edges.contains((#[trigger] p[q], p[q + 1])) by {
        assert(p[q] == w[q] && p[q + 1] == w[q + 1]);
    }
}

/// The suffix of a walk is a walk.
proof fn lemma_walk_skip(edges: Set<(u32, u32)>, w: Seq<u32>, n: int)
    requires
        is_walk(edges, w),
        0 <= n < w.len(),
    ensures
        is_walk(edges, w.skip(n)),
{
    let p = w.skip(n);
    assert forall|q: int| 0 <= q < p.len() - 1 implies edges.contains((#[trigger] p[q], p[q + 1])) by {
        assert(p[q] == w[q + n] && p[q + 1] == w[q + n + 1]);
    }
}

/// A walk followed by an edge and another walk is a walk.
#[verifier::rlimit(30)]
proof fn lemma_walk_join(edges: Set<(u32, u32)>, a: Seq<u32>, b: Seq<u32>)
    requires
        is_walk(edges, a),
        is_walk(edges, b),
        edges.contains((a.last(), b[0])),
    ensures
        is_walk(edges, a + b),
        (a + b).take(a.len() as int) == a,
        (a + b).skip(a.len() as int) == b,
{
    let w = a + b;
    let na = a.len() as int;
    assert(w.take(na) =~= a);
    assert(w.skip(na) =~= b);
    assert forall|q: int| 0 <= q < w.len() - 1 implies edges.contains((#[trigger] w[q], w[q + 1])) by {
        if q < na - 1 {
            assert(w[q] == a[q]);
            assert(w[q + 1] == a[q + 1]);
        } else if q == na - 1 {
            assert(w[q] == a[na - 1]);
            assert(w[q + 1] == b[0]);
        } else {
            assert(w[q] == b[q - na]);
            assert(w[q + 1] == b[q - na + 1]);
        }
    }
}

/// If every node of a walk from `k` to the cycle through `c` and `m` is
/// unchanged, `k` still reaches that cycle.
proof fn lemma_lasso_kept(
    last: Map<u32, Seq<EntryView>>,
    store: Map<u32, Seq<EntryView>>,
    dirty: Set<u32>,
    removed: Set<u32>,
    w1: Seq<u32>,
    w2: Seq<u32>,
    c: u32,
    m: u32,
)
    requires
        changes_tracked(last, store, dirty, removed),
        is_walk(store_transclusions(last), w1),
        is_walk(store_transclusions(last), w2),
        w1.last() == c,
        w2[0] == m,
        w2.last() == c,
        store_transclusions(last).contains((c, m)),
        forall|q: int| 0 <= q < (w1 + w2).len() ==> unchanged(dirty, removed, #[trigger] (w1 + w2)[q]),
    ensures
        unrenderable(store_transclusions(store), w1[0]),
{
    let t_last = store_transclusions(last);
    let t_new = store_transclusions(store);
    lemma_walk_join(t_last, w1, w2);
    let w = w1 + w2;
    lemma_walk_kept(last, store, dirty, removed, w);
    lemma_walk_take(t_new, w, w1.len() as int);
    lemma_walk_skip(t_new, w, w1.len() as int);
    assert(w[w1.len() - 1] == c);
    lemma_unchanged_keeps_edges(last, store, dirty, removed, c, m);
    assert(is_walk(t_new, w1) && w1[0] == w1[0] && w1.last() == c);
    assert(reaches(t_new, w1[0], c));
    assert(is_walk(t_new, w2) && w2[0] == m && w2.last() == c);
    assert(reaches(t_new, m, c));
    assert(on_cycle(t_new, c));
}

/// If some node of a walk from an unchanged node of the store is changed,
/// the body of the walk's first node is affected.
proof fn lemma_changed_on_walk(
    last: Map<u32, Seq<EntryView>>,
    store: Map<u32, Seq<EntryView>>,
    dirty: Set<u32>,
    removed: Set<u32>,
    w: Seq<u32>,
    q: int,
)
    requires
        changes_tracked(last, store, dirty, removed),
        forall|x: u32| #[trigger] removed.contains(x) ==> !store.contains_key(x),
        is_walk(store_transclusions(last), w),
        store.contains_key(w[0]),
        0 <= q < w.len(),
        !unchanged(dirty, removed, w[q]),
    ensures
        body_affected(store_transclusions(store), store_links(store), dirty, removed, w[0]),
{
    let t_new = store_transclusions(store);
    let l_new = store_links(store);
    let t_last = store_transclusions(last);
    let i = lemma_first_changed(dirty, removed, w, q);
    let prefix = w.take(i + 1);
    lemma_walk_take(t_last, w, i + 1);
    assert forall|j: int| 0 <= j < prefix.len() - 1 implies unchanged(dirty, removed, #[trigger] prefix[j]) by {
        assert(prefix[j] == w[j]);
    }
    lemma_walk_kept(last, store, dirty, removed, prefix);
    if dirty.contains(w[i]) {
        assert(prefix.last() == w[i]);
        assert(prefix[0] == w[0]);
        assert(reaches(t_new, w[0], w[i]));
        assert(changed_locally(t_new, l_new, dirty, removed, w[i]));
    } else {
        assert(removed.contains(w[i]));
        assert(i > 0);
        let p = prefix.take(i);
        lemma_walk_take(t_new, prefix, i);
        assert(p.last() == w[i - 1]);
        assert(p[0] == w[0]);
        assert(reaches(t_new, w[0], w[i - 1]));
        assert(t_new.contains((prefix[i - 1], prefix[i])));
        assert(prefix[i - 1] == w[i - 1] && prefix[i] == w[i]);
        assert(changed_locally(t_new, l_new, dirty, removed, w[i - 1]));
    }
}

/// A node that is renderable now but was not renderable in `last` has an
/// affected body: it changed itself, or it reaches a changed node, or one
/// that transcludes a removed node. The changes since `last` must be
/// recorded.
#[verifier::rlimit(80)]
#[verifier::spinoff_prover]
pub proof fn lemma_newly_renderable_affected(
    last: Map<u32, Seq<EntryView>>,
    store: Map<u32, Seq<EntryView>>,
    n: nat,
    dirty: Set<u32>,
    removed: Set<u32>,
    k: u32,
)
    requires
        changes_tracked(last, store, dirty, removed),
        forall|x: u32| #[trigger] removed.contains(x) ==> !store.contains_key(x),
        rendered_nodes(store, n).contains(k),
        !rendered_nodes(last, n).contains(k),
    ensures
        body_affected(store_transclusions(store), store_links(store), dirty, removed, k),
{
    let t_new = store_transclusions(store);
    let l_new = store_links(store);
    let t_last = store_transclusions(last);
    assert(renderable(t_new, singles(store, n), k));
    assert(singles(store, n)[k as int]);
    assert(is_single(store, k));
    let single_walk = seq![k];
    assert(is_walk(t_new, single_walk) && single_walk[0] == k && single_walk.last() == k);
    assert(reaches(t_new, k, k));
    if !unchanged(dirty, removed, k) {
        assert(!removed.contains(k));
        assert(changed_locally(t_new, l_new, dirty, removed, k));
        return;
    }
    assert(last.contains_key(k) && last[k] == store[k]);
    assert(is_single(last, k));
    assert(singles(last, n)[k as int]);
    assert(!renderable(t_last, singles(last, n), k));
    assert(unrenderable(t_last, k));
    let c = choose|c: u32| on_cycle(t_last, c) && #[trigger] reaches(t_last, k, c);
    let m = choose|m: u32| #[trigger] t_last.contains((c, m)) && reaches(t_last, m, c);
    let w1 = choose|w: Seq<u32>| #![trigger is_walk(t_last, w), w.last()] is_walk(t_last, w) && w[0] == k && w.last() == c;
    let w2 = choose|w: Seq<u32>| #![trigger is_walk(t_last, w), w.last()] is_walk(t_last, w) && w[0] == m && w.last() == c;
    lemma_walk_join(t_last, w1, w2);
    let w = w1 + w2;
    assert(w[0] == k);
    if forall|q: int| 0 <= q < w.len() ==> unchanged(dirty, removed, #[trigger] w[q]) {
        lemma_lasso_kept(last, store, dirty, removed, w1, w2, c, m);
        assert(false);
    } else {
        let q = choose|q: int| 0 <= q < w.len() && !unchanged(dirty, removed, #[trigger] w[q]);
        lemma_changed_on_walk(last, store, dirty, removed, w, q);
    }
}

/// Processing keeps the site's pages right. Suppose the pages before
/// processing are those of the nodes renderable in the store `last` (the
/// store at the previous processing), and every change since `last` was
/// recorded as dirty or removed. Then after writing the planned pages and
/// deleting the listed ones, the pages are exactly those of the nodes that
/// are renderable now, which are the produced pages: every node that became
/// renderable is written, a page is deleted exactly when it existed and its
/// node is no longer renderable, and no written page is deleted.
pub proof fn lemma_pages_follow_store<B, M, D>(
    before: Compiler<B, M, D>,
    after: Compiler<B, M, D>,
    items: Seq<crate::process::RenderItem>,
    deletes: Seq<Seq<char>>,
    last: Map<u32, Seq<EntryView>>,
)
    requires
        before.wf(),
        plan_outcome(before, after, items, deletes),
        changes_tracked(last, before.store(), before.dirty(), before.removed()),
        before.outputs() == rendered_nodes(last, before.names().len()),
    ensures
        forall|k: u32|
            #[trigger] rendered_nodes(before.store(), before.names().len()).contains(k) <==> ((
            before.outputs().contains(k) && !deletes.contains(before.names()[k as int])) || exists|a: int|
                0 <= a < items.len() && (#[trigger] items[a]).node_id.0 == k),
        after.outputs() == rendered_nodes(before.store(), before.names().len()),
        forall|a: int|
            0 <= a < items.len() ==> !deletes.contains(before.names()[(#[trigger] items[a]).node_id.0 as int]),
{
    let store = before.store();
    let names = before.names();
    let n = names.len();
    let rendered = rendered_nodes(store, n);
    let t = store_transclusions(store);
    let l = store_links(store);
    let keep = |q: int| before.outputs().contains(q as u32) && !rendered.contains(q as u32);
    let all = Seq::new(n, |q: int| q);
    before.interner.lemma_distinct_names();
    assert forall|k: u32| #[trigger] rendered.contains(k) implies !deletes.contains(names[k as int]) by {
        assert(singles(store, n)[k as int]);
        if deletes.contains(names[k as int]) {
            let d = choose|d: int| 0 <= d < deletes.len() && deletes[d] == names[k as int];
            all.filter_lemma(keep);
            let q = all.filter(keep)[d];
            assert(keep(q));
            assert(all.filter(keep).contains(q));
            all.lemma_filter_contains_rev(keep, q);
            assert(all.contains(q));
            assert(0 <= q < n);
            assert(names[q] == names[k as int]);
            assert(q == k as int);
            assert(false);
        }
    }
    assert forall|a: int| 0 <= a < items.len() implies !deletes.contains(names[(#[trigger] items[a]).node_id.0 as int]) by {
        assert(renderable(t, singles(store, n), items[a].node_id.0));
        assert(rendered.contains(items[a].node_id.0));
    }
    assert forall|k: u32| #[trigger] rendered.contains(k) <==> ((before.outputs().contains(k) && !deletes.contains(
        names[k as int],
    )) || exists|a: int| 0 <= a < items.len() && (#[trigger] items[a]).node_id.0 == k) by {
        if rendered.contains(k) {
            assert(singles(store, n)[k as int]);
            if !before.outputs().contains(k) {
                lemma_newly_renderable_affected(last, store, n, before.dirty(), before.removed(), k);
                assert(renderable(t, singles(store, n), k));
            }
        } else {
            if exists|a: int| 0 <= a < items.len() && (#[trigger] items[a]).node_id.0 == k {
                let a = choose|a: int| 0 <= a < items.len() && (#[trigger] items[a]).node_id.0 == k;
                assert(renderable(t, singles(store, n), items[a].node_id.0));
            }
            if before.outputs().contains(k) {
                assert(rendered_nodes(last, n).contains(k));
                assert((k as int) < n);
                assert(all[k as int] == k as int);
                all.filter_lemma(keep);
                assert(all.filter(keep).contains(k as int));
                let d = choose|d: int| 0 <= d < all.filter(keep).len() && all.filter(keep)[d] == k as int;
                assert(deletes[d] == names[k as int]);
            }
        }
    }
}

} // verus!
