use std::collections::HashSet;

use vstd::prelude::*;

use crate::diagnostics::{join, join_names};
use crate::import_graph::{set_members, FileKey, ImportGraph};

verus! {

broadcast use vstd::std_specs::hash::group_hash_axioms;

/// Whether a file was updated (created or modified) or removed.
#[derive(Clone, Copy, PartialEq, Eq, Structural, Debug)]
pub enum EventKind {
    Update,
    Remove,
}

/// A file system event on one file: the file, what happened to it, and
/// whether it is a compiled source file (as opposed to a library
/// dependency).
#[derive(Clone, Copy, PartialEq, Eq, Structural, Debug)]
pub struct Event {
    pub id: FileKey,
    pub kind: EventKind,
    pub is_source: bool,
}

/// What the file watcher reported happened, as far as the watch loop tells
/// kinds apart: access, creation, a change of contents or name, a change of
/// metadata, another kind of change, removal, or anything else.
#[derive(Clone, Copy, PartialEq, Eq, Structural, Debug)]
pub enum RawKind {
    Access,
    Create,
    Modify,
    ModifyMetadata,
    ModifyOther,
    Remove,
    Other,
}

/// One path of a raw event: whether it lies inside the output directory,
/// the file it names (or why it names none), and whether it is a compiled
/// source file.
pub struct RawPath {
    pub in_output: bool,
    pub id: Result<FileKey, String>,
    pub is_source: bool,
}

/// One raw event of the file watcher: its kind and its paths.
pub struct RawEvent {
    pub kind: RawKind,
    pub paths: Vec<RawPath>,
}

/// How the watch loop reads a raw kind: creations and changes of contents
/// or name are updates, removals are removals, and the rest (access,
/// metadata and other changes) is noise.
pub open spec fn kind_of(raw: RawKind) -> Option<EventKind> {
    match raw {
        RawKind::Create => Some(EventKind::Update),
        RawKind::Modify => Some(EventKind::Update),
        RawKind::Remove => Some(EventKind::Remove),
        _ => None,
    }
}

/// Reads a raw kind: see [`kind_of`].
pub fn classify(raw: RawKind) -> (r: Option<EventKind>)
    ensures
        r == kind_of(raw),
{
    match raw {
        RawKind::Create => Some(EventKind::Update),
        RawKind::Modify => Some(EventKind::Update),
        RawKind::Remove => Some(EventKind::Remove),
        _ => None,
    }
}

/// The abstract value of a raw path.
pub open spec fn raw_path_view(p: RawPath) -> (bool, Result<FileKey, Seq<char>>, bool) {
    (
        p.in_output,
        match p.id {
            Ok(k) => Ok(k),
            Err(e) => Err(e@),
        },
        p.is_source,
    )
}

/// The abstract value of a raw event.
pub open spec fn raw_event_view(e: RawEvent) -> (RawKind, Seq<(bool, Result<FileKey, Seq<char>>, bool)>) {
    (e.kind, e.paths@.map_values(|p: RawPath| raw_path_view(p)))
}

/// The events of one raw event's paths: each path outside the output
/// directory gives an event of the raw event's kind, unless the kind is
/// noise; the first such path that names no file gives its error instead.
pub open spec fn path_events(
    kind: EventKind,
    paths: Seq<(bool, Result<FileKey, Seq<char>>, bool)>,
    k: nat,
) -> Result<Seq<Event>, Seq<char>>
    decreases k,
{
    if k == 0 {
        Ok(Seq::empty())
    } else {
        match path_events(kind, paths, (k - 1) as nat) {
            Err(e) => Err(e),
            Ok(events) => {
                let (in_output, id, is_source) = paths[k - 1];
                if in_output {
                    Ok(events)
                } else {
                    match id {
                        Err(e) => Err(e),
                        Ok(id) => Ok(events.push(Event { id, kind, is_source })),
                    }
                }
            },
        }
    }
}

/// The events of the first `k` raw events, in order, or the first error.
pub open spec fn batch_events(
    raw: Seq<(RawKind, Seq<(bool, Result<FileKey, Seq<char>>, bool)>)>,
    k: nat,
) -> Result<Seq<Event>, Seq<char>>
    decreases k,
{
    if k == 0 {
        Ok(Seq::empty())
    } else {
        match batch_events(raw, (k - 1) as nat) {
            Err(e) => Err(e),
            Ok(events) => {
                let (kind, paths) = raw[k - 1];
                match kind_of(kind) {
                    None => Ok(events),
                    Some(kind) => match path_events(kind, paths, paths.len()) {
                        Err(e) => Err(e),
                        Ok(more) => Ok(events + more),
                    },
                }
            },
        }
    }
}

/// The message for errors reported by the file watcher.
pub open spec fn watch_errors_message(errors: Seq<Seq<char>>) -> Seq<char> {
    "watch errors: "@ + join(errors, "; "@)
}

/// Reads a batch of raw events into events: drops noise and paths inside
/// the output directory, and gives each other path an event of its raw
/// event's kind. Fails with the first path that names no file, or with the
/// watcher's errors when it reported any.
pub fn parse_events(result: Result<Vec<RawEvent>, Vec<String>>) -> (r: Result<Vec<Event>, String>)
    ensures
        match result {
            Err(errors) => r matches Err(m) && m@ == watch_errors_message(
                errors@.map_values(|e: String| e@),
            ),
            Ok(raw) => {
                let want = batch_events(raw@.map_values(|e: RawEvent| raw_event_view(e)), raw@.len());
                match r {
                    Ok(events) => want == Ok::<Seq<Event>, Seq<char>>(events@),
                    Err(m) => want == Err::<Seq<Event>, Seq<char>>(m@),
                }
            },
        },
{
    let raw = match result {
        Err(errors) => {
            let joined = join_names(&errors, "; ");
            let prefix = String::from_str("watch errors: ");
            return Err(prefix.concat(joined.as_str()));
        },
        Ok(raw) => raw,
    };
    let ghost rv = raw@.map_values(|e: RawEvent| raw_event_view(e));
    let mut events: Vec<Event> = Vec::new();
    let mut i: usize = 0;
    while i < raw.len()
        invariant
            result is Ok && result->Ok_0@ == raw@,
            rv == raw@.map_values(|e: RawEvent| raw_event_view(e)),
            0 <= i <= raw@.len(),
            batch_events(rv, i as nat) == Ok::<Seq<Event>, Seq<char>>(events@),
        decreases raw@.len() - i,
    {
        let raw_event = &raw[i];
        proof {
            assert(rv[i as int] == raw_event_view(raw@[i as int]));
        }
        match classify(raw_event.kind) {
            None => {},
            Some(kind) => {
                let ghost pv = raw_event.paths@.map_values(|p: RawPath| raw_path_view(p));
                let ghost before = events@;
                let mut j: usize = 0;
                while j < raw_event.paths.len()
                    invariant
                        result is Ok && result->Ok_0@ == raw@,
                        rv == raw@.map_values(|e: RawEvent| raw_event_view(e)),
                        0 <= i < raw@.len(),
                        raw_event == raw@[i as int],
                        rv[i as int] == raw_event_view(raw@[i as int]),
                        kind_of(raw_event.kind) == Some(kind),
                        batch_events(rv, i as nat) == Ok::<Seq<Event>, Seq<char>>(before),
                        pv == raw_event.paths@.map_values(|p: RawPath| raw_path_view(p)),
                        0 <= j <= raw_event.paths@.len(),
                        ({
                            match path_events(kind, pv, j as nat) {
                                Ok(more) => events@ == before + more,
                                Err(_) => false,
                            }
                        }),
                    decreases raw_event.paths@.len() - j,
                {
                    let path = &raw_event.paths[j];
                    proof {
                        assert(pv[j as int] == raw_path_view(raw_event.paths@[j as int]));
                    }
                    if !path.in_output {
                        match &path.id {
                            Err(e) => {
                                proof {
                                    assert(path_events(kind, pv, (j + 1) as nat) == Err::<Seq<Event>, Seq<char>>(e@));
                                    lemma_path_events_err(kind, pv, (j + 1) as nat, pv.len());
                                    assert(batch_events(rv, (i + 1) as nat) == Err::<Seq<Event>, Seq<char>>(e@));
                                    lemma_batch_events_err(rv, (i + 1) as nat, rv.len());
                                }
                                return Err(e.clone());
                            },
                            Ok(id) => {
                                let ghost mid = events@;
                                events.push(Event { id: *id, kind, is_source: path.is_source });
                                proof {
                                    let more = path_events(kind, pv, j as nat)->Ok_0;
                                    assert(events@ =~= before + more.push(Event { id: *id, kind, is_source: path.is_source }));
                                }
                            },
                        }
                    }
                    j = j + 1;
                }
                proof {
                    assert(pv.len() == raw_event.paths@.len());
                    let more = path_events(kind, pv, pv.len())->Ok_0;
                    assert(batch_events(rv, (i + 1) as nat) == Ok::<Seq<Event>, Seq<char>>(before + more));
                }
            },
        }
        i = i + 1;
    }
    proof {
        assert(rv.len() == raw@.len());
    }
    Ok(events)
}

/// Once a prefix of the paths fails, every longer prefix fails alike.
proof fn lemma_path_events_err(
    kind: EventKind,
    paths: Seq<(bool, Result<FileKey, Seq<char>>, bool)>,
    k: nat,
    k2: nat,
)
    requires
        k <= k2,
        path_events(kind, paths, k) is Err,
    ensures
        path_events(kind, paths, k2) == path_events(kind, paths, k),
    decreases k2 - k,
{
    if k2 > k {
        lemma_path_events_err(kind, paths, k, (k2 - 1) as nat);
    }
}

/// Once a prefix of the raw events fails, every longer prefix fails alike.
proof fn lemma_batch_events_err(
    raw: Seq<(RawKind, Seq<(bool, Result<FileKey, Seq<char>>, bool)>)>,
    k: nat,
    k2: nat,
)
    requires
        k <= k2,
        batch_events(raw, k) is Err,
    ensures
        batch_events(raw, k2) == batch_events(raw, k),
    decreases k2 - k,
{
    if k2 > k {
        lemma_batch_events_err(raw, k, (k2 - 1) as nat);
    }
}

/// The import edges of a graph, each (importer, imported).
pub open spec fn import_edges(g: ImportGraph) -> Set<(FileKey, FileKey)> {
    Set::new(|e: (FileKey, FileKey)| g.imports(e.0, e.1))
}

/// `chain` is a sequence of files, each importing the next along `edges`.
pub open spec fn is_edge_chain(edges: Set<(FileKey, FileKey)>, chain: Seq<FileKey>) -> bool {
    &&& chain.len() >= 1
    &&& forall|k: int| 0 <= k < chain.len() - 1 ==> edges.contains((#[trigger] chain[k], chain[k + 1]))
}

/// The files other than `id` that import `id` along `edges`, directly or
/// through other files.
pub open spec fn dependents_in(edges: Set<(FileKey, FileKey)>, id: FileKey) -> Set<FileKey> {
    Set::new(
        |x: FileKey|
            x != id && exists|chain: Seq<FileKey>|
                #![trigger is_edge_chain(edges, chain), chain.last()]
                is_edge_chain(edges, chain) && chain.len() >= 2 && chain[0] == x && chain.last() == id,
    )
}

/// The edges that do not touch `id`.
pub open spec fn edges_without(edges: Set<(FileKey, FileKey)>, id: FileKey) -> Set<(FileKey, FileKey)> {
    edges.filter(|e: (FileKey, FileKey)| e.0 != id && e.1 != id)
}

/// The import edges once the first `k` events are handled: a removal drops
/// the edges of its file.
pub open spec fn edges_after(edges: Set<(FileKey, FileKey)>, events: Seq<Event>, k: nat) -> Set<(FileKey, FileKey)>
    decreases k,
{
    if k == 0 {
        edges
    } else {
        let prev = edges_after(edges, events, (k - 1) as nat);
        if events[k - 1].kind == EventKind::Remove {
            edges_without(prev, events[k - 1].id)
        } else {
            prev
        }
    }
}

/// The files whose cached contents the first `k` events make stale: each
/// event's file and the files that depend on it when the event is handled.
pub open spec fn resets_after(edges: Set<(FileKey, FileKey)>, events: Seq<Event>, k: nat) -> Set<FileKey>
    decreases k,
{
    if k == 0 {
        Set::empty()
    } else {
        let e = events[k - 1];
        resets_after(edges, events, (k - 1) as nat).insert(e.id) + dependents_in(
            edges_after(edges, events, (k - 1) as nat),
            e.id,
        )
    }
}

/// The files that the first `k` events make to compile again: for each
/// event, the files that depend on its file when the event is handled, and
/// the file itself when it is a source file that was updated.
pub open spec fn recompile_after(edges: Set<(FileKey, FileKey)>, events: Seq<Event>, k: nat) -> Set<FileKey>
    decreases k,
{
    if k == 0 {
        Set::empty()
    } else {
        let e = events[k - 1];
        let deps = recompile_after(edges, events, (k - 1) as nat) + dependents_in(
            edges_after(edges, events, (k - 1) as nat),
            e.id,
        );
        if e.is_source && e.kind == EventKind::Update {
            deps.insert(e.id)
        } else {
            deps
        }
    }
}

/// The source files that the first `k` events remove, in order.
pub open spec fn removed_sources(events: Seq<Event>, k: nat) -> Seq<FileKey>
    decreases k,
{
    if k == 0 {
        Seq::empty()
    } else {
        let prev = removed_sources(events, (k - 1) as nat);
        let e = events[k - 1];
        if e.kind == EventKind::Remove && e.is_source {
            prev.push(e.id)
        } else {
            prev
        }
    }
}

/// What the watch loop does for a batch of events: the files whose cached
/// contents to drop, the source files to take out of the compiler, in
/// order, and the files to compile again.
pub struct WatchActions {
    pub resets: Vec<FileKey>,
    pub removes: Vec<FileKey>,
    pub recompile: Vec<FileKey>,
}

/// A chain of the graph is a chain of its edges.
proof fn lemma_chain_to_edges(g: ImportGraph, chain: Seq<FileKey>)
    requires
        g.is_chain(chain),
    ensures
        is_edge_chain(import_edges(g), chain),
{
    assert forall|k: int| 0 <= k < chain.len() - 1 implies import_edges(g).contains((#[trigger] chain[k], chain[k + 1])) by {
        assert(g.imports(chain[k], chain[k + 1]));
    }
}

/// A chain of the edges of a graph is a chain of the graph.
proof fn lemma_chain_from_edges(g: ImportGraph, chain: Seq<FileKey>)
    requires
        is_edge_chain(import_edges(g), chain),
    ensures
        g.is_chain(chain),
{
    assert forall|k: int| 0 <= k < chain.len() - 1 implies g.imports(#[trigger] chain[k], chain[k + 1]) by {
        assert(import_edges(g).contains((chain[k], chain[k + 1])));
    }
}

/// The dependents of a file along the edges of a graph are those that the
/// graph reports.
proof fn lemma_dependents_match(g: ImportGraph, id: FileKey, x: FileKey)
    ensures
        (x != id && g.depends_on(x, id)) <==> dependents_in(import_edges(g), id).contains(x),
{
    if x != id && g.depends_on(x, id) {
        let chain = choose|chain: Seq<FileKey>|
            #![trigger g.is_chain(chain), chain.last()]
            g.is_chain(chain) && chain.len() >= 2 && chain[0] == x && chain.last() == id;
        lemma_chain_to_edges(g, chain);
    }
    if dependents_in(import_edges(g), id).contains(x) {
        let chain = choose|chain: Seq<FileKey>|
            #![trigger is_edge_chain(import_edges(g), chain), chain.last()]
            is_edge_chain(import_edges(g), chain) && chain.len() >= 2 && chain[0] == x && chain.last() == id;
        lemma_chain_from_edges(g, chain);
    }
}

/// Handles a batch of events in order against the import graph: each event
/// makes its file and the files that depend on it stale; a removal takes
/// the file's edges out of the graph; every event makes the files that
/// depend on its file compile again; an event on a source file also makes
/// the file itself compile again when it was updated, or takes it out of
/// the compiler when it was removed.
pub fn handle_events(graph: &mut ImportGraph, events: &Vec<Event>) -> (actions: WatchActions)
    requires
        old(graph).wf(),
    ensures
        final(graph).wf(),
        import_edges(*final(graph)) == edges_after(import_edges(*old(graph)), events@, events@.len()),
        actions.resets@.no_duplicates(),
        actions.resets@.to_set() == resets_after(import_edges(*old(graph)), events@, events@.len()),
        actions.removes@ == removed_sources(events@, events@.len()),
        actions.recompile@.no_duplicates(),
        actions.recompile@.to_set() == recompile_after(import_edges(*old(graph)), events@, events@.len()),
{
    let ghost edges0 = import_edges(*graph);
    let mut resets: HashSet<FileKey> = HashSet::new();
    let mut removes: Vec<FileKey> = Vec::new();
    let mut recompile: HashSet<FileKey> = HashSet::new();
    let mut i: usize = 0;
    proof {
        assert(resets@ =~= resets_after(edges0, events@, 0));
        assert(recompile@ =~= recompile_after(edges0, events@, 0));
    }
    while i < events.len()
        invariant
            graph.wf(),
            0 <= i <= events@.len(),
            import_edges(*graph) == edges_after(edges0, events@, i as nat),
            resets@ == resets_after(edges0, events@, i as nat),
            removes@ == removed_sources(events@, i as nat),
            recompile@ == recompile_after(edges0, events@, i as nat),
        decreases events@.len() - i,
    {
        let event = events[i];
        let ghost g0 = *graph;
        let dependents = graph.dependents(event.id);
        proof {
            assert forall|x: FileKey| dependents@.contains(x) <==> dependents_in(import_edges(g0), event.id).contains(x) by {
                lemma_dependents_match(g0, event.id, x);
            }
            assert(dependents@ =~= dependents_in(import_edges(g0), event.id));
        }
        let members = set_members(&dependents);
        let ghost resets0 = resets@;
        let ghost recompile0 = recompile@;
        resets.insert(event.id);
        let mut j: usize = 0;
        while j < members.len()
            invariant
                0 <= j <= members@.len(),
                forall|y: FileKey| dependents@.contains(y) <==> members@.contains(y),
                resets@ == resets0.insert(event.id) + members@.take(j as int).to_set(),
                recompile@ == recompile0 + members@.take(j as int).to_set(),
            decreases members@.len() - j,
        {
            let d = members[j];
            resets.insert(d);
            recompile.insert(d);
            proof {
                assert(members@.take(j + 1) =~= members@.take(j as int).push(d));
                vstd::seq_lib::lemma_seq_contains_after_push(members@.take(j as int), d, d);
                assert forall|y: FileKey| members@.take(j + 1).to_set().contains(y) <==> members@.take(j as int).to_set().insert(d).contains(y) by {
                    vstd::seq_lib::lemma_seq_contains_after_push(members@.take(j as int), d, y);
                }
                assert(members@.take(j + 1).to_set() =~= members@.take(j as int).to_set().insert(d));
                assert(resets@ =~= resets0.insert(event.id) + members@.take(j + 1).to_set());
                assert(recompile@ =~= recompile0 + members@.take(j + 1).to_set());
            }
            j = j + 1;
        }
        proof {
            assert(members@.take(members@.len() as int) =~= members@);
            assert(members@.to_set() =~= dependents@);
        }
        match event.kind {
            EventKind::Update => {
                if event.is_source {
                    recompile.insert(event.id);
                }
            },
            EventKind::Remove => {
                graph.remove(event.id);
                if event.is_source {
                    removes.push(event.id);
                }
            },
        }
        proof {
            assert(events@[i as int] == event);
            assert(resets@ =~= resets_after(edges0, events@, (i + 1) as nat));
            assert(recompile@ =~= recompile_after(edges0, events@, (i + 1) as nat));
            if event.kind == EventKind::Remove {
                assert(import_edges(*graph) =~= edges_without(import_edges(g0), event.id));
            }
        }
        i = i + 1;
    }
    let resets = set_members(&resets);
    let recompile = set_members(&recompile);
    proof {
        assert(resets@.to_set() =~= resets_after(edges0, events@, events@.len()));
        assert(recompile@.to_set() =~= recompile_after(edges0, events@, events@.len()));
    }
    WatchActions { resets, removes, recompile }
}

} // verus!
