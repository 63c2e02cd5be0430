use std::collections::HashSet;

use weibian::import_graph::ImportGraph;
use weibian::watch::{classify, handle_events, parse_events, Event, EventKind, RawEvent, RawKind, RawPath};

fn path(id: u16, is_source: bool) -> RawPath {
    RawPath { in_output: false, id: Ok(id), is_source }
}

#[test]
fn classify_kinds() {
    assert_eq!(classify(RawKind::Create), Some(EventKind::Update));
    assert_eq!(classify(RawKind::Modify), Some(EventKind::Update));
    assert_eq!(classify(RawKind::Remove), Some(EventKind::Remove));
    assert_eq!(classify(RawKind::ModifyMetadata), None);
    assert_eq!(classify(RawKind::ModifyOther), None);
    assert_eq!(classify(RawKind::Access), None);
    assert_eq!(classify(RawKind::Other), None);
}

#[test]
fn parse_events_drops_noise_and_output() {
    let raw = vec![
        RawEvent { kind: RawKind::Access, paths: vec![path(1, true)] },
        RawEvent {
            kind: RawKind::Modify,
            paths: vec![
                path(2, true),
                RawPath { in_output: true, id: Err("unused".to_owned()), is_source: false },
                path(3, false),
            ],
        },
        RawEvent { kind: RawKind::Remove, paths: vec![path(4, true)] },
    ];
    let events = parse_events(Ok(raw)).expect("events");
    assert_eq!(
        events,
        vec![
            Event { id: 2, kind: EventKind::Update, is_source: true },
            Event { id: 3, kind: EventKind::Update, is_source: false },
            Event { id: 4, kind: EventKind::Remove, is_source: true },
        ]
    );
}

#[test]
fn parse_events_reports_unnamed_paths() {
    let raw = vec![RawEvent {
        kind: RawKind::Create,
        paths: vec![path(1, true), RawPath { in_output: false, id: Err("bad path".to_owned()), is_source: true }],
    }];
    assert_eq!(parse_events(Ok(raw)), Err("bad path".to_owned()));
}

#[test]
fn parse_events_reports_watcher_errors() {
    let errors = vec!["one".to_owned(), "two".to_owned()];
    assert_eq!(parse_events(Err(errors)), Err("watch errors: one; two".to_owned()));
}

fn deps(ids: &[u16]) -> HashSet<u16> {
    ids.iter().copied().collect()
}

fn sorted(mut v: Vec<u16>) -> Vec<u16> {
    v.sort();
    v
}

#[test]
fn update_of_a_library_recompiles_its_importers() {
    let mut g = ImportGraph::new();
    g.update(1, deps(&[3]));
    g.update(2, deps(&[1]));
    let actions = handle_events(&mut g, &vec![Event { id: 3, kind: EventKind::Update, is_source: false }]);
    assert_eq!(sorted(actions.resets), vec![1, 2, 3]);
    assert!(actions.removes.is_empty());
    assert_eq!(sorted(actions.recompile), vec![1, 2]);
}

#[test]
fn update_of_a_source_recompiles_it_and_its_importers() {
    let mut g = ImportGraph::new();
    g.update(1, deps(&[3]));
    g.update(2, deps(&[1]));
    let actions = handle_events(&mut g, &vec![Event { id: 3, kind: EventKind::Update, is_source: true }]);
    assert_eq!(sorted(actions.recompile), vec![1, 2, 3]);
}

#[test]
fn removal_drops_edges_and_source() {
    let mut g = ImportGraph::new();
    g.update(1, deps(&[2]));
    let actions = handle_events(
        &mut g,
        &vec![
            Event { id: 2, kind: EventKind::Remove, is_source: true },
            Event { id: 2, kind: EventKind::Update, is_source: true },
        ],
    );
    assert_eq!(actions.removes, vec![2]);
    assert_eq!(sorted(actions.recompile), vec![1, 2]);
    assert!(g.dependents(2).is_empty());
}
