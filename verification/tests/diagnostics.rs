use std::collections::HashSet;

use weibian::diagnostics::{
    cycle_text, dangling_link_text, dangling_transclusion_text, duplicate_node_identifier_message,
    group_by_file, join_names, sort_names, Diagnostic, Severity,
};
use weibian::process::{should_backmatter_render, Backmatter};

fn strings(v: &[&str]) -> Vec<String> {
    v.iter().map(|s| s.to_string()).collect()
}

#[test]
fn names_sort_by_code_point() {
    assert_eq!(sort_names(strings(&["b", "a", "B", "ab", "é"])), strings(&["B", "a", "ab", "b", "é"]));
    assert!(sort_names(Vec::new()).is_empty());
}

#[test]
fn join_separates_names() {
    assert_eq!(join_names(&strings(&["a", "b", "c"]), ", "), "a, b, c");
    assert_eq!(join_names(&strings(&["a"]), ", "), "a");
    assert_eq!(join_names(&Vec::new(), ", "), "");
}

#[test]
fn message_texts() {
    assert_eq!(
        duplicate_node_identifier_message("x\"y"),
        "duplicate node identifier across files: \"x\\\"y\""
    );
    assert_eq!(dangling_transclusion_text("t"), "dangling transclusion: t is not defined");
    assert_eq!(dangling_link_text("l"), "dangling link: l is not defined");
    assert_eq!(cycle_text(strings(&["c", "a", "b"])), "transclusion cycle: a, b, c");
}

#[test]
fn diagnostics_grouped_by_file_in_order() {
    let d = |m: &str| Diagnostic { severity: Severity::Warning, message: m.to_owned() };
    let grouped = group_by_file(vec![(1, d("x")), (2, d("y")), (1, d("z"))]);
    let of = |f: u16| -> Vec<String> { grouped[&f].iter().map(|d| d.message.clone()).collect() };
    assert_eq!(of(1), strings(&["x", "z"]));
    assert_eq!(of(2), strings(&["y"]));
    assert_eq!(grouped.len(), 2);
}

fn bm(contexts: &[u32], backlinks: &[u32], outlinks: &[u32]) -> Backmatter {
    Backmatter { contexts: contexts.to_vec(), backlinks: backlinks.to_vec(), outlinks: outlinks.to_vec() }
}

#[test]
fn backmatter_renders_without_a_previous_one() {
    let none = HashSet::new();
    assert!(should_backmatter_render(None, &bm(&[], &[], &[]), &none, &none));
}

#[test]
fn backmatter_renders_when_its_sets_change() {
    let none = HashSet::new();
    let old = bm(&[1], &[2], &[]);
    assert!(should_backmatter_render(Some(&old), &bm(&[1], &[2, 3], &[]), &none, &none));
    assert!(!should_backmatter_render(Some(&old), &bm(&[1], &[2], &[]), &none, &none));
    assert!(!should_backmatter_render(Some(&bm(&[1, 2], &[], &[])), &bm(&[2, 1], &[], &[]), &none, &none));
}

#[test]
fn backmatter_renders_when_a_shown_node_changes() {
    let none = HashSet::new();
    let dirty = HashSet::from([5]);
    let old = bm(&[], &[], &[5]);
    assert!(should_backmatter_render(Some(&old), &bm(&[], &[], &[5]), &dirty, &none));
    assert!(should_backmatter_render(Some(&old), &bm(&[], &[], &[5]), &none, &dirty));
    assert!(!should_backmatter_render(Some(&old), &bm(&[], &[], &[5]), &HashSet::from([6]), &none));
}
