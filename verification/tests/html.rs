use weibian::html::{demote_headings_html, demotion_steps, filter_demote_headings};

#[test]
fn demotion_steps_by_one() {
    assert_eq!(demotion_steps(1), vec![(5, 6), (4, 5), (3, 4), (2, 3), (1, 2)]);
}

#[test]
fn demotion_steps_by_none() {
    assert!(demotion_steps(0).is_empty());
}

#[test]
fn demotion_steps_capped_at_six() {
    assert_eq!(demotion_steps(10), vec![(5, 6), (4, 6), (3, 6), (2, 6), (1, 6)]);
}

#[test]
fn demote_by_zero_keeps_the_fragment() {
    let html = "<h1>Title</h1><p>x</p>".to_owned();
    assert_eq!(demote_headings_html(html.clone(), 0), html);
}

#[test]
fn demote_by_one_moves_each_heading_once() {
    let out = demote_headings_html("<h1>A</h1><h2>B</h2><h6>C</h6>".to_owned(), 1);
    assert_eq!(
        out,
        "<h2 data-demoted=\"1\">A</h2><h3 data-demoted=\"1\">B</h3><h6>C</h6>"
    );
}

#[test]
fn demote_filter_defaults_to_one_level() {
    let out = filter_demote_headings("<h3>A</h3>".to_owned(), None);
    assert_eq!(out, "<h4 data-demoted=\"1\">A</h4>");
}

#[test]
fn demote_filter_by_two() {
    let out = filter_demote_headings("<h5>A</h5>".to_owned(), Some(2));
    assert_eq!(out, "<h6 data-demoted=\"2\">A</h6>");
}
