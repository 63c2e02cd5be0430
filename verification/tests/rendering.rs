use std::collections::HashMap;

use weibian::compiler::{Compiled, Compiler, Node, NodeOutput};
use weibian::render::{BackmatterInput, BodyInput, NodeInput, Render, RenderFailure};

type TestCompiler = Compiler<String, String, String>;

struct Echo;

impl Render for Echo {
    type Body = String;
    type Backmatter = String;
    type Node = String;
    type Error = String;

    fn render_body(&self, input: BodyInput<'_, String>) -> Result<String, String> {
        let mut links: Vec<_> = input.links.iter().collect();
        links.sort_by_key(|(c, _)| **c);
        let mut transclusions: Vec<_> = input.transclusions.iter().collect();
        transclusions.sort_by_key(|(c, _)| **c);
        let mut out = String::from(input.body_html);
        for (c, l) in links {
            let resolved = l.resolution.as_ref().map(|r| r.title).unwrap_or("?");
            out.push_str(&format!("|link {c}:{}:{resolved}", l.identifier));
        }
        for (c, t) in transclusions {
            match &t.resolution {
                Some(r) => out.push_str(&format!("|transclude {c}:{}:[{}]", r.identifier, r.body)),
                None => out.push_str(&format!("|transclude {c}:unresolved")),
            }
        }
        Ok(out)
    }

    fn render_backmatter(&self, input: BackmatterInput<'_>) -> Result<String, String> {
        let names = |v: &Vec<(String, Option<weibian::render::BackmatterNode<'_>>)>| {
            v.iter().map(|(n, _)| n.as_str()).collect::<Vec<_>>().join(",")
        };
        Ok(format!(
            "{}: contexts={} backlinks={} outlinks={}",
            input.node.0,
            names(&input.contexts),
            names(&input.backlinks),
            names(&input.outlinks)
        ))
    }

    fn render_node(&self, input: NodeInput<'_, String, String>) -> Result<String, String> {
        Ok(format!("{}#{}#{}#{}", input.identifier, input.title, input.body, input.backmatter))
    }
}

struct Failing;

impl Render for Failing {
    type Body = String;
    type Backmatter = String;
    type Node = String;
    type Error = String;

    fn render_body(&self, _input: BodyInput<'_, String>) -> Result<String, String> {
        Err("no bodies today".to_owned())
    }

    fn render_backmatter(&self, _input: BackmatterInput<'_>) -> Result<String, String> {
        Ok(String::new())
    }

    fn render_node(&self, _input: NodeInput<'_, String, String>) -> Result<String, String> {
        Ok(String::new())
    }
}

fn output(identifier: &str, body_html: &str, transclusions: &[&str], links: &[&str]) -> NodeOutput {
    NodeOutput {
        identifier: identifier.to_owned(),
        node: Node {
            body_html: body_html.to_owned(),
            title: format!("T{identifier}"),
            title_text: identifier.to_owned(),
            span: None,
            node_metadata: HashMap::new(),
            transclusion_metadata: HashMap::new(),
            link_metadata: HashMap::new(),
        },
        transclusions: transclusions.iter().map(|s| s.to_string()).collect(),
        links: links.iter().map(|s| s.to_string()).collect(),
    }
}

fn compiled(outputs: Vec<NodeOutput>) -> Compiled<String> {
    Compiled { warnings: Vec::new(), output: Ok(outputs) }
}

#[test]
fn process_renders_transcluded_bodies_first() {
    let mut c = TestCompiler::new();
    c.update(
        1,
        compiled(vec![
            output(
                "a",
                "<p>A</p><wb-transclude identifier=\"b\" counter=\"0\"></wb-transclude><a href=\"wb:c\" data-counter=\"1\">c</a>",
                &["b"],
                &["c"],
            ),
            output("b", "<p>B</p>", &[], &[]),
        ]),
    );
    let out = match c.process(&Echo) {
        Ok(out) => out,
        Err(_) => panic!("processing failed"),
    };
    assert!(out.deletes.is_empty());
    let names: Vec<&str> = out.writes.iter().map(|(n, _)| n.as_str()).collect();
    assert_eq!(names, vec!["b", "a"]);
    let a_page = &out.writes[1].1;
    assert_eq!(
        a_page,
        "a#Ta#<p>A</p><wb-transclude identifier=\"b\" counter=\"0\"></wb-transclude><a href=\"wb:c\" data-counter=\"1\">c</a>|link 1:c:?|transclude 0:b:[<p>B</p>]#a: contexts= backlinks= outlinks=c"
    );
    assert_eq!(&out.writes[0].1, "b#Tb#<p>B</p>#b: contexts=a backlinks= outlinks=");
}

#[test]
fn process_with_nothing_changed_writes_nothing() {
    let mut c = TestCompiler::new();
    c.update(1, compiled(vec![output("a", "<p>A</p>", &[], &[])]));
    assert!(c.process(&Echo).is_ok());
    let again = match c.process(&Echo) {
        Ok(out) => out,
        Err(_) => panic!("processing failed"),
    };
    assert!(again.writes.is_empty());
    assert!(again.deletes.is_empty());
}

#[test]
fn process_deletes_pages_that_are_gone() {
    let mut c = TestCompiler::new();
    c.update(1, compiled(vec![output("a", "<p>A</p>", &[], &[])]));
    c.update(2, compiled(vec![output("b", "<p>B</p>", &[], &[])]));
    assert!(c.process(&Echo).is_ok());
    c.remove(2);
    let out = match c.process(&Echo) {
        Ok(out) => out,
        Err(_) => panic!("processing failed"),
    };
    assert_eq!(out.deletes, vec!["b".to_owned()]);
}

#[test]
fn malformed_link_leaves_no_body_input() {
    let mut c = TestCompiler::new();
    c.update(1, compiled(vec![output("a", "<a href=\"wb:b\">b</a>", &[], &["b"])]));
    let plan = c.plan();
    let id = c.interner().get("a").unwrap();
    assert!(c.body_input(id).is_none());
    match c.render(&Echo, &plan) {
        Err(RenderFailure::Unavailable(n)) => assert_eq!(n, id),
        _ => panic!("expected an unavailable input"),
    }
}

#[test]
fn renderer_error_is_returned() {
    let mut c = TestCompiler::new();
    c.update(1, compiled(vec![output("a", "<p>A</p>", &[], &[])]));
    match c.process(&Failing) {
        Err(RenderFailure::Renderer(e)) => assert_eq!(e, "no bodies today"),
        _ => panic!("expected the renderer's error"),
    }
}

#[test]
fn body_input_reads_links_and_transclusions() {
    let mut c = TestCompiler::new();
    c.update(
        1,
        compiled(vec![output(
            "a",
            "<a href=\"https://example.com\">x</a><a href=\"wb:b\" data-counter=\"7\">b</a><wb-transclude identifier=\"d\" counter=\"3\"></wb-transclude>",
            &["d"],
            &["b"],
        )]),
    );
    let id = c.interner().get("a").unwrap();
    let input = c.body_input(id).expect("input");
    assert_eq!(input.links.len(), 1);
    let link = &input.links[&7];
    assert_eq!(link.identifier, "b");
    assert!(link.resolution.is_none());
    assert!(link.metadata.is_none());
    assert_eq!(input.transclusions.len(), 1);
    assert!(input.transclusions[&3].resolution.is_none());
}

#[test]
fn backmatter_input_lists_names_in_order() {
    let mut c = TestCompiler::new();
    c.update(
        1,
        compiled(vec![
            output("z", "", &[], &["m"]),
            output("b", "", &[], &["m"]),
            output("m", "", &[], &[]),
        ]),
    );
    let _ = c.plan();
    let id = c.interner().get("m").unwrap();
    let input = c.backmatter_input(id).expect("input");
    assert_eq!(input.node.0, "m");
    let backlinks: Vec<&str> = input.backlinks.iter().map(|(n, _)| n.as_str()).collect();
    assert_eq!(backlinks, vec!["b", "z"]);
    assert!(input.backlinks.iter().all(|(_, shown)| shown.is_some()));
    assert!(input.contexts.is_empty());
}

#[test]
fn node_input_needs_rendered_parts() {
    let mut c = TestCompiler::new();
    c.update(1, compiled(vec![output("a", "<p>A</p>", &[], &[])]));
    let id = c.interner().get("a").unwrap();
    assert!(c.node_input(id).is_none());
    assert!(c.process(&Echo).is_ok());
    let input = c.node_input(id).expect("input");
    assert_eq!(input.identifier, "a");
    assert_eq!(input.body, "<p>A</p>");
}
