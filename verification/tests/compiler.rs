use std::collections::HashMap;

use weibian::compiler::{Compiled, Compiler, Node, NodeOutput};
use weibian::diagnostics::Severity;
use weibian::interner::NodeId;
use weibian::render::{BackmatterInput, BodyInput, NodeInput, Render};

type TestCompiler = Compiler<String, String, String>;

fn node(title: &str) -> Node {
    Node {
        body_html: format!("<p>{title}</p>"),
        title: title.to_owned(),
        title_text: title.to_owned(),
        span: None,
        node_metadata: HashMap::new(),
        transclusion_metadata: HashMap::new(),
        link_metadata: HashMap::new(),
    }
}

fn output(identifier: &str, transclusions: &[&str], links: &[&str]) -> NodeOutput {
    NodeOutput {
        identifier: identifier.to_owned(),
        node: node(identifier),
        transclusions: transclusions.iter().map(|s| s.to_string()).collect(),
        links: links.iter().map(|s| s.to_string()).collect(),
    }
}

fn compiled(outputs: Vec<NodeOutput>) -> Compiled<String> {
    Compiled { warnings: Vec::new(), output: Ok(outputs) }
}

fn id_of(c: &TestCompiler, name: &str) -> NodeId {
    c.interner().get(name).expect("interned")
}

fn planned_names(c: &TestCompiler, plan: &weibian::compiler::RenderPlan) -> Vec<String> {
    plan.items
        .iter()
        .map(|item| c.interner().name(item.node_id).to_owned())
        .collect()
}

fn messages(c: &TestCompiler, file: u16) -> Vec<String> {
    c.process_diagnostics()
        .get(&file)
        .map(|ds| ds.iter().map(|d| d.message.clone()).collect())
        .unwrap_or_default()
}

#[test]
fn update_interns_and_marks_dirty() {
    let mut c = TestCompiler::new();
    c.update(1, compiled(vec![output("a", &["b"], &["c"])]));
    let a = id_of(&c, "a");
    assert_eq!(a, NodeId(0));
    assert_eq!(c.interner().name(NodeId(1)), "b");
    assert_eq!(c.interner().name(NodeId(2)), "c");
    assert!(c.is_dirty(a));
    let entries = c.entries(a).expect("a has entries");
    assert_eq!(entries.len(), 1);
    assert_eq!(entries[0].file_id, 1);
    assert_eq!(entries[0].transclusions, vec![NodeId(1)]);
    assert_eq!(entries[0].links, vec![NodeId(2)]);
    assert!(c.entries(NodeId(1)).is_none());
}

#[test]
fn remove_drops_entries_and_marks_removed() {
    let mut c = TestCompiler::new();
    c.update(1, compiled(vec![output("a", &[], &[])]));
    let a = id_of(&c, "a");
    c.remove(1);
    assert!(c.entries(a).is_none());
    assert!(c.is_removed(a));
    assert!(!c.is_dirty(a));
}

#[test]
fn failed_compile_keeps_errors_and_warnings() {
    let mut c = TestCompiler::new();
    c.update(1, compiled(vec![output("a", &[], &[])]));
    c.update(
        1,
        Compiled {
            warnings: vec!["compile warning".to_owned()],
            output: Err(vec!["compile error".to_owned()]),
        },
    );
    let a = id_of(&c, "a");
    assert!(c.entries(a).is_none());
    let (warnings, errors) = c.compile_diagnostics().get(&1).expect("diagnostics");
    assert_eq!(warnings, &vec!["compile warning".to_owned()]);
    assert_eq!(errors, &vec!["compile error".to_owned()]);
}

#[test]
fn successful_compile_with_warnings_records_only_warnings() {
    let mut c = TestCompiler::new();
    c.update(
        2,
        Compiled { warnings: vec!["w".to_owned()], output: Ok(vec![output("a", &[], &[])]) },
    );
    let (warnings, errors) = c.compile_diagnostics().get(&2).expect("diagnostics");
    assert_eq!(warnings, &vec!["w".to_owned()]);
    assert!(errors.is_empty());
    c.update(2, compiled(vec![output("a", &[], &[])]));
    assert!(c.compile_diagnostics().get(&2).is_none());
}

#[test]
fn duplicate_identifier_reported_in_both_files() {
    let mut c = TestCompiler::new();
    c.update(1, compiled(vec![output("a", &[], &[])]));
    c.update(2, compiled(vec![output("a", &[], &[])]));
    let plan = c.plan();
    assert!(plan.items.is_empty());
    let expected = "duplicate node identifier across files: \"a\"".to_owned();
    assert_eq!(messages(&c, 1), vec![expected.clone()]);
    assert_eq!(messages(&c, 2), vec![expected]);
    assert_eq!(c.process_diagnostics().get(&1).unwrap()[0].severity, Severity::Error);
}

#[test]
fn duplicate_identifier_resolves_when_other_file_removed() {
    let mut c = TestCompiler::new();
    c.update(1, compiled(vec![output("a", &[], &[])]));
    c.update(2, compiled(vec![output("a", &[], &[])]));
    let _ = c.plan();
    c.remove(2);
    let plan = c.plan();
    assert_eq!(planned_names(&c, &plan), vec!["a".to_owned()]);
    assert!(c.process_diagnostics().is_empty());
    assert!(c.is_output(id_of(&c, "a")));
}

#[test]
fn duplicate_identifier_resolves_when_other_file_fails() {
    let mut c = TestCompiler::new();
    c.update(1, compiled(vec![output("a", &[], &[])]));
    c.update(2, compiled(vec![output("a", &[], &[])]));
    let _ = c.plan();
    c.update(2, Compiled { warnings: Vec::new(), output: Err(vec!["compile error".to_owned()]) });
    let plan = c.plan();
    assert_eq!(planned_names(&c, &plan), vec!["a".to_owned()]);
    assert!(messages(&c, 1).is_empty());
}

#[test]
fn transcluded_node_is_planned_first() {
    let mut c = TestCompiler::new();
    c.update(1, compiled(vec![output("a", &["b"], &[])]));
    c.update(2, compiled(vec![output("b", &[], &[])]));
    let plan = c.plan();
    assert_eq!(planned_names(&c, &plan), vec!["b".to_owned(), "a".to_owned()]);
    assert!(plan.items.iter().all(|item| item.needs_body && item.needs_backmatter));
}

#[test]
fn dangling_targets_warn_but_render() {
    let mut c = TestCompiler::new();
    c.update(1, compiled(vec![output("a", &["gone", "gone"], &["lost"])]));
    let plan = c.plan();
    assert_eq!(planned_names(&c, &plan), vec!["a".to_owned()]);
    assert_eq!(
        messages(&c, 1),
        vec![
            "dangling transclusion: gone is not defined".to_owned(),
            "dangling link: lost is not defined".to_owned(),
        ]
    );
    assert_eq!(c.process_diagnostics().get(&1).unwrap()[0].severity, Severity::Warning);
}

#[test]
fn transclusion_cycle_blocks_rendering() {
    let mut c = TestCompiler::new();
    c.update(1, compiled(vec![output("b", &["a"], &[])]));
    c.update(2, compiled(vec![output("a", &["b"], &[]), output("c", &["a"], &[])]));
    c.update(3, compiled(vec![output("d", &[], &[])]));
    let plan = c.plan();
    assert_eq!(planned_names(&c, &plan), vec!["d".to_owned()]);
    let expected = "transclusion cycle: a, b".to_owned();
    assert_eq!(messages(&c, 1), vec![expected.clone()]);
    assert_eq!(messages(&c, 2), vec![expected]);
    assert!(messages(&c, 3).is_empty());
}

#[test]
fn self_transclusion_is_a_cycle() {
    let mut c = TestCompiler::new();
    c.update(1, compiled(vec![output("a", &["a"], &[])]));
    let plan = c.plan();
    assert!(plan.items.is_empty());
    assert_eq!(messages(&c, 1), vec!["transclusion cycle: a".to_owned()]);
}

#[test]
fn removed_output_is_deleted() {
    let mut c = TestCompiler::new();
    c.update(1, compiled(vec![output("a", &[], &[])]));
    c.update(2, compiled(vec![output("b", &[], &[])]));
    let _ = c.plan();
    c.remove(1);
    let plan = c.plan();
    assert_eq!(plan.deletes, vec!["a".to_owned()]);
    assert!(plan.items.is_empty());
    assert!(!c.is_output(id_of(&c, "a")));
    assert!(c.is_output(id_of(&c, "b")));
}

#[test]
fn nothing_changed_means_nothing_planned() {
    let mut c = TestCompiler::new();
    c.update(1, compiled(vec![output("a", &[], &[])]));
    let first = c.plan();
    assert_eq!(first.items.len(), 1);
    let second = c.plan();
    assert!(second.items.is_empty());
    assert!(second.deletes.is_empty());
}

#[test]
fn change_of_transcluded_node_rerenders_transcluder() {
    let mut c = TestCompiler::new();
    c.update(1, compiled(vec![output("a", &["b"], &[])]));
    c.update(2, compiled(vec![output("b", &[], &[])]));
    c.update(3, compiled(vec![output("z", &[], &[])]));
    let _ = c.plan();
    c.update(2, compiled(vec![output("b", &[], &[])]));
    let plan = c.plan();
    let names = planned_names(&c, &plan);
    assert_eq!(names, vec!["b".to_owned(), "a".to_owned()]);
    assert!(plan.items.iter().all(|item| item.needs_body));
}

#[test]
fn link_target_change_refreshes_backmatter_of_target() {
    let mut c = TestCompiler::new();
    c.update(1, compiled(vec![output("a", &[], &["b"])]));
    c.update(2, compiled(vec![output("b", &[], &[])]));
    let _ = c.plan();
    c.update(1, compiled(vec![output("a", &[], &["b"])]));
    let plan = c.plan();
    let names = planned_names(&c, &plan);
    assert!(names.contains(&"a".to_owned()));
    let b = plan
        .items
        .iter()
        .find(|item| c.interner().name(item.node_id) == "b")
        .expect("b is planned: its backlink changed");
    assert!(!b.needs_body);
    assert!(b.needs_backmatter);
}

/// Renders every part as the node's name.
struct Names;

impl Render for Names {
    type Body = String;
    type Backmatter = String;
    type Node = String;
    type Error = String;

    fn render_body(&self, input: BodyInput<'_, String>) -> Result<String, String> {
        Ok(input.body_html.to_owned())
    }

    fn render_backmatter(&self, input: BackmatterInput<'_>) -> Result<String, String> {
        Ok(input.node.0)
    }

    fn render_node(&self, input: NodeInput<'_, String, String>) -> Result<String, String> {
        Ok(input.identifier)
    }
}

/// A compiler with the pages it wrote.
struct Site {
    compiler: TestCompiler,
    pages: std::collections::BTreeSet<String>,
}

impl Site {
    fn new() -> Self {
        Site { compiler: TestCompiler::new(), pages: Default::default() }
    }

    fn process(&mut self) {
        let out = match self.compiler.process(&Names) {
            Ok(out) => out,
            Err(_) => panic!("processing failed"),
        };
        for (name, page) in out.writes {
            assert_eq!(name, page);
            self.pages.insert(name);
        }
        for name in out.deletes {
            assert!(self.pages.remove(&name));
        }
    }

    fn pages(&self) -> Vec<&str> {
        self.pages.iter().map(|s| s.as_str()).collect()
    }

    fn process_messages(&self, file: u16) -> Vec<String> {
        messages(&self.compiler, file)
    }

    fn compile_messages(&self, file: u16) -> Option<(Vec<String>, Vec<String>)> {
        self.compiler.compile_diagnostics().get(&file).map(|(w, e)| (w.clone(), e.clone()))
    }
}

fn duplicate_message(name: &str) -> String {
    format!("duplicate node identifier across files: {name:?}")
}

#[test]
fn duplicate_identifier_after_compile_error_recovery_matches_stateless() {
    let mut site = Site::new();

    site.compiler.update(
        1,
        Compiled { warnings: vec!["compile warning".to_owned()], output: Err(vec!["compile error".to_owned()]) },
    );
    site.process();
    assert!(site.pages().is_empty());
    assert_eq!(
        site.compile_messages(1),
        Some((vec!["compile warning".to_owned()], vec!["compile error".to_owned()]))
    );
    assert!(site.compiler.process_diagnostics().is_empty());

    site.compiler.update(2, compiled(vec![output("n0", &[], &[])]));
    site.process();
    assert_eq!(site.pages(), vec!["n0"]);
    assert!(site.compiler.process_diagnostics().is_empty());

    site.compiler.update(
        1,
        Compiled { warnings: vec!["compile warning".to_owned()], output: Ok(vec![output("n0", &[], &[])]) },
    );
    site.process();
    assert!(site.pages().is_empty());
    assert_eq!(site.compile_messages(1), Some((vec!["compile warning".to_owned()], Vec::new())));
    assert_eq!(site.process_messages(1), vec![duplicate_message("n0")]);
    assert_eq!(site.process_messages(2), vec![duplicate_message("n0")]);
}

#[test]
fn duplicate_identifier_resolves_when_other_file_is_deleted() {
    let mut site = Site::new();

    site.compiler.update(1, compiled(vec![output("n0", &[], &[])]));
    site.process();
    assert_eq!(site.pages(), vec!["n0"]);

    site.compiler.update(2, compiled(vec![output("n0", &[], &[])]));
    site.process();
    assert!(site.pages().is_empty());
    assert_eq!(site.process_messages(1), vec![duplicate_message("n0")]);
    assert_eq!(site.process_messages(2), vec![duplicate_message("n0")]);

    site.compiler.remove(1);
    site.process();
    assert_eq!(site.pages(), vec!["n0"]);
    assert!(site.compiler.process_diagnostics().is_empty());
}

#[test]
fn duplicate_identifier_resolves_when_other_file_regains_compile_error() {
    let mut site = Site::new();

    site.compiler.update(1, compiled(vec![output("n0", &[], &[])]));
    site.process();
    assert_eq!(site.pages(), vec!["n0"]);

    site.compiler.update(2, compiled(vec![output("n0", &[], &[])]));
    site.process();
    assert!(site.pages().is_empty());

    site.compiler.update(1, Compiled { warnings: Vec::new(), output: Err(vec!["compile error".to_owned()]) });
    site.process();
    assert_eq!(site.pages(), vec!["n0"]);
    assert_eq!(site.compile_messages(1), Some((Vec::new(), vec!["compile error".to_owned()])));
    assert!(site.compiler.process_diagnostics().is_empty());
}

#[test]
fn duplicate_identifier_third_file_gets_diagnostic() {
    let mut site = Site::new();

    site.compiler.update(1, compiled(vec![output("n0", &[], &[])]));
    site.process();
    assert_eq!(site.pages(), vec!["n0"]);

    site.compiler.update(2, compiled(vec![output("n0", &[], &[])]));
    site.process();
    assert!(site.pages().is_empty());

    site.compiler.update(3, compiled(vec![output("n0", &[], &[])]));
    site.process();
    assert!(site.pages().is_empty());
    for file in 1..=3 {
        assert_eq!(site.process_messages(file), vec![duplicate_message("n0")]);
    }
}
