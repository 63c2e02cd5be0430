use std::collections::HashMap;

use weibian::body::{render_body_html, BodyFailure};
use weibian::render::{BodyInput, LinkInput, TransclusionInput};

fn link(identifier: &str) -> LinkInput<'_> {
    LinkInput { identifier, metadata: None, resolution: None }
}

fn render(input: &BodyInput<'_, String>) -> Result<String, BodyFailure<String>> {
    render_body_html(
        input,
        |l: &LinkInput<'_>, content: String| Ok::<String, String>(format!("<a href=\"/{}.html\">{content}</a>", l.identifier)),
        |t: &TransclusionInput<'_, String>, id: &str| {
            Ok::<String, String>(match &t.resolution {
                Some(r) => format!("<section>{}</section>", r.body),
                None => format!("<span>missing {id}</span>"),
            })
        },
    )
}

#[test]
fn links_and_transclusions_are_substituted() {
    let mut links = HashMap::new();
    links.insert(1, link("x"));
    links.insert(2, link("y"));
    let mut transclusions = HashMap::new();
    transclusions.insert(5, TransclusionInput { metadata: None, resolution: None });
    let input = BodyInput {
        body_html: "<p><a href=\"wb:x\" data-counter=\"1\">X</a> <a href=\"https://e.org\">e</a> <a href=\"wb:y\" data-counter=\"2\">Y</a></p><wb-transclude identifier=\"z\" counter=\"5\"></wb-transclude>",
        links,
        transclusions,
    };
    let out = render(&input).ok().expect("rendered");
    assert_eq!(
        out,
        "<p><a href=\"/x.html\">X</a> <a href=\"https://e.org\">e</a> <a href=\"/y.html\">Y</a></p><span>missing z</span>"
    );
}

#[test]
fn undescribed_link_is_malformed() {
    let input = BodyInput {
        body_html: "<a href=\"wb:x\" data-counter=\"1\">X</a>",
        links: HashMap::new(),
        transclusions: HashMap::new(),
    };
    assert!(matches!(render(&input), Err(BodyFailure::Malformed)));
}

#[test]
fn template_error_stops_rendering() {
    let mut links = HashMap::new();
    links.insert(1, link("x"));
    let input = BodyInput { body_html: "<a href=\"wb:x\" data-counter=\"1\">X</a>", links, transclusions: HashMap::new() };
    let r = render_body_html(
        &input,
        |_: &LinkInput<'_>, _: String| Err::<String, String>("bad template".to_owned()),
        |_: &TransclusionInput<'_, String>, _: &str| Ok::<String, String>(String::new()),
    );
    match r {
        Err(BodyFailure::Template(e)) => assert_eq!(e, "bad template"),
        _ => panic!("expected the template's error"),
    }
}
