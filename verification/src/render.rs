use std::collections::HashMap;

use vstd::prelude::*;

use crate::compiler::Metadata;
use crate::interner::NodeId;

verus! {

/// What a link template needs about a link's target when it is defined.
pub struct ResolvedLink<'a> {
    pub title: &'a str,
    pub title_text: &'a str,
    pub metadata: &'a Metadata,
}

/// What a link template needs: the target's name, the link's own metadata,
/// and the target when it is defined.
pub struct LinkInput<'a> {
    pub identifier: &'a str,
    pub metadata: Option<&'a Metadata>,
    pub resolution: Option<ResolvedLink<'a>>,
}

/// What a transclusion template needs about the transcluded node when it is
/// defined, with its rendered body.
pub struct ResolvedTransclusion<'a, Body> {
    pub identifier: &'a str,
    pub title: &'a str,
    pub title_text: &'a str,
    pub metadata: &'a Metadata,
    pub body: &'a Body,
}

/// What a transclusion template needs: the transclusion's own metadata and
/// the transcluded node when it is defined.
pub struct TransclusionInput<'a, Body> {
    pub metadata: Option<&'a Metadata>,
    pub resolution: Option<ResolvedTransclusion<'a, Body>>,
}

/// What rendering a node's body needs: its HTML, and its links and
/// transclusions by counter.
pub struct BodyInput<'a, Body> {
    pub body_html: &'a str,
    pub links: HashMap<u32, LinkInput<'a>>,
    pub transclusions: HashMap<u32, TransclusionInput<'a, Body>>,
}

/// What a backmatter shows of a node.
#[derive(Clone, Copy)]
pub struct BackmatterNode<'a> {
    pub title: &'a str,
    pub title_text: &'a str,
    pub metadata: &'a Metadata,
}

/// What rendering a node's backmatter needs: the node, and the nodes that
/// transclude it, link to it and that it links to, each by name in order,
/// with what is shown of those that are defined.
pub struct BackmatterInput<'a> {
    pub node: (String, BackmatterNode<'a>),
    pub contexts: Vec<(String, Option<BackmatterNode<'a>>)>,
    pub backlinks: Vec<(String, Option<BackmatterNode<'a>>)>,
    pub outlinks: Vec<(String, Option<BackmatterNode<'a>>)>,
}

/// What rendering a node's page needs: the node, its rendered body and its
/// rendered backmatter.
pub struct NodeInput<'a, Body, Backmatter> {
    pub identifier: String,
    pub title: &'a str,
    pub title_text: &'a str,
    pub metadata: &'a Metadata,
    pub body: &'a Body,
    pub backmatter: &'a Backmatter,
}

/// What is shown of a defined node: its title, the title's text and its
/// metadata.
pub struct TargetView {
    pub title: Seq<char>,
    pub title_text: Seq<char>,
    pub metadata: Metadata,
}

/// The abstract value of an optional borrowed metadata.
pub open spec fn metadata_view(m: Option<&Metadata>) -> Option<Metadata> {
    match m {
        Some(v) => Some(*v),
        None => None,
    }
}

impl View for ResolvedLink<'_> {
    type V = TargetView;

    open spec fn view(&self) -> TargetView {
        TargetView { title: self.title@, title_text: self.title_text@, metadata: *self.metadata }
    }
}

/// The abstract value of a [`LinkInput`].
pub struct LinkView {
    pub identifier: Seq<char>,
    pub metadata: Option<Metadata>,
    pub resolution: Option<TargetView>,
}

impl View for LinkInput<'_> {
    type V = LinkView;

    open spec fn view(&self) -> LinkView {
        LinkView {
            identifier: self.identifier@,
            metadata: metadata_view(self.metadata),
            resolution: match self.resolution {
                Some(r) => Some(r@),
                None => None,
            },
        }
    }
}

/// The abstract value of a [`ResolvedTransclusion`].
pub struct ResolvedTransclusionView<Body> {
    pub identifier: Seq<char>,
    pub target: TargetView,
    pub body: Body,
}

impl<Body> View for ResolvedTransclusion<'_, Body> {
    type V = ResolvedTransclusionView<Body>;

    open spec fn view(&self) -> ResolvedTransclusionView<Body> {
        ResolvedTransclusionView {
            identifier: self.identifier@,
            target: TargetView {
                title: self.title@,
                title_text: self.title_text@,
                metadata: *self.metadata,
            },
            body: *self.body,
        }
    }
}

/// The abstract value of a [`TransclusionInput`].
pub struct TransclusionView<Body> {
    pub metadata: Option<Metadata>,
    pub resolution: Option<ResolvedTransclusionView<Body>>,
}

impl<Body> View for TransclusionInput<'_, Body> {
    type V = TransclusionView<Body>;

    open spec fn view(&self) -> TransclusionView<Body> {
        TransclusionView {
            metadata: metadata_view(self.metadata),
            resolution: match self.resolution {
                Some(r) => Some(r@),
                None => None,
            },
        }
    }
}

/// The abstract value of a [`BodyInput`].
pub struct BodyView<Body> {
    pub body_html: Seq<char>,
    pub links: Map<u32, LinkView>,
    pub transclusions: Map<u32, TransclusionView<Body>>,
}

impl<Body> View for BodyInput<'_, Body> {
    type V = BodyView<Body>;

    open spec fn view(&self) -> BodyView<Body> {
        BodyView {
            body_html: self.body_html@,
            links: self.links@.map_values(|l: LinkInput| l@),
            transclusions: self.transclusions@.map_values(|t: TransclusionInput<Body>| t@),
        }
    }
}

impl View for BackmatterNode<'_> {
    type V = TargetView;

    open spec fn view(&self) -> TargetView {
        TargetView { title: self.title@, title_text: self.title_text@, metadata: *self.metadata }
    }
}

/// The abstract value of one backmatter entry: the name, and what is shown
/// of the node when it is defined.
pub open spec fn entry_view(e: (String, Option<BackmatterNode>)) -> (Seq<char>, Option<TargetView>) {
    (
        e.0@,
        match e.1 {
            Some(n) => Some(n@),
            None => None,
        },
    )
}

/// Turns the inputs that the library assembles into rendered bodies,
/// backmatters and pages. Users implement it with the template engine of
/// their choice.
pub trait Render {
    type Body;
    type Backmatter;
    type Node;
    type Error;

    /// Renders the body of a node.
    fn render_body(&self, input: BodyInput<'_, Self::Body>) -> Result<Self::Body, Self::Error>;

    /// Renders the backmatter of a node.
    fn render_backmatter(&self, input: BackmatterInput<'_>) -> Result<Self::Backmatter, Self::Error>;

    /// Renders the page of a node.
    fn render_node(
        &self,
        input: NodeInput<'_, Self::Body, Self::Backmatter>,
    ) -> Result<Self::Node, Self::Error>;
}

/// Why rendering the plan stopped: the renderer failed, or the input of a
/// planned node could not be assembled (the node is not defined exactly
/// once, its body's links or transclusions are malformed, or what it needs
/// was not rendered).
pub enum RenderFailure<E> {
    Renderer(E),
    Unavailable(NodeId),
}

} // verus!
