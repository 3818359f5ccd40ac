//! The library's model of a parsed document: its nodes in document order
//! (pre-order), each with its depth in the tree.
use vstd::prelude::*;
use crate::finder::Finder;

verus! {

#[verifier::external_type_specification]
#[verifier::external_body]
pub struct ExHtml(scraper::Html);

#[verifier::external_type_specification]
#[verifier::external_body]
pub struct ExSelector(scraper::Selector);

/// What an element holds that the extraction reads.
pub struct ElementData {
    /// The local tag name, such as `h1`.
    pub name: String,
    /// The opening tag with its attributes, such as `<h1 class="foo">`.
    pub tag: String,
    /// The attributes, name and value.
    pub attrs: Vec<(String, String)>,
}

pub enum NodeKind {
    Element(ElementData),
    Text(String),
    Comment(String),
    /// The document node, a doctype or a processing instruction.
    Other,
}

/// A node and its depth: the document node has depth 0, its children 1.
pub struct DomNode {
    pub depth: usize,
    pub kind: NodeKind,
}

/// The first position at or after `j` whose node is at depth `d` or less,
/// or the length.
pub open spec fn end_from(nodes: Seq<DomNode>, d: usize, j: int) -> int
    decreases nodes.len() - j,
{
    if j < 0 || j >= nodes.len() {
        nodes.len() as int
    } else if nodes[j].depth <= d {
        j
    } else {
        end_from(nodes, d, j + 1)
    }
}

/// One past the last descendant of node `i`: its subtree is `i..subtree_end`.
pub open spec fn subtree_end(nodes: Seq<DomNode>, i: int) -> int {
    end_from(nodes, nodes[i].depth, i + 1)
}

pub proof fn lemma_end_from_bounds(nodes: Seq<DomNode>, d: usize, j: int)
    requires
        0 <= j <= nodes.len(),
    ensures
        j <= end_from(nodes, d, j) <= nodes.len(),
    decreases nodes.len() - j,
{
    if j < nodes.len() && nodes[j].depth > d {
        lemma_end_from_bounds(nodes, d, j + 1);
    }
}

pub proof fn lemma_subtree_end_bounds(nodes: Seq<DomNode>, i: int)
    requires
        0 <= i < nodes.len(),
    ensures
        i < subtree_end(nodes, i) <= nodes.len(),
{
    lemma_end_from_bounds(nodes, nodes[i].depth, i + 1);
}

/// One past the last descendant of node `i`.
pub fn subtree_end_of(nodes: &Vec<DomNode>, i: usize) -> (r: usize)
    requires
        i < nodes@.len(),
    ensures
        r == subtree_end(nodes@, i as int),
        i < r <= nodes@.len(),
{
    let d = nodes[i].depth;
    let len = nodes.len();
    let mut j: usize = i + 1;
    while j < nodes.len() && nodes[j].depth > d
        invariant
            i < j <= nodes@.len(),
            d == nodes@[i as int].depth,
            subtree_end(nodes@, i as int) == end_from(nodes@, d, j as int),
        decreases nodes@.len() - j,
    {
        j = j + 1;
    }
    j
}

/// The nodes, in pre-order from the document node, of the tree that
/// scraper's HTML parser builds from `text`.
pub uninterp spec fn document_nodes(text: Seq<char>) -> Seq<DomNode>;

/// For each node of `document_nodes(text)`, whether the selector compiled
/// from `selector` matches it.
pub uninterp spec fn selector_hits(selector: Seq<char>, text: Seq<char>) -> Seq<bool>;

/// A parsed document: the text it was parsed from, the parser's own tree,
/// which selectors are matched against, and the nodes that the extraction
/// reads. Only [`Document::parse`] makes one, so the three agree.
pub struct Document {
    html: scraper::Html,
    text: String,
    nodes: Vec<DomNode>,
}

/// Relies on `scraper::Html::parse_document`, whose tree depends on the
/// text alone, and on `ego_tree::NodeRef::descendants`, which walks that
/// tree in pre-order from the document node, with `ancestors` for each
/// node's depth; each node's data is copied as it is.
#[verifier::external_body]
fn parse_html(text: &str) -> (r: (scraper::Html, Vec<DomNode>))
    ensures
        r.1@ == document_nodes(text@),
{
    let html = scraper::Html::parse_document(text);
    let nodes = html.tree.root().descendants().map(|n| DomNode {
        depth: n.ancestors().count(),
        kind: match n.value() {
            scraper::Node::Element(e) => NodeKind::Element(ElementData {
                name: e.name().to_string(),
                tag: format!("{:?}", e),
                attrs: e.attrs().map(|(k, v)| (k.to_string(), v.to_string())).collect(),
            }),
            scraper::Node::Text(t) => NodeKind::Text(t.to_string()),
            scraper::Node::Comment(c) => NodeKind::Comment(c.to_string()),
            _ => NodeKind::Other,
        },
    }).collect();
    (html, nodes)
}

/// Relies on `scraper::Selector::matches`, asked of each node of the same
/// pre-order walk as [`parse_html`]; a node that is not an element matches
/// nothing. The document's tree was parsed from its text and the finder's
/// selector compiled from its source, by the only constructors of each.
#[verifier::external_body]
fn match_flags(document: &Document, finder: &Finder) -> (r: Vec<bool>)
    ensures
        r@ == selector_hits(finder.source_view(), document.text_view()),
{
    let selector = &finder.selector;
    document.html.tree.root().descendants().map(|n| scraper::ElementRef::wrap(n).is_some_and(|e| selector.matches(&e))).collect()
}

impl Document {
    /// The text the document was parsed from.
    pub closed spec fn text_view(&self) -> Seq<char> {
        self.text@
    }

    /// The document's nodes in pre-order.
    pub closed spec fn nodes_view(&self) -> Seq<DomNode> {
        self.nodes@
    }

    /// Parses `text` as a whole HTML document.
    pub fn parse(text: &str) -> (r: Document)
        ensures
            r.text_view() == text@,
            r.nodes_view() == document_nodes(text@),
    {
        let (html, nodes) = parse_html(text);
        Document { html, text: text.to_owned(), nodes }
    }

    /// The document's nodes in pre-order.
    pub fn nodes(&self) -> (r: &Vec<DomNode>)
        ensures
            r@ == self.nodes_view(),
    {
        &self.nodes
    }

    /// For each node, in the order of [`Document::nodes`], whether the
    /// finder's selector matches it.
    pub fn matches(&self, finder: &Finder) -> (r: Vec<bool>)
        ensures
            r@ == selector_hits(finder.source_view(), self.text_view()),
    {
        match_flags(self, finder)
    }
}

} // verus!
