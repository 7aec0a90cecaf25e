//! The boundary to the markup parser: raw page text goes in, the crate's
//! own tree of element and text nodes comes out. Everything past this
//! boundary is verified; the parser itself is trusted.

use vstd::prelude::*;
use crate::dom;
use crate::dom::{DomNode, DomView};
use crate::extract;
use crate::record::{RecordSet, RecView};

verus! {

#[verifier::external_type_specification]
#[verifier::external_body]
pub struct ExNode(scraper::Node);

#[verifier::external_type_specification]
#[verifier::external_body]
#[verifier::reject_recursive_types(T)]
pub struct ExNodeRef<'a, T: 'a>(ego_tree::NodeRef<'a, T>);

/// The tree that parsing a page text yields, as a function of the text
/// alone: the parser is deterministic, and the same document gives the same
/// tree on every machine.
pub uninterp spec fn dom_of(s: Seq<char>) -> Seq<DomView>;

/// Relies on scraper::Node (its Element and Text variants) and
/// ego_tree::NodeRef::children: rebuilds one parser node as a node of this
/// crate's tree, one for one; nodes that carry neither tag structure nor
/// character data yield nothing.
#[verifier::external_body]
fn convert_node(n: ego_tree::NodeRef<'_, scraper::Node>) -> Option<DomNode> {
    match n.value() {
        scraper::Node::Element(e) => {
            let mut children: Vec<DomNode> = Vec::new();
            for c in n.children() {
                if let Some(d) = convert_node(c) {
                    children.push(d);
                }
            }
            Some(DomNode::Element { tag: e.name().to_string(), children })
        },
        scraper::Node::Text(t) => Some(DomNode::Text(t.text.to_string())),
        _ => None,
    }
}

/// Relies on scraper::Html::parse_document: parsing never fails, and the
/// resulting tree depends on the document text alone, so the converted tree
/// is a function of the text, named `dom_of`.
#[verifier::external_body]
pub fn parse_dom(html: &str) -> (r: Vec<DomNode>)
    ensures
        dom::nodes_view(r@) == dom_of(html@),
{
    let doc = scraper::Html::parse_document(html);
    let mut roots: Vec<DomNode> = Vec::new();
    for c in doc.tree.root().children() {
        if let Some(d) = convert_node(c) {
            roots.push(d);
        }
    }
    roots
}

/// Extracts the supporter records from raw page text: the parsed tree is
/// handed to the verified tiered extraction. The result is free of
/// structural duplicates and every record meets the record invariant.
pub fn extract_records(html: &str) -> (r: RecordSet)
    ensures
        r@ == extract::extract_spec(dom_of(html@)),
        r.wf(),
        forall|i: int| 0 <= i < r@.len() ==> crate::record::valid_rec(#[trigger] r@[i]),
{
    let doms = parse_dom(html);
    extract::extract_from_dom(&doms)
}

/// Extracts the page's display title from raw page text, best effort.
pub fn extract_title(html: &str) -> (r: Option<String>)
    ensures
        match r {
            Option::Some(s) => extract::title_at(dom_of(html@)) == Option::Some(s@),
            Option::None => extract::title_at(dom_of(html@)) is None,
        },
{
    let doms = parse_dom(html);
    extract::title_at_exec(&doms)
}

} // verus!
