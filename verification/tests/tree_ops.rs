//! Tree operations through the consumer-facing handles, on streams built by
//! hand so that source casing is under the test's control.

use engine::document::{Kind, Node, NodeError};
use engine::node::{Enum, Tree};
use engine::parser::{initialize, parse, SaxToken};

fn start(name: &str, attributes: Vec<(&str, &str)>, self_closing: bool) -> SaxToken {
    SaxToken::StartTag {
        name: name.to_string(),
        attributes: attributes
            .into_iter()
            .map(|(n, v)| (n.to_string(), v.to_string()))
            .collect(),
        self_closing,
    }
}

fn end(name: &str) -> SaxToken {
    SaxToken::EndTag { name: name.to_string(), self_closing: false }
}

fn text(t: &str) -> SaxToken {
    SaxToken::Characters(t.to_string())
}

fn sample_tree() -> Tree {
    // Document -> DiV(class=Big, CLASS=Second) -> SpAn -> Text("inner")
    parse(
        vec![
            start("DiV", vec![("Class", "Big"), ("CLASS", "Second")], false),
            start("SpAn", vec![], false),
            text("inner"),
            end("SpAn"),
            end("DiV"),
        ],
        false,
    )
}

#[test]
fn initialize_yields_a_lone_root() {
    let tree = initialize();
    assert_eq!(tree.nodes.len(), 1);
    assert!(matches!(tree.nodes[0].node, Enum::Document));
    assert_eq!(tree.nodes[0].parent, None);
    assert!(tree.nodes[0].children.is_empty());
}

#[test]
fn name_preserves_source_case() {
    let tree = sample_tree();
    let div = Node::new(Some(1));
    assert_eq!(div.name(&tree), Ok("DiV".to_string()));
    let root = Node::new(Some(0));
    assert_eq!(root.name(&tree), Ok(String::new()));
}

#[test]
fn nodes_by_name_matches_any_casing() {
    let tree = sample_tree();
    assert_eq!(tree.nodes_by_name(0, "div"), vec![1]);
    assert_eq!(tree.nodes_by_name(0, "DIV"), vec![1]);
    assert_eq!(tree.nodes_by_name(0, "span"), vec![2]);
    assert_eq!(tree.nodes_by_name(0, "SPAN"), vec![2]);
    assert_eq!(tree.nodes_by_name(0, "p"), Vec::<usize>::new());
}

#[test]
fn attribute_query_matches_any_casing_and_fires_once() {
    let tree = sample_tree();
    // both attributes of the div match name "class"; the node fires once
    assert_eq!(tree.nodes_by_attribute_name_and_value(0, "class", "big"), vec![1]);
    assert_eq!(tree.nodes_by_attribute_name_and_value(0, "CLASS", "BIG"), vec![1]);
    assert_eq!(tree.nodes_by_attribute_name_and_value(0, "class", "second"), vec![1]);
    assert_eq!(
        tree.nodes_by_attribute_name_and_value(0, "class", "absent"),
        Vec::<usize>::new()
    );
}

#[test]
fn attributes_are_lower_keyed_and_later_wins() {
    let tree = sample_tree();
    let div = Node::new(Some(1));
    let attrs = div.attributes(&tree).unwrap();
    assert_eq!(attrs, vec![("class".to_string(), "Second".to_string())]);
    let span = Node::new(Some(2));
    assert_eq!(span.attributes(&tree), Ok(Vec::new()));
}

#[test]
fn kinds_are_reported() {
    let tree = sample_tree();
    assert_eq!(Node::new(Some(0)).kind(&tree), Ok(Kind::Document));
    assert_eq!(Node::new(Some(1)).kind(&tree), Ok(Kind::Element));
    assert_eq!(Node::new(Some(3)).kind(&tree), Ok(Kind::Text));
}

#[test]
fn parent_walks_up_and_fails_on_root() {
    let tree = sample_tree();
    let span = Node::new(Some(2));
    let div = span.parent(&tree).unwrap();
    assert_eq!(div.name(&tree), Ok("DiV".to_string()));
    let root = div.parent(&tree).unwrap();
    assert_eq!(root.is_root(&tree), Ok(true));
    assert_eq!(root.parent(&tree), Err(NodeError::NoParent));
}

#[test]
fn freed_handles_report_use_after_free() {
    let tree = sample_tree();
    let mut div = Node::new(Some(1));
    assert!(div.name(&tree).is_ok());
    div.free();
    assert_eq!(div.name(&tree), Err(NodeError::UseAfterFree));
    assert_eq!(div.kind(&tree), Err(NodeError::UseAfterFree));
    assert_eq!(div.parent(&tree), Err(NodeError::UseAfterFree));
    assert_eq!(div.is_root(&tree), Err(NodeError::UseAfterFree));
    assert_eq!(div.text(&tree), Err(NodeError::UseAfterFree));
    assert_eq!(div.attributes(&tree), Err(NodeError::UseAfterFree));
    assert_eq!(div.to_html(&tree, 4, 0), Err(NodeError::UseAfterFree));
    // the tree and other handles are untouched
    let again = Node::new(Some(1));
    assert_eq!(again.name(&tree), Ok("DiV".to_string()));
}

#[test]
fn text_descends_into_the_first_child() {
    let tree = sample_tree();
    assert_eq!(tree.text(3), "inner");
    assert_eq!(tree.text(2), "inner");
    assert_eq!(tree.text(1), "inner");
    assert_eq!(tree.text(0), "");
}

#[test]
fn traverse_lists_descendants_in_document_order() {
    let tree = sample_tree();
    assert_eq!(tree.traverse(0), vec![1, 2, 3]);
    assert_eq!(tree.traverse(1), vec![2, 3]);
    assert_eq!(tree.traverse(2), vec![3]);
    assert_eq!(tree.traverse(3), Vec::<usize>::new());
}

#[test]
fn handle_traversals_wrap_indices() {
    let tree = sample_tree();
    let root = Node::new(Some(0));
    let all = root.traverse(&tree).unwrap();
    assert_eq!(all.len(), 3);
    assert_eq!(all[0].name(&tree), Ok("DiV".to_string()));
    let spans = root.nodes_by_name(&tree, "span").unwrap();
    assert_eq!(spans.len(), 1);
    assert_eq!(spans[0].kind(&tree), Ok(Kind::Element));
}

#[test]
fn null_character_becomes_a_text_node() {
    let tree = parse(vec![start("p", vec![], false), SaxToken::NullCharacter, end("p")], false);
    assert_eq!(tree.nodes.len(), 3);
    match &tree.nodes[2].node {
        Enum::Text(t) => assert_eq!(t, "\0"),
        other => panic!("expected text, found {:?}", other),
    }
}

#[test]
fn comments_are_trimmed_and_empty_ones_dropped() {
    let tree = parse(
        vec![SaxToken::Comment("   ".to_string()), SaxToken::Comment("  kept  ".to_string())],
        true,
    );
    assert_eq!(tree.nodes.len(), 2);
    assert_eq!(tree.text(1), "kept");
}

#[test]
fn allowed_element_inside_denied_subtree_attaches_to_last_open_ancestor() {
    // the div is denied; the form inside it still satisfies the policy
    // against the document root, so it is materialized there
    let tree = parse(
        vec![
            start("div", vec![], false),
            start("form", vec![], false),
            end("form"),
            end("div"),
        ],
        true,
    );
    assert_eq!(tree.nodes.len(), 2);
    match &tree.nodes[1].node {
        Enum::Element { name, .. } => assert_eq!(name, "form"),
        other => panic!("expected an element, found {:?}", other),
    }
    assert_eq!(tree.nodes[1].parent, Some(0));
}

#[test]
fn deeply_denied_subtrees_collapse_to_nothing() {
    let tree = parse(
        vec![
            start("div", vec![], false),
            start("ul", vec![], false),
            start("li", vec![], false),
            text("junk"),
            end("li"),
            end("ul"),
            end("div"),
        ],
        true,
    );
    assert_eq!(tree.nodes.len(), 1);
}

#[test]
fn stray_end_tags_never_pop_past_the_root() {
    let tree = parse(vec![end("div"), end("p"), start("form", vec![], false)], false);
    assert_eq!(tree.nodes.len(), 2);
    assert_eq!(tree.nodes[1].parent, Some(0));
}

#[test]
fn empty_document_serializes_to_the_doctype_alone() {
    let tree = initialize();
    assert_eq!(tree.to_html(0, 4, 0), "<!DOCTYPE html>\n\n");
}

#[test]
fn handle_to_html_matches_tree_to_html() {
    let tree = sample_tree();
    let div = Node::new(Some(1));
    assert_eq!(div.to_html(&tree, 2, 0), Ok(tree.to_html(1, 2, 0)));
}
