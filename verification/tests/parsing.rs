//! End-to-end parsing scenarios: raw markup through the html5ever tokenizer
//! into the verified tree builder.

use std::cell::RefCell;

use html5ever::tendril::StrTendril;
use html5ever::tokenizer::{
    BufferQueue, TagKind, Token, TokenSink, TokenSinkResult, Tokenizer, TokenizerOpts,
};

use engine::node::{Enum, Tree};
use engine::parser::{parse, SaxToken};

struct Collector {
    out: RefCell<Vec<SaxToken>>,
}

impl TokenSink for Collector {
    type Handle = ();

    fn process_token(&self, token: Token, _line: u64) -> TokenSinkResult<()> {
        match token {
            Token::CharacterTokens(t) => {
                self.out.borrow_mut().push(SaxToken::Characters(t.to_string()));
            }
            Token::CommentToken(t) => {
                self.out.borrow_mut().push(SaxToken::Comment(t.to_string()));
            }
            Token::NullCharacterToken => {
                self.out.borrow_mut().push(SaxToken::NullCharacter);
            }
            Token::TagToken(tag) => {
                let name = tag.name.to_string();
                match tag.kind {
                    TagKind::StartTag => self.out.borrow_mut().push(SaxToken::StartTag {
                        name,
                        attributes: tag
                            .attrs
                            .iter()
                            .map(|a| (a.name.local.to_string(), a.value.to_string()))
                            .collect(),
                        self_closing: tag.self_closing,
                    }),
                    TagKind::EndTag => self.out.borrow_mut().push(SaxToken::EndTag {
                        name,
                        self_closing: tag.self_closing,
                    }),
                }
            }
            _ => {}
        }
        TokenSinkResult::Continue
    }
}

fn tokenize(html: &str) -> Vec<SaxToken> {
    let sink = Collector { out: RefCell::new(Vec::new()) };
    let tok = Tokenizer::new(sink, TokenizerOpts::default());
    let input = BufferQueue::default();
    input.push_back(StrTendril::from(html));
    let _ = tok.feed(&input);
    tok.end();
    tok.sink.out.into_inner()
}

fn parse_html(html: &str, filter: bool) -> Tree {
    parse(tokenize(html), filter)
}

fn element_name(tree: &Tree, id: usize) -> String {
    match &tree.nodes[id].node {
        Enum::Element { name, .. } => name.clone(),
        other => panic!("expected an element, found {:?}", other),
    }
}

#[test]
fn unfiltered_nesting_is_preserved() {
    // Document -> div -> p -> Text("Hello")
    let tree = parse_html("<div><p>Hello</p></div>", false);
    assert_eq!(tree.nodes.len(), 4);
    assert!(matches!(tree.nodes[0].node, Enum::Document));
    assert_eq!(tree.nodes[0].children, vec![1]);
    assert_eq!(element_name(&tree, 1), "div");
    assert_eq!(tree.nodes[1].children, vec![2]);
    assert_eq!(tree.nodes[1].parent, Some(0));
    assert_eq!(element_name(&tree, 2), "p");
    assert_eq!(tree.nodes[2].children, vec![3]);
    assert_eq!(tree.nodes[2].parent, Some(1));
    match &tree.nodes[3].node {
        Enum::Text(t) => assert_eq!(t, "Hello"),
        other => panic!("expected text, found {:?}", other),
    }
    assert_eq!(tree.nodes[3].parent, Some(2));
}

#[test]
fn filtered_form_keeps_no_disallowed_content() {
    // form stays, the div and its text vanish entirely
    let tree = parse_html("<form><div>x</div></form>", true);
    assert_eq!(tree.nodes.len(), 2);
    assert_eq!(element_name(&tree, 1), "form");
    assert!(tree.nodes[1].children.is_empty());
}

#[test]
fn anchor_with_fragment_href_is_denied() {
    let tree = parse_html("<a href=\"#\">link</a>", true);
    assert_eq!(tree.nodes.len(), 1);
    assert!(tree.nodes[0].children.is_empty());
}

#[test]
fn anchor_with_real_href_is_kept_without_its_text() {
    let tree = parse_html("<a href=\"/x\">link</a>", true);
    assert_eq!(tree.nodes.len(), 2);
    assert_eq!(element_name(&tree, 1), "a");
    assert!(tree.nodes[1].children.is_empty());
    match &tree.nodes[1].node {
        Enum::Element { attributes, .. } => {
            assert_eq!(attributes, &vec![("href".to_string(), "/x".to_string())]);
        }
        other => panic!("expected an element, found {:?}", other),
    }
}

#[test]
fn img_without_explicit_self_close_is_a_self_closing_leaf() {
    let tree = parse_html("<img src=foo>", false);
    assert_eq!(tree.nodes.len(), 2);
    match &tree.nodes[1].node {
        Enum::Element { name, self_closing, .. } => {
            assert_eq!(name, "img");
            assert!(*self_closing);
        }
        other => panic!("expected an element, found {:?}", other),
    }
    assert!(tree.nodes[1].children.is_empty());
}

#[test]
fn attribute_query_fires_once_on_the_anchor() {
    let tree = parse_html("<a href=\"/x\">link</a>", true);
    let hits = tree.nodes_by_attribute_name_and_value(0, "href", "/x");
    assert_eq!(hits, vec![1]);
    assert_eq!(element_name(&tree, 1), "a");
}

#[test]
fn parsing_twice_yields_identical_trees() {
    let input = "<form name=f><input type=text><!-- note --><a href=\"/go\">go</a></form>";
    for &filter in &[false, true] {
        let first = parse_html(input, filter);
        let second = parse_html(input, filter);
        assert_eq!(first, second);
    }
}

#[test]
fn comments_survive_filtering_identically() {
    let input = "<div><!-- first --><p><!-- second --></p></div>";
    let kept = parse_html(input, false);
    let filtered = parse_html(input, true);
    let collect = |tree: &Tree| -> Vec<String> {
        tree.traverse_comments(0)
            .into_iter()
            .map(|id| tree.text(id))
            .collect()
    };
    assert_eq!(collect(&kept), vec!["first".to_string(), "second".to_string()]);
    assert_eq!(collect(&kept), collect(&filtered));
}

#[test]
fn void_elements_are_always_leaves() {
    let tree = parse_html("<div><br><hr><img src=i></div>", false);
    for node in &tree.nodes {
        if let Enum::Element { name, self_closing, .. } = &node.node {
            match name.as_str() {
                "br" | "hr" | "img" => {
                    assert!(*self_closing);
                    assert!(node.children.is_empty());
                }
                _ => {}
            }
        }
    }
}

#[test]
fn whitespace_only_text_is_discarded_and_content_trimmed() {
    let tree = parse_html("<p>   </p><p>  word  </p>", false);
    let texts: Vec<String> = tree
        .traverse(0)
        .into_iter()
        .filter(|&id| matches!(tree.nodes[id].node, Enum::Text(_)))
        .map(|id| tree.text(id))
        .collect();
    assert_eq!(texts, vec!["word".to_string()]);
}

#[test]
fn frame_needs_nonempty_src() {
    let tree = parse_html("<iframe src=\"\"></iframe><iframe src=\"/f\"></iframe>", true);
    let frames = tree.nodes_by_name(0, "iframe");
    assert_eq!(frames.len(), 1);
    match &tree.nodes[frames[0]].node {
        Enum::Element { attributes, .. } => {
            assert_eq!(attributes[0].1, "/f");
        }
        other => panic!("expected an element, found {:?}", other),
    }
}

#[test]
fn meta_needs_cookie_or_refresh_http_equiv() {
    let kept = parse_html("<meta http-equiv=\"Set-Cookie\" content=\"a=b\">", true);
    assert_eq!(kept.nodes_by_name(0, "meta").len(), 1);
    let dropped = parse_html("<meta http-equiv=\"Content-Type\" content=\"x\">", true);
    assert_eq!(dropped.nodes_by_name(0, "meta").len(), 0);
    let refresh = parse_html("<meta http-equiv=\"REFRESH\" content=\"1\">", true);
    assert_eq!(refresh.nodes_by_name(0, "meta").len(), 1);
}

#[test]
fn select_needs_name_or_id() {
    let kept = parse_html("<select name=s></select>", true);
    assert_eq!(kept.nodes_by_name(0, "select").len(), 1);
    let dropped = parse_html("<select></select>", true);
    assert_eq!(dropped.nodes_by_name(0, "select").len(), 0);
}

#[test]
fn text_under_script_is_kept_when_filtering() {
    let tree = parse_html("<script>var a = 1;</script>", true);
    let scripts = tree.nodes_by_name(0, "script");
    assert_eq!(scripts.len(), 1);
    assert_eq!(tree.text(scripts[0]), "var a = 1;");
}

#[test]
fn to_html_round_trips_structure() {
    let tree = parse_html("<div><p>Hello</p></div>", false);
    let html = tree.to_html(0, 4, 0);
    assert_eq!(
        html,
        "<!DOCTYPE html>\n<div>\n    <p>\n        Hello\n    </p>\n</div>\n\n"
    );
}

#[test]
fn to_html_escapes_only_quotes_in_attribute_values() {
    let tree = parse_html("<input title='say \"hi\" <now>'>", false);
    let html = tree.to_html(1, 2, 0);
    assert_eq!(html, "<input title=\"say \\\"hi\\\" <now>\" />\n");
}

#[test]
fn to_html_leaves_text_and_comments_unescaped() {
    let tree = parse_html("<p>plain text</p><!-- \"quoted\" & raw -->", false);
    let html = tree.to_html(0, 4, 0);
    assert!(html.contains("plain text\n"));
    assert!(html.contains("<!-- \"quoted\" & raw -->\n"));
}
