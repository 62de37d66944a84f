//! The tokenizer adapter and the parse entry point.
//!
//! An external lexical tokenizer turns raw markup into a stream of
//! start/end/text/comment events; this module sanitizes each event
//! (whitespace trimming, empty-run suppression, the null character) and
//! feeds it to the builder. `parse` consumes a whole stream and returns the
//! finished tree, whose model is fully determined by the stream and the
//! filter flag.

use vstd::prelude::*;

use crate::handler::{
    append_node, builder_inv, elements_allowed, initial_model, lemma_comment_preserves,
    lemma_end_preserves, lemma_start_preserves, lemma_text_preserves, model_comment,
    model_end_element, model_start_element, model_text, normalized, spec_allow, BuilderModel,
    CandidateKind, Handler,
};
use crate::node::{
    data_name, initial_tree, lemma_initial_tree_wf, DataModel, Node, NodeModel, Tree,
};
use crate::strings::{push_char, trim, trim_spec};

verus! {

/// One lexical event, as the external tokenizer reports it.
#[derive(Debug, Clone, PartialEq)]
pub enum SaxToken {
    /// A start tag with its attributes, in source order.
    StartTag { name: String, attributes: Vec<(String, String)>, self_closing: bool },
    /// An end tag.
    EndTag { name: String, self_closing: bool },
    /// A run of character data.
    Characters(String),
    /// A lone null character in the input.
    NullCharacter,
    /// A comment.
    Comment(String),
}

/// Spec-level mirror of `SaxToken`.
#[verifier::ext_equal]
pub enum TokenModel {
    StartTag { name: Seq<char>, attributes: Seq<(Seq<char>, Seq<char>)>, self_closing: bool },
    EndTag { name: Seq<char>, self_closing: bool },
    Characters(Seq<char>),
    NullCharacter,
    Comment(Seq<char>),
}

impl View for SaxToken {
    type V = TokenModel;

    open spec fn view(&self) -> TokenModel {
        match self {
            SaxToken::StartTag { name, attributes, self_closing } => TokenModel::StartTag {
                name: name@,
                attributes: crate::node::attrs_model(attributes@),
                self_closing: *self_closing,
            },
            SaxToken::EndTag { name, self_closing } => TokenModel::EndTag {
                name: name@,
                self_closing: *self_closing,
            },
            SaxToken::Characters(s) => TokenModel::Characters(s@),
            SaxToken::NullCharacter => TokenModel::NullCharacter,
            SaxToken::Comment(s) => TokenModel::Comment(s@),
        }
    }
}

/// The spec-level image of an event stream.
pub open spec fn tokens_model(ts: Seq<SaxToken>) -> Seq<TokenModel> {
    ts.map_values(|t: SaxToken| t@)
}

/// One step of the pipeline: the adapter's sanitization (trimming, dropping
/// runs that trim to nothing, turning the null character into a one-character
/// text run, ignoring self-closing end tags) followed by the builder
/// transition for the event.
pub open spec fn model_process_token(
    s: BuilderModel,
    filter: bool,
    tok: TokenModel,
) -> BuilderModel {
    match tok {
        TokenModel::StartTag { name, attributes, self_closing } => model_start_element(
            s,
            filter,
            name,
            attributes,
            self_closing,
        ),
        TokenModel::EndTag { name, self_closing } => {
            if self_closing {
                s
            } else {
                model_end_element(s, filter, name)
            }
        },
        TokenModel::Characters(raw) => {
            let t = trim_spec(raw);
            if t.len() == 0 {
                s
            } else {
                model_text(s, filter, t)
            }
        },
        TokenModel::NullCharacter => model_text(s, filter, seq!['\0']),
        TokenModel::Comment(raw) => {
            let t = trim_spec(raw);
            if t.len() == 0 {
                s
            } else {
                model_comment(s, t)
            }
        },
    }
}

/// The builder state after consuming a whole event stream, filter flag fixed.
pub open spec fn build_model(toks: Seq<TokenModel>, filter: bool) -> BuilderModel
    decreases toks.len(),
{
    if toks.len() == 0 {
        initial_model()
    } else {
        model_process_token(build_model(toks.drop_last(), filter), filter, toks.last())
    }
}

/// Every pipeline step preserves everything the builder maintains.
pub proof fn lemma_process_preserves(s: BuilderModel, filter: bool, tok: TokenModel)
    requires
        builder_inv(s, filter),
    ensures
        builder_inv(model_process_token(s, filter, tok), filter),
{
    match tok {
        TokenModel::StartTag { name, attributes, self_closing } => {
            lemma_start_preserves(s, filter, name, attributes, self_closing);
        },
        TokenModel::EndTag { name, self_closing } => {
            if !self_closing {
                lemma_end_preserves(s, filter, name);
            }
        },
        TokenModel::Characters(raw) => {
            if trim_spec(raw).len() != 0 {
                lemma_text_preserves(s, filter, trim_spec(raw));
            }
        },
        TokenModel::NullCharacter => {
            lemma_text_preserves(s, filter, seq!['\0']);
        },
        TokenModel::Comment(raw) => {
            if trim_spec(raw).len() != 0 {
                lemma_comment_preserves(s, filter, trim_spec(raw));
            }
        },
    }
}

/// The state after any whole stream is sound: the tree is well-formed, void
/// and self-closing elements are leaves, and (with filtering on) every
/// element of the tree passed the policy.
pub proof fn lemma_build_inv(toks: Seq<TokenModel>, filter: bool)
    ensures
        builder_inv(build_model(toks, filter), filter),
    decreases toks.len(),
{
    if toks.len() == 0 {
        lemma_initial_tree_wf();
        assert(builder_inv(initial_model(), filter));
    } else {
        lemma_build_inv(toks.drop_last(), filter);
        lemma_process_preserves(build_model(toks.drop_last(), filter), filter, toks.last());
    }
}

/// Creates the initial document tree: the lone `Document` root that every
/// build grows from.
pub fn initialize() -> (t: Tree)
    ensures
        t@ == initial_tree(),
        t.wf(),
{
    let mut nodes: Vec<Node> = Vec::new();
    nodes.push(Node { node: crate::node::Enum::Document, parent: None, children: Vec::new() });
    let t = Tree { nodes };
    proof {
        assert(t@[0].children =~= Seq::<int>::empty());
        assert(t@ =~~= initial_tree());
        lemma_initial_tree_wf();
    }
    t
}

/// Feeds one lexical event through the adapter into the builder.
pub fn process_token(handler: &mut Handler, token: SaxToken)
    requires
        old(handler).inv(),
    ensures
        final (handler).inv(),
        final (handler).filter == old(handler).filter,
        final (handler)@ == model_process_token(old(handler)@, old(handler).filter, token@),
{
    match token {
        SaxToken::Characters(text) => {
            let sanitized = trim(text.as_str());
            if sanitized.as_str().is_empty() {
                return ;
            }
            handler.text(sanitized);
        },
        SaxToken::Comment(text) => {
            let sanitized = trim(text.as_str());
            if sanitized.as_str().is_empty() {
                return ;
            }
            handler.comment(sanitized);
        },
        SaxToken::NullCharacter => {
            let mut nul = String::new();
            push_char(&mut nul, '\0');
            proof {
                assert(nul@ =~= seq!['\0']);
            }
            handler.text(nul);
        },
        SaxToken::StartTag { name, attributes, self_closing } => {
            handler.start_element(name, attributes, self_closing);
        },
        SaxToken::EndTag { name, self_closing } => {
            if !self_closing {
                handler.end_element(name.as_str());
            }
        },
    }
}

/// Builds the document tree for a whole event stream. The resulting tree is
/// completely determined by the events and the filter flag: its model is
/// `build_model` of the stream. It is well-formed, its void and self-closing
/// elements are leaves, and with `filter` on every element in it passed the
/// filtering policy against its parent.
pub fn parse(tokens: Vec<SaxToken>, filter: bool) -> (t: Tree)
    ensures
        t@ == build_model(tokens_model(tokens@), filter).nodes,
        t.wf(),
        normalized(t@),
        filter ==> elements_allowed(t@),
{
    let ghost toks = tokens_model(tokens@);
    let mut handler = Handler::new(filter);
    let mut rest = tokens;
    let ghost total = toks.len();
    proof {
        assert(toks.take(0) =~= Seq::<TokenModel>::empty());
    }
    while rest.len() > 0
        invariant
            handler.inv(),
            handler.filter == filter,
            toks.len() == total,
            rest@.len() <= total,
            tokens_model(rest@) =~= toks.skip(total - rest@.len()),
            handler@ == build_model(toks.take(total - rest@.len()), filter),
        decreases rest@.len(),
    {
        let ghost k = total - rest@.len();
        let ghost rold = rest@;
        let tok = rest.remove(0);
        proof {
            assert(tokens_model(rold)[0] == rold[0]@);
            assert(tok@ == toks.skip(k)[0]);
            assert(toks[k] == tok@);
            assert forall|j: int| 0 <= j < rest@.len() implies tokens_model(rest@)[j] == toks.skip(
                k + 1,
            )[j] by {
                assert(rest@[j] == rold[j + 1]);
                assert(tokens_model(rold)[j + 1] == rold[j + 1]@);
                assert(toks.skip(k)[j + 1] == toks[k + 1 + j]);
            }
            assert(tokens_model(rest@) =~= toks.skip(k + 1));
        }
        process_token(&mut handler, tok);
        proof {
            let pre = toks.take(k);
            let pre2 = toks.take(k + 1);
            assert(pre2.drop_last() =~= pre);
            assert(pre2.last() == toks[k]);
        }
    }
    proof {
        assert(toks.take(total as int) =~= toks);
        lemma_build_inv(toks, filter);
    }
    handler.into_tree()
}


/// The comment contents held by an arena, in creation order.
pub open spec fn comments_of(t: Seq<NodeModel>) -> Seq<Seq<char>>
    decreases t.len(),
{
    if t.len() == 0 {
        Seq::empty()
    } else {
        comments_of(t.drop_last()) + (match t.last().data {
            DataModel::Comment(s) => seq![s],
            _ => Seq::empty(),
        })
    }
}

/// What one event contributes to the tree's comments: the trimmed content
/// of a comment event that does not trim to nothing, and nothing otherwise.
/// Independent of the filter flag and of the builder's state.
pub open spec fn comment_delta(tok: TokenModel) -> Seq<Seq<char>> {
    match tok {
        TokenModel::Comment(raw) => {
            if trim_spec(raw).len() == 0 {
                Seq::empty()
            } else {
                seq![trim_spec(raw)]
            }
        },
        _ => Seq::empty(),
    }
}

/// The comment contents a whole event stream contributes, in order.
pub open spec fn comments_of_stream(toks: Seq<TokenModel>) -> Seq<Seq<char>>
    decreases toks.len(),
{
    if toks.len() == 0 {
        Seq::empty()
    } else {
        comments_of_stream(toks.drop_last()) + comment_delta(toks.last())
    }
}

proof fn lemma_comments_update(t: Seq<NodeModel>, i: int, nd: NodeModel)
    requires
        0 <= i < t.len(),
        nd.data == t[i].data,
    ensures
        comments_of(t.update(i, nd)) == comments_of(t),
    decreases t.len(),
{
    let t2 = t.update(i, nd);
    if i == t.len() - 1 {
        assert(t2.drop_last() =~= t.drop_last());
        assert(t2.last().data == t.last().data);
    } else {
        assert(t2.drop_last() =~= t.drop_last().update(i, nd));
        lemma_comments_update(t.drop_last(), i, nd);
        assert(t2.last() == t.last());
    }
}

proof fn lemma_comments_append(t: Seq<NodeModel>, cur: int, nd: NodeModel)
    requires
        0 <= cur < t.len(),
    ensures
        comments_of(append_node(t, cur, nd)) == comments_of(t) + (match nd.data {
            DataModel::Comment(s) => seq![s],
            _ => Seq::empty(),
        }),
{
    let up = t.update(
        cur,
        NodeModel {
            data: t[cur].data,
            parent: t[cur].parent,
            children: t[cur].children.push(t.len() as int),
        },
    );
    lemma_comments_update(t, cur, up[cur]);
    let t2 = up.push(nd);
    assert(t2.drop_last() =~= up);
    assert(t2.last() == nd);
}

/// One pipeline step adds to the tree's comments exactly what the event
/// contributes, independent of the filter flag.
pub proof fn lemma_comments_step(s: BuilderModel, filter: bool, tok: TokenModel)
    requires
        builder_inv(s, filter),
    ensures
        comments_of(model_process_token(s, filter, tok).nodes) == comments_of(s.nodes)
            + comment_delta(tok),
{
    let s2 = model_process_token(s, filter, tok);
    match tok {
        TokenModel::StartTag { name, attributes, self_closing } => {
            if s2.nodes != s.nodes {
                let sc = self_closing || crate::handler::spec_is_void(name);
                lemma_comments_append(
                    s.nodes,
                    s.cursor,
                    crate::handler::elem_model(name, attributes, sc, s.cursor),
                );
            }
            assert(comments_of(s2.nodes) =~= comments_of(s.nodes) + comment_delta(tok));
        },
        TokenModel::EndTag { .. } => {
            assert(comments_of(s2.nodes) =~= comments_of(s.nodes) + comment_delta(tok));
        },
        TokenModel::Characters(raw) => {
            if s2.nodes != s.nodes {
                lemma_comments_append(
                    s.nodes,
                    s.cursor,
                    NodeModel {
                        data: DataModel::Text(trim_spec(raw)),
                        parent: Some(s.cursor),
                        children: Seq::empty(),
                    },
                );
            }
            assert(comments_of(s2.nodes) =~= comments_of(s.nodes) + comment_delta(tok));
        },
        TokenModel::NullCharacter => {
            if s2.nodes != s.nodes {
                lemma_comments_append(
                    s.nodes,
                    s.cursor,
                    NodeModel {
                        data: DataModel::Text(seq!['\0']),
                        parent: Some(s.cursor),
                        children: Seq::empty(),
                    },
                );
            }
            assert(comments_of(s2.nodes) =~= comments_of(s.nodes) + comment_delta(tok));
        },
        TokenModel::Comment(raw) => {
            if trim_spec(raw).len() == 0 {
                assert(comments_of(s2.nodes) =~= comments_of(s.nodes) + comment_delta(tok));
            } else {
                lemma_comments_append(
                    s.nodes,
                    s.cursor,
                    NodeModel {
                        data: DataModel::Comment(trim_spec(raw)),
                        parent: Some(s.cursor),
                        children: Seq::empty(),
                    },
                );
                assert(comments_of(s2.nodes) =~= comments_of(s.nodes) + comment_delta(tok));
            }
        },
    }
}

/// The comments of a built tree are exactly the trimmed, non-empty comment
/// events of the stream, in order, whatever the filter flag.
pub proof fn lemma_build_comments(toks: Seq<TokenModel>, filter: bool)
    ensures
        comments_of(build_model(toks, filter).nodes) == comments_of_stream(toks),
    decreases toks.len(),
{
    if toks.len() == 0 {
        assert(initial_tree().drop_last() =~= Seq::<NodeModel>::empty());
        assert(comments_of(Seq::<NodeModel>::empty()) =~= Seq::<Seq<char>>::empty());
        assert(comments_of(initial_tree()) =~= Seq::<Seq<char>>::empty());
    } else {
        lemma_build_comments(toks.drop_last(), filter);
        lemma_build_inv(toks.drop_last(), filter);
        lemma_comments_step(build_model(toks.drop_last(), filter), filter, toks.last());
    }
}

/// Comment immunity: a comment is kept in the tree identically whether
/// filtering is on or off — the two builds hold the same comment contents in
/// the same order.
pub proof fn lemma_comment_immunity(toks: Seq<TokenModel>)
    ensures
        comments_of(build_model(toks, true).nodes) == comments_of(build_model(toks, false).nodes),
{
    lemma_build_comments(toks, true);
    lemma_build_comments(toks, false);
}

/// A denied start tag materializes nothing: the tree is untouched, and only
/// the skip stack records the denied name.
pub proof fn lemma_denied_element_not_materialized(
    s: BuilderModel,
    name: Seq<char>,
    attrs: Seq<(Seq<char>, Seq<char>)>,
    self_closing: bool,
)
    requires
        builder_inv(s, true),
        !spec_allow(
            data_name(s.nodes[s.cursor].data),
            CandidateKind::Element,
            name,
            attrs,
        ),
    ensures
        model_start_element(s, true, name, attrs, self_closing).nodes == s.nodes,
        model_start_element(s, true, name, attrs, self_closing).cursor == s.cursor,
{
}

/// Filter soundness: with filtering on, every element of the built tree
/// passed the policy against the name of the node it hangs from; an element
/// the policy denied is never in the tree under the parent that denied it.
pub proof fn lemma_filtered_build_sound(toks: Seq<TokenModel>)
    ensures
        elements_allowed(build_model(toks, true).nodes),
{
    lemma_build_inv(toks, true);
}

/// Determinism: the tree model is a function of the event stream and the
/// filter flag, so two parses of identical input are structurally identical.
pub proof fn lemma_parse_deterministic(t1: Tree, t2: Tree, toks: Seq<TokenModel>, filter: bool)
    requires
        t1@ == build_model(toks, filter).nodes,
        t2@ == build_model(toks, filter).nodes,
    ensures
        t1@ == t2@,
{
}

} // verus!
