//! The document tree: node variants, the arena that owns them, and the
//! mathematical model that the contracts of the whole crate speak of.
//!
//! Nodes live in a flat arena and refer to each other by index: children are
//! owned top-down through the arena, and the parent link is a plain index, so
//! upward navigation is O(1) without reference cycles. Nodes are appended in
//! creation order and never restructured, so a child's index is always larger
//! than its parent's.

use vstd::prelude::*;

use crate::strings::{lower_of, push_char, push_str, str_eq, to_chars, to_lowercase};

verus! {

/// The different kinds of nodes in the document tree.
#[derive(Debug, Clone, PartialEq)]
pub enum Enum {
    /// The `Document` itself.
    Document,
    /// A text node.
    Text(String),
    /// A comment.
    Comment(String),
    /// An element with attributes, in source order, duplicates permitted.
    Element { name: String, attributes: Vec<(String, String)>, self_closing: bool },
}

/// Spec-level mirror of `Enum`, over sequences of characters.
#[verifier::ext_equal]
pub enum DataModel {
    Document,
    Text(Seq<char>),
    Comment(Seq<char>),
    Element { name: Seq<char>, attributes: Seq<(Seq<char>, Seq<char>)>, self_closing: bool },
}

/// The spec-level image of an attribute list.
pub open spec fn attrs_model(a: Seq<(String, String)>) -> Seq<(Seq<char>, Seq<char>)> {
    a.map_values(|p: (String, String)| (p.0@, p.1@))
}

impl View for Enum {
    type V = DataModel;

    open spec fn view(&self) -> DataModel {
        match self {
            Enum::Document => DataModel::Document,
            Enum::Text(s) => DataModel::Text(s@),
            Enum::Comment(s) => DataModel::Comment(s@),
            Enum::Element { name, attributes, self_closing } => DataModel::Element {
                name: name@,
                attributes: attrs_model(attributes@),
                self_closing: *self_closing,
            },
        }
    }
}

/// One slot of the arena: the node's data, its parent link and its children,
/// all links being arena indices.
#[derive(Debug, Clone, PartialEq)]
pub struct Node {
    pub node: Enum,
    pub parent: Option<usize>,
    pub children: Vec<usize>,
}

/// Spec-level mirror of `Node`.
#[verifier::ext_equal]
pub struct NodeModel {
    pub data: DataModel,
    pub parent: Option<int>,
    pub children: Seq<int>,
}

impl View for Node {
    type V = NodeModel;

    open spec fn view(&self) -> NodeModel {
        NodeModel {
            data: self.node@,
            parent: match self.parent {
                Some(p) => Some(p as int),
                None => None,
            },
            children: self.children@.map_values(|c: usize| c as int),
        }
    }
}

/// A whole document tree. The node at index 0 is always the `Document` root.
#[derive(Debug, Clone, PartialEq)]
pub struct Tree {
    pub nodes: Vec<Node>,
}

impl View for Tree {
    type V = Seq<NodeModel>;

    open spec fn view(&self) -> Seq<NodeModel> {
        Seq::new(self.nodes@.len(), |i: int| self.nodes@[i]@)
    }
}

/// The name of an element, or the empty sequence for any other node.
pub open spec fn data_name(d: DataModel) -> Seq<char> {
    match d {
        DataModel::Element { name, .. } => name,
        _ => Seq::empty(),
    }
}

/// The attribute list of an element, or the empty sequence for any other node.
pub open spec fn data_attributes(d: DataModel) -> Seq<(Seq<char>, Seq<char>)> {
    match d {
        DataModel::Element { attributes, .. } => attributes,
        _ => Seq::empty(),
    }
}

/// Whether an element is marked self-closing; false for any other node.
pub open spec fn data_self_closing(d: DataModel) -> bool {
    match d {
        DataModel::Element { self_closing, .. } => self_closing,
        _ => false,
    }
}

/// Structural soundness of one arena slot: the root and only the root is the
/// `Document` and has no parent; every other node points to an earlier parent
/// that lists it among its children; child links point forward, back at their
/// owner, and are strictly increasing (source order).
pub open spec fn wf_node(t: Seq<NodeModel>, i: int) -> bool {
    &&& (i == 0 <==> t[i].data is Document)
    &&& (i == 0 <==> t[i].parent is None)
    &&& (t[i].parent matches Some(p) ==> 0 <= p < i && t[p].children.contains(i))
    &&& forall|k: int|
        0 <= k < t[i].children.len() ==> {
            let c = #[trigger] t[i].children[k];
            &&& i < c < t.len()
            &&& t[c].parent == Some(i)
        }
    &&& forall|k1: int, k2: int|
        0 <= k1 < k2 < t[i].children.len() ==> #[trigger] t[i].children[k1]
            < #[trigger] t[i].children[k2]
}

/// Structural soundness of the whole arena.
pub open spec fn wf_tree(t: Seq<NodeModel>) -> bool {
    &&& 1 <= t.len()
    &&& forall|i: int| 0 <= i < t.len() ==> #[trigger] wf_node(t, i)
}

/// The model of a tree that holds nothing but the `Document` root.
pub open spec fn initial_tree() -> Seq<NodeModel> {
    seq![NodeModel { data: DataModel::Document, parent: None, children: Seq::empty() }]
}

pub proof fn lemma_initial_tree_wf()
    ensures
        wf_tree(initial_tree()),
{
    assert forall|i: int| 0 <= i < initial_tree().len() implies #[trigger] wf_node(
        initial_tree(),
        i,
    ) by {
        assert(i == 0);
    }
}

impl Tree {
    /// Structural soundness, as a predicate callers can rely on; every tree
    /// this crate hands out satisfies it.
    pub open spec fn wf(&self) -> bool {
        wf_tree(self@)
    }

    /// How many nodes the tree holds, root included.
    pub fn node_count(&self) -> (n: usize)
        ensures
            n == self@.len(),
    {
        self.nodes.len()
    }
}

/// Whether node `j` lies strictly below node `a`.
pub open spec fn is_descendant(t: Seq<NodeModel>, j: int, a: int) -> bool
    decreases j,
{
    if j <= 0 || j >= t.len() {
        false
    } else {
        match t[j].parent {
            Some(p) => p == a || (0 <= p < j && is_descendant(t, p, a)),
            None => false,
        }
    }
}

/// The indices below `n` that satisfy `p`, in ascending order.
pub open spec fn matching_upto(p: spec_fn(int) -> bool, n: int) -> Seq<int>
    decreases n,
{
    if n <= 0 {
        Seq::empty()
    } else if p(n - 1) {
        matching_upto(p, n - 1).push(n - 1)
    } else {
        matching_upto(p, n - 1)
    }
}

/// All descendants of `a`, in document (creation) order.
pub open spec fn descendants(t: Seq<NodeModel>, a: int) -> Seq<int> {
    matching_upto(|j: int| is_descendant(t, j, a), t.len() as int)
}

/// Whether some attribute of the list matches name and value,
/// case-insensitively.
pub open spec fn attr_match(attrs: Seq<(Seq<char>, Seq<char>)>, n: Seq<char>, v: Seq<char>) -> bool {
    exists|k: int|
        0 <= k < attrs.len() && {
            let a = #[trigger] attrs[k];
            lower_of(a.0) == lower_of(n) && lower_of(a.1) == lower_of(v)
        }
}

/// The `text()` of a node: stored content for text and comments, the text of
/// the first child for an element that has one, the empty string otherwise.
pub open spec fn text_of(t: Seq<NodeModel>, i: int) -> Seq<char>
    decreases t.len() - i,
    via text_of_decreases
{
    if wf_tree(t) && 0 <= i < t.len() {
        match t[i].data {
            DataModel::Text(s) => s,
            DataModel::Comment(s) => s,
            DataModel::Element { .. } => {
                if t[i].children.len() > 0 {
                    text_of(t, t[i].children[0])
                } else {
                    Seq::empty()
                }
            },
            DataModel::Document => Seq::empty(),
        }
    } else {
        Seq::empty()
    }
}

#[via_fn]
proof fn text_of_decreases(t: Seq<NodeModel>, i: int) {
    if wf_tree(t) && 0 <= i < t.len() {
        assert(wf_node(t, i));
    }
}

/// An attribute value with every double quote escaped as backslash-quote;
/// the one escape `to_html` performs.
pub open spec fn escape_quotes(s: Seq<char>) -> Seq<char>
    decreases s.len(),
{
    if s.len() == 0 {
        Seq::empty()
    } else {
        (if s[0] == '"' {
            seq!['\\', '"']
        } else {
            seq![s[0]]
        }) + escape_quotes(s.drop_first())
    }
}

/// `n` spaces.
pub open spec fn spaces(n: nat) -> Seq<char> {
    Seq::new(n, |i: int| ' ')
}

/// The serialized form of one attribute: a space, the name verbatim, `="`,
/// the value with quotes escaped, and a closing quote.
pub open spec fn attr_html(a: (Seq<char>, Seq<char>)) -> Seq<char> {
    seq![' '] + a.0 + "=\""@ + escape_quotes(a.1) + seq!['"']
}

/// The serialized form of the first `k` attributes.
pub open spec fn attrs_html_upto(attrs: Seq<(Seq<char>, Seq<char>)>, k: int) -> Seq<char>
    decreases k,
{
    if k <= 0 {
        Seq::empty()
    } else {
        attrs_html_upto(attrs, k - 1) + attr_html(attrs[k - 1])
    }
}

/// The serialized form of a whole attribute list, in source order.
pub open spec fn attrs_html(attrs: Seq<(Seq<char>, Seq<char>)>) -> Seq<char> {
    attrs_html_upto(attrs, attrs.len() as int)
}

/// The serialization of the first `k` children of node `i`; document
/// children stay at their parent's level, element children are one deeper,
/// which the caller chooses through `level`.
pub open spec fn htmls_upto(t: Seq<NodeModel>, i: int, k: int, ind: nat, level: nat) -> Seq<char>
    decreases t.len() - i, 0int, k,
    via htmls_upto_decreases
{
    if wf_tree(t) && 0 <= i < t.len() && k <= t[i].children.len() {
        if k <= 0 {
            Seq::empty()
        } else {
            htmls_upto(t, i, k - 1, ind, level) + html_of(t, t[i].children[k - 1], ind, level)
        }
    } else {
        Seq::empty()
    }
}

#[via_fn]
proof fn htmls_upto_decreases(t: Seq<NodeModel>, i: int, k: int, ind: nat, level: nat) {
    if wf_tree(t) && 0 <= i < t.len() && 0 < k <= t[i].children.len() {
        assert(wf_node(t, i));
        assert(i < t[i].children[k - 1] < t.len());
    }
}

/// The deterministic serialization of the subtree at `i`: a fixed doctype
/// line for the document; indented tags with attribute values
/// quote-escaped for elements (children omitted when self-closing); raw,
/// unescaped content for text and comments.
pub open spec fn html_of(t: Seq<NodeModel>, i: int, ind: nat, level: nat) -> Seq<char>
    decreases t.len() - i, 1int, 0int,
{
    if wf_tree(t) && 0 <= i < t.len() {
        match t[i].data {
            DataModel::Document => "<!DOCTYPE html>"@ + seq!['\n'] + htmls_upto(
                t,
                i,
                t[i].children.len() as int,
                ind,
                level,
            ) + seq!['\n'],
            DataModel::Element { name, attributes, self_closing } => {
                let head = spaces(ind * level) + seq!['<'] + name + attrs_html(attributes);
                if self_closing {
                    head + " />"@ + seq!['\n']
                } else {
                    head + seq!['>'] + seq!['\n'] + htmls_upto(
                        t,
                        i,
                        t[i].children.len() as int,
                        ind,
                        (level + 1) as nat,
                    ) + spaces(ind * level) + "</"@ + name + seq!['>'] + seq!['\n']
                }
            },
            DataModel::Text(s) => spaces(ind * level) + s + seq!['\n'],
            DataModel::Comment(s) => spaces(ind * level) + "<!-- "@ + s + " -->"@ + seq!['\n'],
        }
    } else {
        Seq::empty()
    }
}

/// Escaping touches double quotes alone: a value without any is serialized
/// verbatim.
pub proof fn lemma_escape_only_quotes(s: Seq<char>)
    requires
        forall|i: int| 0 <= i < s.len() ==> s[i] != '"',
    ensures
        escape_quotes(s) == s,
    decreases s.len(),
{
    if s.len() == 0 {
        assert(escape_quotes(s) =~= s);
    } else {
        lemma_escape_only_quotes(s.drop_first());
        assert(escape_quotes(s) =~= s);
    }
}

proof fn lemma_escape_push(s: Seq<char>, x: char)
    ensures
        escape_quotes(s.push(x)) == escape_quotes(s) + (if x == '"' {
            seq!['\\', '"']
        } else {
            seq![x]
        }),
    decreases s.len(),
{
    let tail = if x == '"' {
        seq!['\\', '"']
    } else {
        seq![x]
    };
    if s.len() == 0 {
        assert(s.push(x)[0] == x);
        assert(s.push(x).drop_first() =~= Seq::<char>::empty());
        assert(escape_quotes(Seq::<char>::empty()) =~= Seq::<char>::empty());
        assert(escape_quotes(s.push(x)) =~= tail);
        assert(escape_quotes(s) + tail =~= tail);
    } else {
        assert(s.push(x)[0] == s[0]);
        assert(s.push(x).drop_first() =~= s.drop_first().push(x));
        lemma_escape_push(s.drop_first(), x);
        assert(escape_quotes(s.push(x)) == (if s[0] == '"' {
            seq!['\\', '"']
        } else {
            seq![s[0]]
        }) + (escape_quotes(s.drop_first()) + tail));
        assert((if s[0] == '"' {
            seq!['\\', '"']
        } else {
            seq![s[0]]
        }) + (escape_quotes(s.drop_first()) + tail) =~= escape_quotes(s) + tail);
    }
}

/// Appends `ind * level` spaces to `out`.
fn push_indent(out: &mut String, ind: usize, level: usize)
    ensures
        final (out)@ == old(out)@ + spaces((ind * level) as nat),
{
    let mut j: usize = 0;
    while j < level
        invariant
            0 <= j <= level,
            out@ =~= old(out)@ + spaces((ind * j) as nat),
        decreases level - j,
    {
        let mut i: usize = 0;
        while i < ind
            invariant
                0 <= i <= ind,
                0 <= j < level,
                out@ =~= old(out)@ + spaces((ind * j) as nat) + spaces(i as nat),
            decreases ind - i,
        {
            push_char(out, ' ');
            i += 1;
            proof {
                assert(out@ =~= old(out)@ + spaces((ind * j) as nat) + spaces(i as nat));
            }
        }
        j += 1;
        proof {
            assert(ind * j == ind * (j - 1) + ind) by (nonlinear_arith);
            assert(out@ =~= old(out)@ + spaces((ind * j) as nat));
        }
    }
    proof {
        assert(out@ =~= old(out)@ + spaces((ind * level) as nat));
    }
}

/// Appends `s` with every double quote escaped.
fn push_escaped(out: &mut String, s: &str)
    ensures
        final (out)@ == old(out)@ + escape_quotes(s@),
{
    let chars = to_chars(s);
    let n = chars.len();
    let mut i: usize = 0;
    proof {
        assert(s@.take(0) =~= Seq::<char>::empty());
    }
    while i < n
        invariant
            0 <= i <= n,
            n == s@.len(),
            chars@ == s@,
            out@ =~= old(out)@ + escape_quotes(s@.take(i as int)),
        decreases n - i,
    {
        let c = chars[i];
        if c == '"' {
            push_char(out, '\\');
            push_char(out, '"');
        } else {
            push_char(out, c);
        }
        proof {
            lemma_escape_push(s@.take(i as int), s@[i as int]);
            assert(s@.take(i as int).push(s@[i as int]) =~= s@.take(i + 1));
        }
        i += 1;
    }
    proof {
        assert(s@.take(n as int) =~= s@);
    }
}

impl Tree {
    /// Whether `j` lies in the subtree strictly below `a`: walks the parent
    /// chain upward from `j`.
    fn is_descendant_of(&self, j: usize, a: usize) -> (r: bool)
        requires
            self.wf(),
            j < self@.len(),
        ensures
            r == is_descendant(self@, j as int, a as int),
    {
        let mut cur = j;
        loop
            invariant
                self.wf(),
                cur < self@.len(),
                j < self@.len(),
                is_descendant(self@, j as int, a as int) == is_descendant(
                    self@,
                    cur as int,
                    a as int,
                ),
            decreases cur,
        {
            proof {
                assert(wf_node(self@, cur as int));
            }
            match self.nodes[cur].parent {
                Some(p) => {
                    if p == a {
                        return true;
                    }
                    cur = p;
                },
                None => {
                    return false;
                },
            }
        }
    }

    /// Pre-order traversal of all descendants of `id` (the node itself
    /// excluded), as arena indices in document order.
    pub fn traverse(&self, id: usize) -> (r: Vec<usize>)
        requires
            self.wf(),
            id < self@.len(),
        ensures
            r@.map_values(|u: usize| u as int) == descendants(self@, id as int),
    {
        let ghost pred = |j: int| is_descendant(self@, j, id as int);
        let n = self.nodes.len();
        let mut r: Vec<usize> = Vec::new();
        let mut j: usize = 0;
        proof {
            assert(r@.map_values(|u: usize| u as int) =~= matching_upto(pred, 0));
        }
        while j < n
            invariant
                0 <= j <= n,
                n == self@.len(),
                self.wf(),
                id < self@.len(),
                pred == (|j: int| is_descendant(self@, j, id as int)),
                r@.map_values(|u: usize| u as int) =~= matching_upto(pred, j as int),
            decreases n - j,
        {
            if self.is_descendant_of(j, id) {
                r.push(j);
            }
            j += 1;
            proof {
                assert(r@.map_values(|u: usize| u as int) =~= matching_upto(pred, j as int));
            }
        }
        proof {
            assert(r@.map_values(|u: usize| u as int) =~= descendants(self@, id as int));
        }
        r
    }

    /// The same walk, kept to comment nodes only.
    pub fn traverse_comments(&self, id: usize) -> (r: Vec<usize>)
        requires
            self.wf(),
            id < self@.len(),
        ensures
            r@.map_values(|u: usize| u as int) == matching_upto(
                |j: int| is_descendant(self@, j, id as int) && self@[j].data is Comment,
                self@.len() as int,
            ),
    {
        let ghost pred = |j: int|
            is_descendant(self@, j, id as int) && self@[j].data is Comment;
        let n = self.nodes.len();
        let mut r: Vec<usize> = Vec::new();
        let mut j: usize = 0;
        proof {
            assert(r@.map_values(|u: usize| u as int) =~= matching_upto(pred, 0));
        }
        while j < n
            invariant
                0 <= j <= n,
                n == self@.len(),
                self.wf(),
                id < self@.len(),
                pred == (|j: int|
                    is_descendant(self@, j, id as int) && self@[j].data is Comment),
                r@.map_values(|u: usize| u as int) =~= matching_upto(pred, j as int),
            decreases n - j,
        {
            let mut keep = self.is_descendant_of(j, id);
            if keep {
                match &self.nodes[j].node {
                    Enum::Comment(_) => {},
                    _ => {
                        keep = false;
                    },
                }
            }
            if keep {
                r.push(j);
            }
            j += 1;
            proof {
                assert(r@.map_values(|u: usize| u as int) =~= matching_upto(pred, j as int));
            }
        }
        r
    }

    /// The same walk, kept to elements whose name equals `tag_name`
    /// case-insensitively.
    pub fn nodes_by_name(&self, id: usize, tag_name: &str) -> (r: Vec<usize>)
        requires
            self.wf(),
            id < self@.len(),
        ensures
            r@.map_values(|u: usize| u as int) == matching_upto(
                |j: int|
                    is_descendant(self@, j, id as int) && self@[j].data is Element && lower_of(
                        data_name(self@[j].data),
                    ) == lower_of(tag_name@),
                self@.len() as int,
            ),
    {
        let ghost pred = |j: int|
            is_descendant(self@, j, id as int) && self@[j].data is Element && lower_of(
                data_name(self@[j].data),
            ) == lower_of(tag_name@);
        let ln = to_lowercase(tag_name);
        let n = self.nodes.len();
        let mut r: Vec<usize> = Vec::new();
        let mut j: usize = 0;
        proof {
            assert(r@.map_values(|u: usize| u as int) =~= matching_upto(pred, 0));
        }
        while j < n
            invariant
                0 <= j <= n,
                n == self@.len(),
                self.wf(),
                id < self@.len(),
                ln@ == lower_of(tag_name@),
                pred == (|j: int|
                    is_descendant(self@, j, id as int) && self@[j].data is Element && lower_of(
                        data_name(self@[j].data),
                    ) == lower_of(tag_name@)),
                r@.map_values(|u: usize| u as int) =~= matching_upto(pred, j as int),
            decreases n - j,
        {
            let mut keep = self.is_descendant_of(j, id);
            if keep {
                match &self.nodes[j].node {
                    Enum::Element { name, .. } => {
                        let lname = to_lowercase(name.as_str());
                        keep = str_eq(lname.as_str(), ln.as_str());
                    },
                    _ => {
                        keep = false;
                    },
                }
            }
            if keep {
                r.push(j);
            }
            j += 1;
            proof {
                assert(r@.map_values(|u: usize| u as int) =~= matching_upto(pred, j as int));
            }
        }
        r
    }

    /// The same walk, kept to elements with at least one attribute whose name
    /// and value both match case-insensitively. A node with several matching
    /// attributes still appears only once.
    pub fn nodes_by_attribute_name_and_value(&self, id: usize, n: &str, v: &str) -> (r: Vec<usize>)
        requires
            self.wf(),
            id < self@.len(),
        ensures
            r@.map_values(|u: usize| u as int) == matching_upto(
                |j: int|
                    is_descendant(self@, j, id as int) && self@[j].data is Element && attr_match(
                        data_attributes(self@[j].data),
                        n@,
                        v@,
                    ),
                self@.len() as int,
            ),
    {
        let ghost pred = |j: int|
            is_descendant(self@, j, id as int) && self@[j].data is Element && attr_match(
                data_attributes(self@[j].data),
                n@,
                v@,
            );
        let ln = to_lowercase(n);
        let lv = to_lowercase(v);
        let count = self.nodes.len();
        let mut r: Vec<usize> = Vec::new();
        let mut j: usize = 0;
        proof {
            assert(r@.map_values(|u: usize| u as int) =~= matching_upto(pred, 0));
        }
        while j < count
            invariant
                0 <= j <= count,
                count == self@.len(),
                self.wf(),
                id < self@.len(),
                ln@ == lower_of(n@),
                lv@ == lower_of(v@),
                pred == (|j: int|
                    is_descendant(self@, j, id as int) && self@[j].data is Element && attr_match(
                        data_attributes(self@[j].data),
                        n@,
                        v@,
                    )),
                r@.map_values(|u: usize| u as int) =~= matching_upto(pred, j as int),
            decreases count - j,
        {
            let mut keep = self.is_descendant_of(j, id);
            if keep {
                match &self.nodes[j].node {
                    Enum::Element { attributes, .. } => {
                        keep = attrs_contain_match(attributes, ln.as_str(), lv.as_str());
                        proof {
                            assert(data_attributes(self@[j as int].data) == attrs_model(
                                attributes@,
                            ));
                        }
                    },
                    _ => {
                        keep = false;
                    },
                }
            }
            if keep {
                r.push(j);
            }
            j += 1;
            proof {
                assert(r@.map_values(|u: usize| u as int) =~= matching_upto(pred, j as int));
            }
        }
        r
    }

    /// The `text()` operation: content of a text or comment node; for an
    /// element, the text of its first child if it has one; otherwise empty.
    pub fn text(&self, id: usize) -> (r: String)
        requires
            self.wf(),
            id < self@.len(),
        ensures
            r@ == text_of(self@, id as int),
        decreases self@.len() - id,
    {
        proof {
            assert(wf_node(self@, id as int));
        }
        match &self.nodes[id].node {
            Enum::Text(s) => s.clone(),
            Enum::Comment(s) => s.clone(),
            Enum::Element { .. } => {
                if self.nodes[id].children.len() > 0 {
                    let c = self.nodes[id].children[0];
                    proof {
                        assert(self@[id as int].children[0] == c as int);
                        assert(id < c as int && (c as int) < self@.len());
                    }
                    self.text(c)
                } else {
                    String::new()
                }
            },
            Enum::Document => String::new(),
        }
    }

    /// Appends the serialization of the subtree at `i` to `out`.
    #[verifier::loop_isolation(false)]
    #[verifier::rlimit(60)]
    #[verifier::spinoff_prover]
    fn html_append(&self, i: usize, ind: usize, level: usize, out: &mut String)
        requires
            self.wf(),
            i < self@.len(),
            level + (self@.len() - i) <= usize::MAX,
        ensures
            final (out)@ == old(out)@ + html_of(self@, i as int, ind as nat, level as nat),
        decreases self@.len() - i,
    {
        proof {
            assert(wf_node(self@, i as int));
        }
        match &self.nodes[i].node {
            Enum::Document => {
                push_str(out, "<!DOCTYPE html>");
                push_char(out, '\n');
                let kn = self.nodes[i].children.len();
                let mut k: usize = 0;
                while k < kn
                    invariant
                        0 <= k <= kn,
                        kn == self@[i as int].children.len(),
                        out@ =~= old(out)@ + "<!DOCTYPE html>"@ + seq!['\n'] + htmls_upto(
                            self@,
                            i as int,
                            k as int,
                            ind as nat,
                            level as nat,
                        ),
                    decreases kn - k,
                {
                    let c = self.nodes[i].children[k];
                    proof {
                        assert(wf_node(self@, i as int));
                        assert(self@[i as int].children[k as int] == c);
                    }
                    self.html_append(c, ind, level, out);
                    k += 1;
                }
                push_char(out, '\n');
                proof {
                    assert(out@ =~= old(out)@ + html_of(
                        self@,
                        i as int,
                        ind as nat,
                        level as nat,
                    ));
                }
            },
            Enum::Element { name, attributes, self_closing } => {
                let sc = *self_closing;
                push_indent(out, ind, level);
                push_char(out, '<');
                push_str(out, name.as_str());
                let an = attributes.len();
                let mut k: usize = 0;
                proof {
                    assert(data_attributes(self@[i as int].data) == attrs_model(attributes@));
                }
                while k < an
                    invariant
                        0 <= k <= an,
                        an == attributes@.len(),
                        out@ =~= old(out)@ + spaces((ind * level) as nat) + seq!['<'] + name@
                            + attrs_html_upto(attrs_model(attributes@), k as int),
                    decreases an - k,
                {
                    push_char(out, ' ');
                    push_str(out, attributes[k].0.as_str());
                    push_str(out, "=\"");
                    push_escaped(out, attributes[k].1.as_str());
                    push_char(out, '"');
                    proof {
                        assert(attrs_model(attributes@)[k as int] == (
                            attributes@[k as int].0@,
                            attributes@[k as int].1@,
                        ));
                    }
                    k += 1;
                    proof {
                        assert(out@ =~= old(out)@ + spaces((ind * level) as nat) + seq!['<']
                            + name@ + attrs_html_upto(attrs_model(attributes@), k as int));
                    }
                }
                if sc {
                    push_str(out, " />");
                    push_char(out, '\n');
                    proof {
                        assert(out@ =~= old(out)@ + html_of(
                            self@,
                            i as int,
                            ind as nat,
                            level as nat,
                        ));
                    }
                    return ;
                }
                push_char(out, '>');
                push_char(out, '\n');
                let ghost head = old(out)@ + spaces((ind * level) as nat) + seq!['<'] + name@
                    + attrs_html(attrs_model(attributes@)) + seq!['>'] + seq!['\n'];
                proof {
                    assert(out@ =~= head);
                }
                let kn = self.nodes[i].children.len();
                let mut k2: usize = 0;
                while k2 < kn
                    invariant
                        0 <= k2 <= kn,
                        kn == self@[i as int].children.len(),
                        out@ =~= head + htmls_upto(
                            self@,
                            i as int,
                            k2 as int,
                            ind as nat,
                            (level + 1) as nat,
                        ),
                    decreases kn - k2,
                {
                    let c = self.nodes[i].children[k2];
                    proof {
                        assert(wf_node(self@, i as int));
                        assert(self@[i as int].children[k2 as int] == c);
                    }
                    self.html_append(c, ind, level + 1, out);
                    k2 += 1;
                }
                push_indent(out, ind, level);
                push_str(out, "</");
                push_str(out, name.as_str());
                push_char(out, '>');
                push_char(out, '\n');
                proof {
                    assert(out@ =~= old(out)@ + html_of(
                        self@,
                        i as int,
                        ind as nat,
                        level as nat,
                    ));
                }
            },
            Enum::Text(s) => {
                push_indent(out, ind, level);
                push_str(out, s.as_str());
                push_char(out, '\n');
                proof {
                    assert(out@ =~= old(out)@ + html_of(
                        self@,
                        i as int,
                        ind as nat,
                        level as nat,
                    ));
                }
            },
            Enum::Comment(s) => {
                push_indent(out, ind, level);
                push_str(out, "<!-- ");
                push_str(out, s.as_str());
                push_str(out, " -->");
                push_char(out, '\n');
                proof {
                    assert(out@ =~= old(out)@ + html_of(
                        self@,
                        i as int,
                        ind as nat,
                        level as nat,
                    ));
                }
            },
        }
    }

    /// Deterministic serialization of the subtree at `id`; only double
    /// quotes inside attribute values are escaped, text and comment content
    /// is emitted verbatim.
    pub fn to_html(&self, id: usize, indentation: usize, level: usize) -> (r: String)
        requires
            self.wf(),
            id < self@.len(),
            level + self@.len() <= usize::MAX,
        ensures
            r@ == html_of(self@, id as int, indentation as nat, level as nat),
    {
        let mut out = String::new();
        self.html_append(id, indentation, level, &mut out);
        proof {
            assert(out@ =~= html_of(self@, id as int, indentation as nat, level as nat));
        }
        out
    }
}

/// Whether some attribute matches the already lower-cased name and value.
fn attrs_contain_match(attributes: &Vec<(String, String)>, ln: &str, lv: &str) -> (r: bool)
    ensures
        r == exists|k: int|
            0 <= k < attrs_model(attributes@).len() && {
                let a = #[trigger] attrs_model(attributes@)[k];
                lower_of(a.0) == ln@ && lower_of(a.1) == lv@
            },
{
    let ghost m = attrs_model(attributes@);
    let mut k: usize = 0;
    while k < attributes.len()
        invariant
            0 <= k <= attributes.len(),
            m == attrs_model(attributes@),
            m.len() == attributes@.len(),
            forall|j: int|
                0 <= j < k ==> !{
                    let a = #[trigger] m[j];
                    lower_of(a.0) == ln@ && lower_of(a.1) == lv@
                },
        decreases attributes.len() - k,
    {
        let lname = to_lowercase(attributes[k].0.as_str());
        if str_eq(lname.as_str(), ln) {
            let lvalue = to_lowercase(attributes[k].1.as_str());
            if str_eq(lvalue.as_str(), lv) {
                proof {
                    assert(m[k as int] == (attributes@[k as int].0@, attributes@[k as int].1@));
                    assert(exists|j: int|
                        0 <= j < m.len() && {
                            let a = #[trigger] m[j];
                            lower_of(a.0) == ln@ && lower_of(a.1) == lv@
                        });
                }
                return true;
            }
        }
        proof {
            assert(m[k as int] == (attributes@[k as int].0@, attributes@[k as int].1@));
        }
        k += 1;
    }
    false
}


proof fn lemma_matching_upto_congruence(p1: spec_fn(int) -> bool, p2: spec_fn(int) -> bool, n: int)
    requires
        forall|j: int| #[trigger] p1(j) == #[trigger] p2(j),
    ensures
        matching_upto(p1, n) == matching_upto(p2, n),
    decreases n,
{
    if n > 0 {
        lemma_matching_upto_congruence(p1, p2, n - 1);
    }
}

/// Case-insensitive name queries: two tag names that agree up to
/// lower-casing select exactly the same nodes, whatever the casing of the
/// source document or of the query.
pub proof fn lemma_nodes_by_name_case_insensitive(
    t: Seq<NodeModel>,
    a: int,
    q1: Seq<char>,
    q2: Seq<char>,
)
    requires
        lower_of(q1) == lower_of(q2),
    ensures
        matching_upto(
            |j: int|
                is_descendant(t, j, a) && t[j].data is Element && lower_of(data_name(t[j].data))
                    == lower_of(q1),
            t.len() as int,
        ) == matching_upto(
            |j: int|
                is_descendant(t, j, a) && t[j].data is Element && lower_of(data_name(t[j].data))
                    == lower_of(q2),
            t.len() as int,
        ),
{
    lemma_matching_upto_congruence(
        |j: int|
            is_descendant(t, j, a) && t[j].data is Element && lower_of(data_name(t[j].data))
                == lower_of(q1),
        |j: int|
            is_descendant(t, j, a) && t[j].data is Element && lower_of(data_name(t[j].data))
                == lower_of(q2),
        t.len() as int,
    );
}

/// Case-insensitive attribute queries: names and values that agree up to
/// lower-casing select exactly the same nodes.
pub proof fn lemma_attribute_query_case_insensitive(
    t: Seq<NodeModel>,
    a: int,
    n1: Seq<char>,
    v1: Seq<char>,
    n2: Seq<char>,
    v2: Seq<char>,
)
    requires
        lower_of(n1) == lower_of(n2),
        lower_of(v1) == lower_of(v2),
    ensures
        matching_upto(
            |j: int|
                is_descendant(t, j, a) && t[j].data is Element && attr_match(
                    data_attributes(t[j].data),
                    n1,
                    v1,
                ),
            t.len() as int,
        ) == matching_upto(
            |j: int|
                is_descendant(t, j, a) && t[j].data is Element && attr_match(
                    data_attributes(t[j].data),
                    n2,
                    v2,
                ),
            t.len() as int,
        ),
{
    assert forall|j: int|
        #[trigger] attr_match(data_attributes(t[j].data), n1, v1) == #[trigger] attr_match(
            data_attributes(t[j].data),
            n2,
            v2,
        ) by {
        let attrs = data_attributes(t[j].data);
        if attr_match(attrs, n1, v1) {
            let k = choose|k: int|
                0 <= k < attrs.len() && {
                    let p = #[trigger] attrs[k];
                    lower_of(p.0) == lower_of(n1) && lower_of(p.1) == lower_of(v1)
                };
            assert(lower_of(attrs[k].0) == lower_of(n2) && lower_of(attrs[k].1) == lower_of(v2));
        }
        if attr_match(attrs, n2, v2) {
            let k = choose|k: int|
                0 <= k < attrs.len() && {
                    let p = #[trigger] attrs[k];
                    lower_of(p.0) == lower_of(n2) && lower_of(p.1) == lower_of(v2)
                };
            assert(lower_of(attrs[k].0) == lower_of(n1) && lower_of(attrs[k].1) == lower_of(v1));
        }
    }
    lemma_matching_upto_congruence(
        |j: int|
            is_descendant(t, j, a) && t[j].data is Element && attr_match(
                data_attributes(t[j].data),
                n1,
                v1,
            ),
        |j: int|
            is_descendant(t, j, a) && t[j].data is Element && attr_match(
                data_attributes(t[j].data),
                n2,
                v2,
            ),
        t.len() as int,
    );
}


} // verus!
