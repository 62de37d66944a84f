//! The filtering policy and the tree builder.
//!
//! The policy is a pure decision: given the parent's name and a candidate
//! child (its kind, name and attributes), it says whether the candidate may
//! enter the tree. The builder consumes start/end/text/comment events,
//! keeps a cursor into the tree under construction and a stack of denied tag
//! names, and materializes only what the policy admits.

use vstd::prelude::*;

use crate::node::{
    attrs_model, data_attributes, data_name, data_self_closing, initial_tree,
    lemma_initial_tree_wf, wf_node, wf_tree, DataModel, Enum, Node, NodeModel, Tree,
};
use crate::strings::{lower_of, seq_contains_sub, str_contains, str_eq, to_lowercase};

verus! {

/// What kind of node asks to enter the tree.
#[derive(Clone, Copy, Debug, PartialEq, Eq, Structural)]
pub enum CandidateKind {
    Text,
    Element,
}

/// Whether text is kept under an element of this name.
pub open spec fn text_parent_allows(parent_name: Seq<char>) -> bool {
    ||| parent_name == "option"@
    ||| parent_name == "textarea"@
    ||| parent_name == "title"@
    ||| parent_name == "script"@
}

/// The value of the first attribute named `key`, in source order.
pub open spec fn first_attr(attrs: Seq<(Seq<char>, Seq<char>)>, key: Seq<char>) -> Option<
    Seq<char>,
>
    decreases attrs.len(),
{
    if attrs.len() == 0 {
        None
    } else if attrs[0].0 == key {
        Some(attrs[0].1)
    } else {
        first_attr(attrs.drop_first(), key)
    }
}

/// Whether an element of this name, with these attributes, is audit-relevant.
pub open spec fn spec_allow_element(name: Seq<char>, attrs: Seq<(Seq<char>, Seq<char>)>) -> bool {
    if name == "form"@ || name == "input"@ || name == "textarea"@ || name == "option"@ || name
        == "title"@ || name == "script"@ {
        true
    } else if name == "frame"@ || name == "iframe"@ {
        match first_attr(attrs, "src"@) {
            Some(v) => v.len() > 0,
            None => false,
        }
    } else if name == "a"@ || name == "base"@ || name == "area"@ || name == "link"@ {
        match first_attr(attrs, "href"@) {
            Some(v) => v.len() > 0 && v != "#"@,
            None => false,
        }
    } else if name == "meta"@ {
        match first_attr(attrs, "http-equiv"@) {
            Some(v) => seq_contains_sub(lower_of(v), "set-cookie"@) || seq_contains_sub(
                lower_of(v),
                "refresh"@,
            ),
            None => false,
        }
    } else if name == "select"@ || name == "button"@ {
        exists|k: int|
            0 <= k < attrs.len() && {
                let a = #[trigger] attrs[k];
                (a.0 == "name"@ || a.0 == "id"@) && a.1.len() > 0
            }
    } else {
        false
    }
}

/// The filtering policy: may this candidate become a child of a node whose
/// element name is `parent_name` (the empty sequence for the document root)?
pub open spec fn spec_allow(
    parent_name: Seq<char>,
    kind: CandidateKind,
    name: Seq<char>,
    attrs: Seq<(Seq<char>, Seq<char>)>,
) -> bool {
    match kind {
        CandidateKind::Text => text_parent_allows(parent_name),
        CandidateKind::Element => spec_allow_element(name, attrs),
    }
}

proof fn lemma_first_attr_step(attrs: Seq<(Seq<char>, Seq<char>)>, key: Seq<char>, i: int)
    requires
        0 <= i < attrs.len(),
        attrs.skip(i)[0].0 != key,
    ensures
        first_attr(attrs.skip(i), key) == first_attr(attrs.skip(i + 1), key),
{
    assert(attrs.skip(i).drop_first() =~= attrs.skip(i + 1));
}

/// The value of the first attribute named exactly `key`, cloned out.
fn find_first_attr(attributes: &Vec<(String, String)>, key: &str) -> (r: Option<String>)
    ensures
        match r {
            Some(v) => first_attr(attrs_model(attributes@), key@) == Some(v@),
            None => first_attr(attrs_model(attributes@), key@) is None,
        },
{
    let ghost m = attrs_model(attributes@);
    let mut i: usize = 0;
    proof {
        assert(m.skip(0) =~= m);
    }
    while i < attributes.len()
        invariant
            0 <= i <= attributes.len(),
            m == attrs_model(attributes@),
            m.len() == attributes@.len(),
            first_attr(m, key@) == first_attr(m.skip(i as int), key@),
        decreases attributes.len() - i,
    {
        proof {
            assert(m.skip(i as int)[0] == m[i as int]);
        }
        if str_eq(attributes[i].0.as_str(), key) {
            let v = attributes[i].1.clone();
            return Some(v);
        }
        proof {
            lemma_first_attr_step(m, key@, i as int);
        }
        i += 1;
    }
    proof {
        assert(m.skip(i as int) =~= Seq::<(Seq<char>, Seq<char>)>::empty());
    }
    None
}

/// The filtering policy: decides whether a candidate node enters the tree.
/// Pure and total.
#[verifier::loop_isolation(false)]
pub fn allow(
    parent_name: &str,
    kind: CandidateKind,
    name: &str,
    attributes: &Vec<(String, String)>,
) -> (r: bool)
    ensures
        r == spec_allow(parent_name@, kind, name@, attrs_model(attributes@)),
{
    match kind {
        CandidateKind::Text => {
            str_eq(parent_name, "option") || str_eq(parent_name, "textarea") || str_eq(
                parent_name,
                "title",
            ) || str_eq(parent_name, "script")
        },
        CandidateKind::Element => {
            if str_eq(name, "form") || str_eq(name, "input") || str_eq(name, "textarea") || str_eq(
                name,
                "option",
            ) || str_eq(name, "title") || str_eq(name, "script") {
                return true;
            }
            if str_eq(name, "frame") || str_eq(name, "iframe") {
                return match find_first_attr(attributes, "src") {
                    Some(v) => !v.as_str().is_empty(),
                    None => false,
                };
            }
            if str_eq(name, "a") || str_eq(name, "base") || str_eq(name, "area") || str_eq(
                name,
                "link",
            ) {
                return match find_first_attr(attributes, "href") {
                    Some(v) => !v.as_str().is_empty() && !str_eq(v.as_str(), "#"),
                    None => false,
                };
            }
            if str_eq(name, "meta") {
                return match find_first_attr(attributes, "http-equiv") {
                    Some(v) => {
                        let lowered = to_lowercase(v.as_str());
                        str_contains(lowered.as_str(), "set-cookie") || str_contains(
                            lowered.as_str(),
                            "refresh",
                        )
                    },
                    None => false,
                };
            }
            if str_eq(name, "select") || str_eq(name, "button") {
                let ghost m = attrs_model(attributes@);
                let mut k: usize = 0;
                while k < attributes.len()
                    invariant
                        0 <= k <= attributes.len(),
                        m == attrs_model(attributes@),
                        m.len() == attributes@.len(),
                        forall|j: int|
                            0 <= j < k ==> !{
                                let a = #[trigger] m[j];
                                (a.0 == "name"@ || a.0 == "id"@) && a.1.len() > 0
                            },
                    decreases attributes.len() - k,
                {
                    if (str_eq(attributes[k].0.as_str(), "name") || str_eq(
                        attributes[k].0.as_str(),
                        "id",
                    )) && !attributes[k].1.as_str().is_empty() {
                        proof {
                            assert(m[k as int] == (
                                attributes@[k as int].0@,
                                attributes@[k as int].1@,
                            ));
                            assert(exists|j: int|
                                0 <= j < m.len() && {
                                    let a = #[trigger] m[j];
                                    (a.0 == "name"@ || a.0 == "id"@) && a.1.len() > 0
                                });
                        }
                        return true;
                    }
                    k += 1;
                }
                return false;
            }
            false
        },
    }
}

/// The names of the void elements: leaves by definition, always serialized
/// self-closing.
pub open spec fn spec_is_void(name: Seq<char>) -> bool {
    ||| name == "area"@
    ||| name == "base"@
    ||| name == "br"@
    ||| name == "col"@
    ||| name == "embed"@
    ||| name == "frame"@
    ||| name == "hr"@
    ||| name == "img"@
    ||| name == "input"@
    ||| name == "keygen"@
    ||| name == "link"@
    ||| name == "meta"@
    ||| name == "param"@
    ||| name == "source"@
    ||| name == "track"@
    ||| name == "wbr"@
}

/// Membership in the fixed void-element set.
pub fn is_void(name: &str) -> (r: bool)
    ensures
        r == spec_is_void(name@),
{
    str_eq(name, "area") || str_eq(name, "base") || str_eq(name, "br") || str_eq(name, "col")
        || str_eq(name, "embed") || str_eq(name, "frame") || str_eq(name, "hr") || str_eq(
        name,
        "img",
    ) || str_eq(name, "input") || str_eq(name, "keygen") || str_eq(name, "link") || str_eq(
        name,
        "meta",
    ) || str_eq(name, "param") || str_eq(name, "source") || str_eq(name, "track") || str_eq(
        name,
        "wbr",
    )
}

/// The builder's state: the arena built so far, the cursor (the node new
/// children attach to) and the stack of denied tag names still open.
#[verifier::ext_equal]
pub struct BuilderModel {
    pub nodes: Seq<NodeModel>,
    pub cursor: int,
    pub skipped: Seq<Seq<char>>,
}

/// The state a build starts from: the lone `Document` root, cursor on it,
/// nothing denied.
pub open spec fn initial_model() -> BuilderModel {
    BuilderModel { nodes: initial_tree(), cursor: 0, skipped: Seq::empty() }
}

/// The arena after appending `nd` as the last child of node `cur`.
pub open spec fn append_node(t: Seq<NodeModel>, cur: int, nd: NodeModel) -> Seq<NodeModel> {
    t.update(
        cur,
        NodeModel {
            data: t[cur].data,
            parent: t[cur].parent,
            children: t[cur].children.push(t.len() as int),
        },
    ).push(nd)
}

/// A freshly created element node, child of `parent`.
pub open spec fn elem_model(
    name: Seq<char>,
    attrs: Seq<(Seq<char>, Seq<char>)>,
    self_closing: bool,
    parent: int,
) -> NodeModel {
    NodeModel {
        data: DataModel::Element { name, attributes: attrs, self_closing },
        parent: Some(parent),
        children: Seq::empty(),
    }
}

/// A node the cursor may stand on: the document root or an element that is
/// still open (not self-closing).
pub open spec fn open_node(d: DataModel) -> bool {
    d is Document || (d is Element && !data_self_closing(d))
}

/// Leaf discipline of a single node: void elements are self-closing,
/// self-closing elements are leaves, and so are text and comments.
pub open spec fn node_leaf_ok(n: NodeModel) -> bool {
    &&& (n.data is Element && spec_is_void(data_name(n.data)) ==> data_self_closing(n.data))
    &&& (data_self_closing(n.data) ==> n.children.len() == 0)
    &&& ((n.data is Text || n.data is Comment) ==> n.children.len() == 0)
}

/// Leaf discipline of the whole arena; in particular, void elements are
/// always self-closing leaves, whatever the source markup claimed.
pub open spec fn normalized(t: Seq<NodeModel>) -> bool {
    forall|i: int| 0 <= i < t.len() ==> node_leaf_ok(#[trigger] t[i])
}

/// Every element of the arena passed the filtering policy against the name
/// of the node it was attached to.
pub open spec fn elements_allowed(t: Seq<NodeModel>) -> bool {
    forall|i: int|
        0 <= i < t.len() && #[trigger] t[i].data is Element ==> match t[i].parent {
            Some(p) => 0 <= p < t.len() && spec_allow(
                data_name(t[p].data),
                CandidateKind::Element,
                data_name(t[i].data),
                data_attributes(t[i].data),
            ),
            None => false,
        }
}

/// Everything the builder maintains across events.
pub open spec fn builder_inv(m: BuilderModel, filter: bool) -> bool {
    &&& wf_tree(m.nodes)
    &&& 0 <= m.cursor < m.nodes.len()
    &&& open_node(m.nodes[m.cursor].data)
    &&& normalized(m.nodes)
    &&& (filter ==> elements_allowed(m.nodes))
}

/// The state after a start-tag event.
pub open spec fn model_start_element(
    s: BuilderModel,
    filter: bool,
    name: Seq<char>,
    attrs: Seq<(Seq<char>, Seq<char>)>,
    self_closing: bool,
) -> BuilderModel {
    let pdata = s.nodes[s.cursor].data;
    if filter && !(pdata is Document || pdata is Element) {
        s
    } else if filter && !spec_allow(data_name(pdata), CandidateKind::Element, name, attrs) {
        BuilderModel { nodes: s.nodes, cursor: s.cursor, skipped: s.skipped.push(name) }
    } else {
        let sc = self_closing || spec_is_void(name);
        BuilderModel {
            nodes: append_node(s.nodes, s.cursor, elem_model(name, attrs, sc, s.cursor)),
            cursor: if sc {
                s.cursor
            } else {
                s.nodes.len() as int
            },
            skipped: s.skipped,
        }
    }
}

/// The state after an end-tag event.
pub open spec fn model_end_element(s: BuilderModel, filter: bool, name: Seq<char>) -> BuilderModel {
    if filter && name.len() > 0 && s.skipped.len() > 0 && s.skipped.last() == name {
        BuilderModel { nodes: s.nodes, cursor: s.cursor, skipped: s.skipped.drop_last() }
    } else {
        match s.nodes[s.cursor].parent {
            Some(p) => BuilderModel { nodes: s.nodes, cursor: p, skipped: s.skipped },
            None => s,
        }
    }
}

/// The state after a (non-empty, already trimmed) text event.
pub open spec fn model_text(s: BuilderModel, filter: bool, text: Seq<char>) -> BuilderModel {
    let pdata = s.nodes[s.cursor].data;
    if filter && !(pdata is Document || pdata is Element) {
        s
    } else if filter && !spec_allow(
        data_name(pdata),
        CandidateKind::Text,
        Seq::empty(),
        Seq::empty(),
    ) {
        s
    } else {
        BuilderModel {
            nodes: append_node(
                s.nodes,
                s.cursor,
                NodeModel {
                    data: DataModel::Text(text),
                    parent: Some(s.cursor),
                    children: Seq::empty(),
                },
            ),
            cursor: s.cursor,
            skipped: s.skipped,
        }
    }
}

/// The state after a (non-empty, already trimmed) comment event; comments are
/// never filtered.
pub open spec fn model_comment(s: BuilderModel, text: Seq<char>) -> BuilderModel {
    BuilderModel {
        nodes: append_node(
            s.nodes,
            s.cursor,
            NodeModel {
                data: DataModel::Comment(text),
                parent: Some(s.cursor),
                children: Seq::empty(),
            },
        ),
        cursor: s.cursor,
        skipped: s.skipped,
    }
}

pub proof fn lemma_append_node(t: Seq<NodeModel>, cur: int, nd: NodeModel)
    requires
        wf_tree(t),
        0 <= cur < t.len(),
        open_node(t[cur].data),
        normalized(t),
        nd.parent == Some(cur),
        nd.children.len() == 0,
        !(nd.data is Document),
        node_leaf_ok(nd),
    ensures
        wf_tree(append_node(t, cur, nd)),
        normalized(append_node(t, cur, nd)),
{
    let t2 = append_node(t, cur, nd);
    let n = t.len() as int;
    assert(t2.len() == n + 1);
    assert(t2[n] == nd);
    assert(t2[cur].children == t[cur].children.push(n));
    assert forall|i: int| 0 <= i < t2.len() implies #[trigger] wf_node(t2, i) by {
        if i < n {
            assert(wf_node(t, i));
            if i == cur {
                // children gained one entry at the end; everything else holds as before
                assert(t2[i].children[t[cur].children.len() as int] == n);
                assert forall|k: int| 0 <= k < t2[i].children.len() implies {
                    let c = #[trigger] t2[i].children[k];
                    &&& i < c < t2.len()
                    &&& t2[c].parent == Some(i)
                } by {
                    if k < t[cur].children.len() {
                        assert(t2[i].children[k] == t[cur].children[k]);
                        assert(t[cur].children[k] < n);
                    } else {
                        assert(t2[i].children[k] == n);
                    }
                }
                assert forall|k1: int, k2: int|
                    0 <= k1 < k2 < t2[i].children.len() implies #[trigger] t2[i].children[k1]
                    < #[trigger] t2[i].children[k2] by {
                    if k2 < t[cur].children.len() {
                        assert(t2[i].children[k1] == t[cur].children[k1]);
                        assert(t2[i].children[k2] == t[cur].children[k2]);
                    } else {
                        assert(t2[i].children[k2] == n);
                        assert(t2[i].children[k1] == t[cur].children[k1]);
                        assert(t[cur].children[k1] < n);
                    }
                }
                if t2[i].parent is Some {
                    let p = t2[i].parent->0;
                    assert(t[i].parent == Some(p));
                    assert(t[p].children.contains(i));
                    let w = choose|k: int| 0 <= k < t[p].children.len() && t[p].children[k] == i;
                    if p == cur {
                        assert(t2[p].children[w] == i);
                    } else {
                        assert(t2[p].children == t[p].children);
                        assert(t2[p].children[w] == i);
                    }
                    assert(t2[p].children.contains(i));
                }
            } else {
                assert(t2[i] == t[i]);
                assert forall|k: int| 0 <= k < t2[i].children.len() implies {
                    let c = #[trigger] t2[i].children[k];
                    &&& i < c < t2.len()
                    &&& t2[c].parent == Some(i)
                } by {
                    let c = t2[i].children[k];
                    assert(c == t[i].children[k]);
                    assert(i < c < t.len());
                    assert(t2[c].parent == t[c].parent);
                }
                if t2[i].parent is Some {
                    let p = t2[i].parent->0;
                    assert(t[p].children.contains(i));
                    let w = choose|k: int| 0 <= k < t[p].children.len() && t[p].children[k] == i;
                    assert(t2[p].children[w] == i);
                    assert(t2[p].children.contains(i));
                }
            }
        } else {
            // the new node
            assert(i == n);
            assert(t2[i] == nd);
            assert(t2[cur].children[t[cur].children.len() as int] == n);
            assert(t2[cur].children.contains(n));
            assert(nd.children.len() == 0);
        }
    }
    assert forall|i: int| 0 <= i < t2.len() implies node_leaf_ok(#[trigger] t2[i]) by {
        if i < n {
            if i == cur {
                assert(node_leaf_ok(t[cur]));
                assert(t2[i].data == t[cur].data);
                assert(!data_self_closing(t[cur].data));
                assert(!(t[cur].data is Text) && !(t[cur].data is Comment));
            } else {
                assert(t2[i] == t[i]);
                assert(node_leaf_ok(t[i]));
            }
        } else {
            assert(t2[i] == nd);
        }
    }
}


/// A start-tag event preserves everything the builder maintains.
pub proof fn lemma_start_preserves(
    s: BuilderModel,
    filter: bool,
    name: Seq<char>,
    attrs: Seq<(Seq<char>, Seq<char>)>,
    self_closing: bool,
)
    requires
        builder_inv(s, filter),
    ensures
        builder_inv(model_start_element(s, filter, name, attrs, self_closing), filter),
{
    let pdata = s.nodes[s.cursor].data;
    let s2 = model_start_element(s, filter, name, attrs, self_closing);
    if filter && !(pdata is Document || pdata is Element) {
    } else if filter && !spec_allow(data_name(pdata), CandidateKind::Element, name, attrs) {
    } else {
        let sc = self_closing || spec_is_void(name);
        let nd = elem_model(name, attrs, sc, s.cursor);
        lemma_append_node(s.nodes, s.cursor, nd);
        let n = s.nodes.len() as int;
        assert(s2.nodes[s.cursor].data == s.nodes[s.cursor].data);
        if !sc {
            assert(s2.nodes[n] == nd);
        }
        if filter {
            assert forall|i: int|
                0 <= i < s2.nodes.len() && #[trigger] s2.nodes[i].data is Element implies match s2.nodes[i].parent {
                Some(p) => 0 <= p < s2.nodes.len() && spec_allow(
                    data_name(s2.nodes[p].data),
                    CandidateKind::Element,
                    data_name(s2.nodes[i].data),
                    data_attributes(s2.nodes[i].data),
                ),
                None => false,
            } by {
                if i < n {
                    assert(s2.nodes[i].data == s.nodes[i].data);
                    assert(s2.nodes[i].parent == s.nodes[i].parent);
                    if s.nodes[i].data is Element {
                        let p = s.nodes[i].parent->0;
                        assert(s2.nodes[p].data == s.nodes[p].data);
                    }
                } else {
                    assert(s2.nodes[i] == nd);
                    assert(s2.nodes[s.cursor].data == pdata);
                }
            }
        }
    }
}

/// An end-tag event preserves everything the builder maintains.
pub proof fn lemma_end_preserves(s: BuilderModel, filter: bool, name: Seq<char>)
    requires
        builder_inv(s, filter),
    ensures
        builder_inv(model_end_element(s, filter, name), filter),
{
    if filter && name.len() > 0 && s.skipped.len() > 0 && s.skipped.last() == name {
    } else {
        match s.nodes[s.cursor].parent {
            Some(p) => {
                // the parent of a node that has a child is itself open
                assert(wf_node(s.nodes, s.cursor));
                assert(s.nodes[p].children.contains(s.cursor));
                assert(s.nodes[p].children.len() > 0);
                assert(node_leaf_ok(s.nodes[p]));
                assert(open_node(s.nodes[p].data));
            },
            None => {},
        }
    }
}

/// A text event preserves everything the builder maintains.
pub proof fn lemma_text_preserves(s: BuilderModel, filter: bool, text: Seq<char>)
    requires
        builder_inv(s, filter),
    ensures
        builder_inv(model_text(s, filter, text), filter),
{
    let pdata = s.nodes[s.cursor].data;
    let s2 = model_text(s, filter, text);
    if filter && !(pdata is Document || pdata is Element) {
    } else if filter && !spec_allow(
        data_name(pdata),
        CandidateKind::Text,
        Seq::empty(),
        Seq::empty(),
    ) {
    } else {
        let nd = NodeModel {
            data: DataModel::Text(text),
            parent: Some(s.cursor),
            children: Seq::empty(),
        };
        lemma_append_node(s.nodes, s.cursor, nd);
        let n = s.nodes.len() as int;
        assert(s2.nodes[s.cursor].data == s.nodes[s.cursor].data);
        if filter {
            assert forall|i: int|
                0 <= i < s2.nodes.len() && #[trigger] s2.nodes[i].data is Element implies match s2.nodes[i].parent {
                Some(p) => 0 <= p < s2.nodes.len() && spec_allow(
                    data_name(s2.nodes[p].data),
                    CandidateKind::Element,
                    data_name(s2.nodes[i].data),
                    data_attributes(s2.nodes[i].data),
                ),
                None => false,
            } by {
                assert(i < n);
                assert(s2.nodes[i].data == s.nodes[i].data);
                assert(s2.nodes[i].parent == s.nodes[i].parent);
                if s.nodes[i].data is Element {
                    let p = s.nodes[i].parent->0;
                    assert(s2.nodes[p].data == s.nodes[p].data);
                }
            }
        }
    }
}

/// A comment event preserves everything the builder maintains.
pub proof fn lemma_comment_preserves(s: BuilderModel, filter: bool, text: Seq<char>)
    requires
        builder_inv(s, filter),
    ensures
        builder_inv(model_comment(s, text), filter),
{
    let s2 = model_comment(s, text);
    let nd = NodeModel {
        data: DataModel::Comment(text),
        parent: Some(s.cursor),
        children: Seq::empty(),
    };
    lemma_append_node(s.nodes, s.cursor, nd);
    let n = s.nodes.len() as int;
    assert(s2.nodes[s.cursor].data == s.nodes[s.cursor].data);
    if filter {
        assert forall|i: int|
            0 <= i < s2.nodes.len() && #[trigger] s2.nodes[i].data is Element implies match s2.nodes[i].parent {
            Some(p) => 0 <= p < s2.nodes.len() && spec_allow(
                data_name(s2.nodes[p].data),
                CandidateKind::Element,
                data_name(s2.nodes[i].data),
                data_attributes(s2.nodes[i].data),
            ),
            None => false,
        } by {
            assert(i < n);
            assert(s2.nodes[i].data == s.nodes[i].data);
            assert(s2.nodes[i].parent == s.nodes[i].parent);
            if s.nodes[i].data is Element {
                let p = s.nodes[i].parent->0;
                assert(s2.nodes[p].data == s.nodes[p].data);
            }
        }
    }
}

/// The streaming tree builder: consumes start/end/text/comment events and
/// grows the document tree through its cursor.
pub struct Handler {
    pub tree: Tree,
    pub current_node: usize,
    pub skipped: Vec<String>,
    pub filter: bool,
}

impl View for Handler {
    type V = BuilderModel;

    open spec fn view(&self) -> BuilderModel {
        BuilderModel {
            nodes: self.tree@,
            cursor: self.current_node as int,
            skipped: self.skipped@.map_values(|s: String| s@),
        }
    }
}

impl Handler {
    /// The state the builder keeps sound across all events.
    pub open spec fn inv(&self) -> bool {
        builder_inv(self@, self.filter)
    }

    /// A fresh builder over a tree holding just the `Document` root.
    pub fn new(filter: bool) -> (h: Handler)
        ensures
            h@ == initial_model(),
            h.filter == filter,
            h.inv(),
    {
        let mut nodes: Vec<Node> = Vec::new();
        nodes.push(Node { node: Enum::Document, parent: None, children: Vec::new() });
        let h = Handler { tree: Tree { nodes }, current_node: 0, skipped: Vec::new(), filter };
        proof {
            assert(h.tree@[0].children =~= Seq::<int>::empty());
            assert(h.tree@ =~~= initial_tree());
            assert(h@.skipped =~= Seq::<Seq<char>>::empty());
            assert(h@ =~~= initial_model());
            lemma_initial_tree_wf();
        }
        h
    }

    /// Appends one node under the cursor; the cursor does not move.
    fn append_to_cursor(&mut self, data: Enum)
        requires
            wf_tree(old(self)@.nodes),
            0 <= old(self)@.cursor < old(self)@.nodes.len(),
            open_node(old(self)@.nodes[old(self)@.cursor].data),
            normalized(old(self)@.nodes),
            !(data@ is Document),
            node_leaf_ok(
                NodeModel {
                    data: data@,
                    parent: Some(old(self)@.cursor),
                    children: Seq::empty(),
                },
            ),
    ensures
            final (self)@.nodes =~~= append_node(
                old(self)@.nodes,
                old(self)@.cursor,
                NodeModel { data: data@, parent: Some(old(self)@.cursor), children: Seq::empty() },
            ),
            final (self)@.cursor == old(self)@.cursor,
            final (self)@.skipped == old(self)@.skipped,
            final (self).filter == old(self).filter,
            final (self).current_node == old(self).current_node,
            final (self).tree.nodes@.len() == old(self).tree.nodes@.len() + 1,
            wf_tree(final (self)@.nodes),
            normalized(final (self)@.nodes),
    {
        let ghost told = self@.nodes;
        let ghost ndm = NodeModel { data: data@, parent: Some(self@.cursor), children: Seq::empty() };
        let j = self.tree.nodes.len();
        let cur = self.current_node;
        self.tree.nodes[cur].children.push(j);
        self.tree.nodes.push(Node { node: data, parent: Some(cur), children: Vec::new() });
        proof {
            let tnew = self@.nodes;
            let texp = append_node(told, cur as int, ndm);
            assert(tnew.len() == texp.len());
            assert forall|i: int| 0 <= i < tnew.len() implies tnew[i] =~~= texp[i] by {
                if i == cur {
                    assert(self.tree.nodes@[i].children@ == old(self).tree.nodes@[i].children@.push(
                        j,
                    ));
                    assert(self.tree.nodes@[i].node == old(self).tree.nodes@[i].node);
                    assert(self.tree.nodes@[i].parent == old(self).tree.nodes@[i].parent);
                    assert(tnew[i].children =~= told[i].children.push(j as int));
                } else if i == j {
                    assert(tnew[i].children =~= Seq::<int>::empty());
                } else {
                    assert(self.tree.nodes@[i] == old(self).tree.nodes@[i]);
                }
            }
            assert(tnew =~~= texp);
            lemma_append_node(told, cur as int, ndm);
        }
    }

    /// A start-tag event: apply the policy when filtering, normalize void
    /// elements, and move the cursor into the new element unless it closed
    /// itself at once.
    pub fn start_element(&mut self, name: String, attributes: Vec<(String, String)>, self_closing: bool)
        requires
            old(self).inv(),
        ensures
            final (self).inv(),
            final (self).filter == old(self).filter,
            final (self)@ == model_start_element(
                old(self)@,
                old(self).filter,
                name@,
                attrs_model(attributes@),
                self_closing,
            ),
    {
        let ghost m0 = self@;
        let ghost nm = name@;
        let ghost am = attrs_model(attributes@);
        if self.filter {
            let allowed: bool;
            match &self.tree.nodes[self.current_node].node {
                Enum::Document => {
                    allowed = allow("", CandidateKind::Element, name.as_str(), &attributes);
                },
                Enum::Element { name: pname, .. } => {
                    allowed = allow(
                        pname.as_str(),
                        CandidateKind::Element,
                        name.as_str(),
                        &attributes,
                    );
                },
                _ => {
                    return ;
                },
            }
            proof {
                assert(data_name(m0.nodes[m0.cursor].data) == data_name(
                    self.tree.nodes@[self.current_node as int].node@,
                ));
            }
            if !allowed {
                self.skipped.push(name);
                proof {
                    assert(self@.skipped =~= m0.skipped.push(nm));
                    assert(self@ =~~= model_start_element(m0, self.filter, nm, am, self_closing));
                }
                return ;
            }
        }
        let sc = if self_closing {
            true
        } else {
            is_void(name.as_str())
        };
        let j = self.tree.nodes.len();
        let data = Enum::Element { name, attributes, self_closing: sc };
        proof {
            assert(data@ =~~= DataModel::Element { name: nm, attributes: am, self_closing: sc });
        }
        self.append_to_cursor(data);
        if !sc {
            self.current_node = j;
        }
        proof {
            assert(self@ =~~= model_start_element(m0, self.filter, nm, am, self_closing));
            lemma_start_preserves(m0, self.filter, nm, am, self_closing);
        }
    }

    /// An end-tag event: either closes one level of a denied subtree, or
    /// moves the cursor back to the parent of the current node. The root is
    /// never popped past.
    pub fn end_element(&mut self, name: &str)
        requires
            old(self).inv(),
        ensures
            final (self).inv(),
            final (self).filter == old(self).filter,
            final (self)@ == model_end_element(old(self)@, old(self).filter, name@),
    {
        let ghost m0 = self@;
        if self.filter && name.unicode_len() > 0 && self.skipped.len() > 0 {
            let last = self.skipped.len() - 1;
            if str_eq(name, self.skipped[last].as_str()) {
                self.skipped.pop();
                proof {
                    assert(m0.skipped[m0.skipped.len() - 1] == name@);
                    assert(self@.skipped =~= m0.skipped.drop_last());
                    assert(self@ =~~= model_end_element(m0, self.filter, name@));
                }
                return ;
            }
        }
        proof {
            if m0.skipped.len() > 0 && name@.len() > 0 {
                assert(m0.skipped[m0.skipped.len() - 1] == self.skipped@[self.skipped@.len() - 1]@);
            }
        }
        match self.tree.nodes[self.current_node].parent {
            Some(p) => {
                self.current_node = p;
                proof {
                    assert(self@ =~~= model_end_element(m0, self.filter, name@));
                    lemma_end_preserves(m0, self.filter, name@);
                }
            },
            None => {
                proof {
                    assert(self@ =~~= model_end_element(m0, self.filter, name@));
                }
            },
        }
    }

    /// A text event (already trimmed, non-empty): appended under the cursor
    /// when the policy admits text there, or unconditionally without
    /// filtering.
    pub fn text(&mut self, text: String)
        requires
            old(self).inv(),
        ensures
            final (self).inv(),
            final (self).filter == old(self).filter,
            final (self)@ == model_text(old(self)@, old(self).filter, text@),
    {
        let ghost m0 = self@;
        if self.filter {
            let allowed: bool;
            let empty_attrs: Vec<(String, String)> = Vec::new();
            match &self.tree.nodes[self.current_node].node {
                Enum::Document => {
                    allowed = allow("", CandidateKind::Text, "", &empty_attrs);
                },
                Enum::Element { name: pname, .. } => {
                    allowed = allow(pname.as_str(), CandidateKind::Text, "", &empty_attrs);
                },
                _ => {
                    return ;
                },
            }
            proof {
                reveal_strlit("");
                assert(""@ =~= Seq::<char>::empty());
                assert(data_name(m0.nodes[m0.cursor].data) == data_name(
                    self.tree.nodes@[self.current_node as int].node@,
                ));
            }
            if !allowed {
                return ;
            }
        }
        self.append_to_cursor(Enum::Text(text));
        proof {
            assert(self@ =~~= model_text(m0, self.filter, text@));
            lemma_text_preserves(m0, self.filter, text@);
        }
    }

    /// A comment event (already trimmed, non-empty): appended under the
    /// cursor unconditionally; the policy never applies to comments.
    pub fn comment(&mut self, text: String)
        requires
            old(self).inv(),
        ensures
            final (self).inv(),
            final (self).filter == old(self).filter,
            final (self)@ == model_comment(old(self)@, text@),
    {
        let ghost m0 = self@;
        self.append_to_cursor(Enum::Comment(text));
        proof {
            assert(self@ =~~= model_comment(m0, text@));
            lemma_comment_preserves(m0, self.filter, text@);
        }
    }

    /// Hands the finished tree over.
    pub fn into_tree(self) -> (t: Tree)
        ensures
            t@ == self@.nodes,
    {
        self.tree
    }
}


} // verus!
