//! The consumer-facing node handles.
//!
//! A `Node` is a handle to one slot of a `Tree`: it can be severed with
//! `free`, after which every accessor reports `UseAfterFree` instead of
//! reading; asking the root for its parent reports `NoParent`. Both are
//! recoverable errors, reported uniformly by every operation.

use vstd::prelude::*;

use crate::node::{
    attr_match, attrs_model, data_attributes, data_name, descendants, html_of, is_descendant,
    matching_upto, text_of, DataModel, Enum, NodeModel, Tree,
};
use crate::strings::{lower_of, str_eq, to_lowercase};

verus! {

/// The kind of a node, as consumers see it.
#[derive(Clone, Copy, Debug, PartialEq, Eq, Structural)]
pub enum Kind {
    Document,
    Element,
    Text,
    Comment,
}

/// The recoverable error conditions of the node accessors.
#[derive(Clone, Copy, Debug, PartialEq, Eq, Structural)]
pub enum NodeError {
    /// The handle was severed with `free`; nothing can be read through it.
    UseAfterFree,
    /// `parent` was asked of the root node.
    NoParent,
}

/// The kind of a node's data.
pub open spec fn kind_of(d: DataModel) -> Kind {
    match d {
        DataModel::Document => Kind::Document,
        DataModel::Element { .. } => Kind::Element,
        DataModel::Text(..) => Kind::Text,
        DataModel::Comment(..) => Kind::Comment,
    }
}

/// `m` with the binding for `k` replaced in place, or appended when absent.
pub open spec fn assoc_set(
    m: Seq<(Seq<char>, Seq<char>)>,
    k: Seq<char>,
    v: Seq<char>,
) -> Seq<(Seq<char>, Seq<char>)>
    decreases m.len(),
{
    if m.len() == 0 {
        seq![(k, v)]
    } else if m[0].0 == k {
        seq![(k, v)] + m.drop_first()
    } else {
        seq![m[0]] + assoc_set(m.drop_first(), k, v)
    }
}

/// The attribute mapping consumers see: names lower-cased, values verbatim,
/// and when names collide the later attribute wins.
pub open spec fn collapse_attrs(attrs: Seq<(Seq<char>, Seq<char>)>) -> Seq<(Seq<char>, Seq<char>)>
    decreases attrs.len(),
{
    if attrs.len() == 0 {
        Seq::empty()
    } else {
        assoc_set(collapse_attrs(attrs.drop_last()), lower_of(attrs.last().0), attrs.last().1)
    }
}

proof fn lemma_assoc_set_found(m: Seq<(Seq<char>, Seq<char>)>, k: Seq<char>, v: Seq<char>, j: int)
    requires
        0 <= j < m.len(),
        m[j].0 == k,
        forall|j2: int| 0 <= j2 < j ==> (#[trigger] m[j2]).0 != k,
    ensures
        assoc_set(m, k, v) == m.update(j, (k, v)),
    decreases m.len(),
{
    if j == 0 {
        assert(assoc_set(m, k, v) =~= m.update(0, (k, v)));
    } else {
        let d = m.drop_first();
        assert(forall|j2: int| 0 <= j2 < j - 1 ==> (#[trigger] d[j2]).0 != k);
        lemma_assoc_set_found(d, k, v, j - 1);
        assert(assoc_set(m, k, v) =~= m.update(j, (k, v)));
    }
}

proof fn lemma_assoc_set_missing(m: Seq<(Seq<char>, Seq<char>)>, k: Seq<char>, v: Seq<char>)
    requires
        forall|j: int| 0 <= j < m.len() ==> (#[trigger] m[j]).0 != k,
    ensures
        assoc_set(m, k, v) == m.push((k, v)),
    decreases m.len(),
{
    if m.len() == 0 {
        assert(assoc_set(m, k, v) =~= m.push((k, v)));
    } else {
        lemma_assoc_set_missing(m.drop_first(), k, v);
        assert(assoc_set(m, k, v) =~= m.push((k, v)));
    }
}

/// A handle to one node of a document tree. `free` severs it; every other
/// operation reports `UseAfterFree` once that has happened.
#[derive(Debug, Clone, PartialEq)]
pub struct Node {
    pub native: Option<usize>,
}

impl Node {
    /// A live handle points inside the tree it is read against.
    pub open spec fn live_in(&self, t: Seq<NodeModel>) -> bool {
        match self.native {
            Some(i) => i < t.len(),
            None => true,
        }
    }

    /// Wraps an arena index (or nothing) as a handle.
    pub fn new(native: Option<usize>) -> (n: Node)
        ensures
            n.native == native,
    {
        Node { native }
    }

    /// The element tag name, case preserved; the empty string for any other
    /// kind of node.
    pub fn name(&self, tree: &Tree) -> (r: Result<String, NodeError>)
        requires
            tree.wf(),
            self.live_in(tree@),
        ensures
            match r {
                Ok(s) => self.native matches Some(i) && s@ == data_name(tree@[i as int].data),
                Err(e) => self.native is None && e == NodeError::UseAfterFree,
            },
    {
        match self.native {
            Some(i) => match &tree.nodes[i].node {
                Enum::Element { name, .. } => Ok(name.clone()),
                _ => {
                    proof {
                        assert(data_name(tree@[i as int].data) =~= Seq::<char>::empty());
                    }
                    Ok(String::new())
                },
            },
            None => Err(NodeError::UseAfterFree),
        }
    }

    /// The node's attributes as a mapping: names lower-cased, values
    /// verbatim, later duplicates winning. Empty for non-elements.
    pub fn attributes(&self, tree: &Tree) -> (r: Result<Vec<(String, String)>, NodeError>)
        requires
            tree.wf(),
            self.live_in(tree@),
        ensures
            match r {
                Ok(v) => self.native matches Some(i) && attrs_model(v@) == collapse_attrs(
                    data_attributes(tree@[i as int].data),
                ),
                Err(e) => self.native is None && e == NodeError::UseAfterFree,
            },
    {
        let i = match self.native {
            Some(i) => i,
            None => {
                return Err(NodeError::UseAfterFree);
            },
        };
        let mut out: Vec<(String, String)> = Vec::new();
        match &tree.nodes[i].node {
            Enum::Element { attributes, .. } => {
                let ghost am = data_attributes(tree@[i as int].data);
                proof {
                    assert(am == attrs_model(attributes@));
                    assert(attrs_model(out@) =~= collapse_attrs(am.take(0)));
                }
                let n = attributes.len();
                let mut k: usize = 0;
                while k < n
                    invariant
                        0 <= k <= n,
                        n == attributes@.len(),
                        am == attrs_model(attributes@),
                        am.len() == n,
                        attrs_model(out@) =~= collapse_attrs(am.take(k as int)),
                    decreases n - k,
                {
                    let lk = to_lowercase(attributes[k].0.as_str());
                    let value = attributes[k].1.clone();
                    proof {
                        assert(am[k as int] == (attributes@[k as int].0@, attributes@[k as int].1@));
                        assert(am.take(k + 1).drop_last() =~= am.take(k as int));
                        assert(am.take(k + 1).last() == am[k as int]);
                    }
                    let ghost before = attrs_model(out@);
                    let mut j: usize = 0;
                    let mut found = false;
                    while j < out.len() && !found
                        invariant
                            0 <= j <= out@.len(),
                            before == attrs_model(out@),
                            found ==> j < out@.len() && attrs_model(out@)[j as int].0 == lk@,
                            forall|j2: int|
                                0 <= j2 < j ==> (#[trigger] attrs_model(out@)[j2]).0 != lk@,
                        decreases out@.len() - j, (if found {
                            0int
                        } else {
                            1int
                        }),
                    {
                        proof {
                            assert(attrs_model(out@)[j as int] == (
                                out@[j as int].0@,
                                out@[j as int].1@,
                            ));
                        }
                        if str_eq(out[j].0.as_str(), lk.as_str()) {
                            found = true;
                        } else {
                            j += 1;
                        }
                    }
                    if found {
                        let pair = out.remove(j);
                        out.insert(j, (pair.0, value));
                        proof {
                            lemma_assoc_set_found(before, lk@, attributes@[k as int].1@, j as int);
                            assert(attrs_model(out@) =~= before.update(j as int, (
                                lk@,
                                attributes@[k as int].1@,
                            )));
                        }
                    } else {
                        out.push((lk, value));
                        proof {
                            lemma_assoc_set_missing(before, lk@, attributes@[k as int].1@);
                            assert(attrs_model(out@) =~= before.push((
                                lk@,
                                attributes@[k as int].1@,
                            )));
                        }
                    }
                    k += 1;
                    proof {
                        assert(attrs_model(out@) =~= collapse_attrs(am.take(k as int)));
                    }
                }
                proof {
                    assert(am.take(n as int) =~= am);
                }
                Ok(out)
            },
            _ => {
                proof {
                    assert(data_attributes(tree@[i as int].data) =~= Seq::<(
                        Seq<char>,
                        Seq<char>,
                    )>::empty());
                    assert(attrs_model(out@) =~= collapse_attrs(
                        data_attributes(tree@[i as int].data),
                    ));
                }
                Ok(out)
            },
        }
    }

    /// Which of the four kinds the node is.
    pub fn kind(&self, tree: &Tree) -> (r: Result<Kind, NodeError>)
        requires
            tree.wf(),
            self.live_in(tree@),
        ensures
            match r {
                Ok(k) => self.native matches Some(i) && k == kind_of(tree@[i as int].data),
                Err(e) => self.native is None && e == NodeError::UseAfterFree,
            },
    {
        match self.native {
            Some(i) => match &tree.nodes[i].node {
                Enum::Document => Ok(Kind::Document),
                Enum::Element { .. } => Ok(Kind::Element),
                Enum::Text(..) => Ok(Kind::Text),
                Enum::Comment(..) => Ok(Kind::Comment),
            },
            None => Err(NodeError::UseAfterFree),
        }
    }

    /// The parent handle; `NoParent` on the root, `UseAfterFree` on a severed
    /// handle.
    pub fn parent(&self, tree: &Tree) -> (r: Result<Node, NodeError>)
        requires
            tree.wf(),
            self.live_in(tree@),
        ensures
            match r {
                Ok(n) => self.native matches Some(i) && tree@[i as int].parent matches Some(p)
                    && n.native == Some(p as usize) && 0 <= p < tree@.len(),
                Err(NodeError::NoParent) => self.native matches Some(i) && tree@[i as int].parent
                    is None,
                Err(NodeError::UseAfterFree) => self.native is None,
            },
    {
        match self.native {
            Some(i) => {
                proof {
                    assert(crate::node::wf_node(tree@, i as int));
                }
                match tree.nodes[i].parent {
                    Some(p) => Ok(Node { native: Some(p) }),
                    None => Err(NodeError::NoParent),
                }
            },
            None => Err(NodeError::UseAfterFree),
        }
    }

    /// Whether this handle points at the tree's root.
    pub fn is_root(&self, tree: &Tree) -> (r: Result<bool, NodeError>)
        requires
            tree.wf(),
            self.live_in(tree@),
        ensures
            match r {
                Ok(b) => self.native matches Some(i) && b == (tree@[i as int].parent is None) && b
                    == (i == 0),
                Err(e) => self.native is None && e == NodeError::UseAfterFree,
            },
    {
        match self.native {
            Some(i) => {
                proof {
                    assert(crate::node::wf_node(tree@, i as int));
                }
                Ok(tree.nodes[i].parent.is_none())
            },
            None => Err(NodeError::UseAfterFree),
        }
    }

    /// The node's `text()`: stored content of a text or comment, the text of
    /// an element's first child, empty otherwise.
    pub fn text(&self, tree: &Tree) -> (r: Result<String, NodeError>)
        requires
            tree.wf(),
            self.live_in(tree@),
        ensures
            match r {
                Ok(s) => self.native matches Some(i) && s@ == text_of(tree@, i as int),
                Err(e) => self.native is None && e == NodeError::UseAfterFree,
            },
    {
        match self.native {
            Some(i) => Ok(tree.text(i)),
            None => Err(NodeError::UseAfterFree),
        }
    }

    /// Serialization of the subtree at this node.
    pub fn to_html(&self, tree: &Tree, indentation: usize, level: usize) -> (r: Result<
        String,
        NodeError,
    >)
        requires
            tree.wf(),
            self.live_in(tree@),
            level + tree@.len() <= usize::MAX,
        ensures
            match r {
                Ok(s) => self.native matches Some(i) && s@ == html_of(
                    tree@,
                    i as int,
                    indentation as nat,
                    level as nat,
                ),
                Err(e) => self.native is None && e == NodeError::UseAfterFree,
            },
    {
        match self.native {
            Some(i) => Ok(tree.to_html(i, indentation, level)),
            None => Err(NodeError::UseAfterFree),
        }
    }

    /// Severs the handle: reads through it fail from now on. The tree and
    /// all other handles are unaffected.
    pub fn free(&mut self)
        ensures
            final (self).native is None,
    {
        self.native = None;
    }

    /// All descendants of this node in document order, as fresh handles.
    pub fn traverse(&self, tree: &Tree) -> (r: Result<Vec<Node>, NodeError>)
        requires
            tree.wf(),
            self.live_in(tree@),
        ensures
            match r {
                Ok(v) => self.native matches Some(i) && v@.map_values(|h: Node| h.native)
                    =~= descendants(tree@, i as int).map_values(|x: int| Some(x as usize)),
                Err(e) => self.native is None && e == NodeError::UseAfterFree,
            },
    {
        match self.native {
            Some(i) => Ok(wrap_indices(tree.traverse(i))),
            None => Err(NodeError::UseAfterFree),
        }
    }

    /// The descendants that are comments, in document order.
    pub fn traverse_comments(&self, tree: &Tree) -> (r: Result<Vec<Node>, NodeError>)
        requires
            tree.wf(),
            self.live_in(tree@),
        ensures
            match r {
                Ok(v) => self.native matches Some(i) && v@.map_values(|h: Node| h.native)
                    =~= matching_upto(
                    |j: int| is_descendant(tree@, j, i as int) && tree@[j].data is Comment,
                    tree@.len() as int,
                ).map_values(|x: int| Some(x as usize)),
                Err(e) => self.native is None && e == NodeError::UseAfterFree,
            },
    {
        match self.native {
            Some(i) => Ok(wrap_indices(tree.traverse_comments(i))),
            None => Err(NodeError::UseAfterFree),
        }
    }

    /// The descendant elements whose tag name matches, case-insensitively.
    pub fn nodes_by_name(&self, tree: &Tree, tag_name: &str) -> (r: Result<Vec<Node>, NodeError>)
        requires
            tree.wf(),
            self.live_in(tree@),
        ensures
            match r {
                Ok(v) => self.native matches Some(i) && v@.map_values(|h: Node| h.native)
                    =~= matching_upto(
                    |j: int|
                        is_descendant(tree@, j, i as int) && tree@[j].data is Element && lower_of(
                            data_name(tree@[j].data),
                        ) == lower_of(tag_name@),
                    tree@.len() as int,
                ).map_values(|x: int| Some(x as usize)),
                Err(e) => self.native is None && e == NodeError::UseAfterFree,
            },
    {
        match self.native {
            Some(i) => Ok(wrap_indices(tree.nodes_by_name(i, tag_name))),
            None => Err(NodeError::UseAfterFree),
        }
    }

    /// The descendant elements with an attribute whose name and value both
    /// match, case-insensitively; each such element appears exactly once.
    pub fn nodes_by_attribute_name_and_value(&self, tree: &Tree, n: &str, v: &str) -> (r: Result<
        Vec<Node>,
        NodeError,
    >)
        requires
            tree.wf(),
            self.live_in(tree@),
        ensures
            match r {
                Ok(out) => self.native matches Some(i) && out@.map_values(|h: Node| h.native)
                    =~= matching_upto(
                    |j: int|
                        is_descendant(tree@, j, i as int) && tree@[j].data is Element && attr_match(
                            data_attributes(tree@[j].data),
                            n@,
                            v@,
                        ),
                    tree@.len() as int,
                ).map_values(|x: int| Some(x as usize)),
                Err(e) => self.native is None && e == NodeError::UseAfterFree,
            },
    {
        match self.native {
            Some(i) => Ok(wrap_indices(tree.nodes_by_attribute_name_and_value(i, n, v))),
            None => Err(NodeError::UseAfterFree),
        }
    }
}

/// Wraps raw arena indices as handles, in order.
fn wrap_indices(ids: Vec<usize>) -> (r: Vec<Node>)
    ensures
        r@.map_values(|h: Node| h.native) =~= ids@.map_values(|u: usize| u as int).map_values(
            |x: int| Some(x as usize),
        ),
{
    let n = ids.len();
    let mut r: Vec<Node> = Vec::new();
    let mut k: usize = 0;
    while k < n
        invariant
            0 <= k <= n,
            n == ids@.len(),
            r@.len() == k,
            forall|j: int| 0 <= j < k ==> (#[trigger] r@[j]).native == Some(ids@[j]),
        decreases n - k,
    {
        let id = ids[k];
        r.push(Node { native: Some(id) });
        k += 1;
    }
    proof {
        let lhs = r@.map_values(|h: Node| h.native);
        let rhs = ids@.map_values(|u: usize| u as int).map_values(|x: int| Some(x as usize));
        assert forall|j: int| 0 <= j < n implies #[trigger] lhs[j] == rhs[j] by {
            assert(r@[j].native == Some(ids@[j]));
        }
        assert(lhs =~= rhs);
    }
    r
}

} // verus!
