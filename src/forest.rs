//! Forests, trees and node handles.
//!
//! A [`Tree`] keeps its node records in an arena; a [`Node`] is a copyable
//! handle made of the raw parts of an arena index and the position of its
//! tree in the [`Forest`]. Records are never deleted: removing a node detaches
//! it.
use vstd::prelude::*;
use vstd::string::*;
use generational_arena::Arena;
use crate::arena::{arena_contents, arena_new, arena_insert, arena_get, arena_get_mut, arena_len};
use crate::error::{Error, ErrorKind};
use crate::qname::{QualifiedName, same_name};
use crate::value::{Value, value_text};

verus! {

/// The position of a tree in its forest.
pub type TreeIndex = usize;

/// The kinds of node.
#[derive(Clone, Copy, Debug, PartialEq, Eq, Structural)]
pub enum NodeType {
    Document,
    Element,
    Text,
    Attribute,
    Comment,
    ProcessingInstruction,
    Unknown,
}

impl NodeType {
    pub fn to_string(&self) -> (r: &'static str)
        ensures
            r@ == node_type_text(*self),
    {
        match self {
            NodeType::Document => "Document",
            NodeType::Element => "Element",
            NodeType::Attribute => "Attribute",
            NodeType::Text => "Text",
            NodeType::ProcessingInstruction => "Processing-Instruction",
            NodeType::Comment => "Comment",
            NodeType::Unknown => "--None--",
        }
    }
}

pub open spec fn node_type_text(t: NodeType) -> Seq<char> {
    match t {
        NodeType::Document => "Document"@,
        NodeType::Element => "Element"@,
        NodeType::Attribute => "Attribute"@,
        NodeType::Text => "Text"@,
        NodeType::ProcessingInstruction => "Processing-Instruction"@,
        NodeType::Comment => "Comment"@,
        NodeType::Unknown => "--None--"@,
    }
}

impl Default for NodeType {
    fn default() -> (r: NodeType)
        ensures
            r == NodeType::Unknown,
    {
        NodeType::Unknown
    }
}

/// A handle on a node: the raw parts of its arena index, and its tree.
#[derive(Clone, Copy, Debug, PartialEq, Eq, Structural)]
pub struct Node {
    pub slot: usize,
    pub generation: u64,
    pub tree: TreeIndex,
}

impl Node {
    /// The arena key of the node.
    pub open spec fn key(self) -> (usize, u64) {
        (self.slot, self.generation)
    }
}

/// What the arena holds for one node.
#[derive(Debug)]
pub struct NodeContent {
    pub t: NodeType,
    pub name: Option<QualifiedName>,
    pub v: Option<Value>,
    pub parent: Option<Node>,
    pub attributes: Vec<Node>,
    pub children: Vec<Node>,
}

/// Whether a node of type `t` carries a name.
pub open spec fn has_name(t: NodeType) -> bool {
    t == NodeType::Element || t == NodeType::Attribute || t == NodeType::ProcessingInstruction
}

/// Whether a node of type `t` carries a value.
pub open spec fn has_value(t: NodeType) -> bool {
    t == NodeType::Text || t == NodeType::Attribute || t == NodeType::Comment
        || t == NodeType::ProcessingInstruction
}

/// Whether a node of type `t` may have children.
pub open spec fn can_have_children(t: NodeType) -> bool {
    t == NodeType::Element || t == NodeType::Document
}

/// A record's fields agree with its type.
pub open spec fn content_shape(r: NodeContent) -> bool {
    &&& r.name.is_some() == has_name(r.t)
    &&& r.v.is_some() == has_value(r.t)
    &&& (r.children@.len() > 0 ==> can_have_children(r.t))
    &&& (r.attributes@.len() > 0 ==> r.t == NodeType::Element)
    &&& r.t != NodeType::Unknown
}

/// A record as it is when made: detached, with no children or attributes.
pub open spec fn fresh_content(r: NodeContent) -> bool {
    &&& content_shape(r)
    &&& r.parent.is_none()
    &&& r.children@.len() == 0
    &&& r.attributes@.len() == 0
}

/// A tree: its position in the forest, its arena, and its document node.
pub struct Tree {
    pub(crate) i: TreeIndex,
    pub(crate) a: Arena<NodeContent>,
    pub(crate) d: (usize, u64),
}

impl Tree {
    /// The records of the tree, by key.
    pub closed spec fn nodes(self) -> Map<(usize, u64), NodeContent> {
        arena_contents(self.a)
    }

    pub closed spec fn index(self) -> TreeIndex {
        self.i
    }

    /// The handle of the node stored under `k`.
    pub open spec fn node_at(self, k: (usize, u64)) -> Node {
        Node { slot: k.0, generation: k.1, tree: self.index() }
    }

    /// The key of the document node.
    pub closed spec fn doc_key(self) -> (usize, u64) {
        self.d
    }

    pub open spec fn doc(self) -> Node {
        self.node_at(self.doc_key())
    }

    /// Whether `n` is a node of this tree.
    pub open spec fn has(self, n: Node) -> bool {
        n.tree == self.index() && self.nodes().contains_key(n.key())
    }

    pub open spec fn rec(self, n: Node) -> NodeContent {
        self.nodes()[n.key()]
    }

    /// `c` is a child of `n`: present, not an attribute, and pointing back.
    pub open spec fn child_ok(self, n: Node, c: Node) -> bool {
        &&& self.has(c)
        &&& self.rec(c).parent == Some(n)
        &&& self.rec(c).t != NodeType::Attribute
    }

    /// `a` is an attribute of `n`: present, an attribute, and pointing back.
    pub open spec fn attr_ok(self, n: Node, a: Node) -> bool {
        &&& self.has(a)
        &&& self.rec(a).parent == Some(n)
        &&& self.rec(a).t == NodeType::Attribute
    }

    /// The name of an attribute node.
    pub open spec fn attr_name(self, a: Node) -> QualifiedName {
        self.rec(a).name.unwrap()
    }

    /// The record under `k` is consistent with the rest of the tree.
    pub open spec fn record_wf(self, k: (usize, u64)) -> bool {
        let r = self.nodes()[k];
        let n = self.node_at(k);
        &&& content_shape(r)
        &&& (r.t == NodeType::Document <==> k == self.doc_key())
        &&& (k == self.doc_key() ==> r.parent.is_none())
        &&& r.parent != Some(n)
        &&& r.children@.no_duplicates()
        &&& r.attributes@.no_duplicates()
        &&& forall|j: int| 0 <= j < r.children@.len() ==> #[trigger] self.child_ok(n, r.children@[j])
        &&& forall|j: int| 0 <= j < r.attributes@.len() ==> #[trigger] self.attr_ok(n, r.attributes@[j])
        &&& forall|j: int, l: int|
            0 <= j < r.attributes@.len() && 0 <= l < r.attributes@.len() && j != l ==> !same_name(
                #[trigger] self.attr_name(r.attributes@[j]),
                #[trigger] self.attr_name(r.attributes@[l]),
            )
        &&& match r.parent {
            Some(p) => self.has(p) && (if r.t == NodeType::Attribute {
                self.rec(p).attributes@.contains(n)
            } else {
                self.rec(p).children@.contains(n)
            }),
            None => true,
        }
    }

    /// The tree's invariant: the document node is there, and every record is
    /// consistent with the others.
    pub open spec fn wf(self) -> bool {
        &&& self.nodes().dom().finite()
        &&& self.nodes().contains_key(self.doc_key())
        &&& forall|k: (usize, u64)| #[trigger] self.nodes().contains_key(k) ==> self.record_wf(k)
    }

    /// A new tree at position `i` of its forest, holding a document node alone.
    pub fn new(i: TreeIndex) -> (r: Tree)
        ensures
            r.wf(),
            r.index() == i,
            r.nodes().dom() == set![r.doc().key()],
            r.rec(r.doc()).t == NodeType::Document,
            r.rec(r.doc()).children@.len() == 0,
    {
        let mut a = arena_new();
        let content = NodeContent {
            t: NodeType::Document,
            name: None,
            v: None,
            parent: None,
            attributes: Vec::new(),
            children: Vec::new(),
        };
        let d = arena_insert(&mut a, content);
        let t = Tree { i, a, d };
        assert(t.nodes().dom() =~= set![d]);
        assert(t.record_wf(d));
        t
    }

    /// The handle of the document node.
    pub fn get_doc_node(&self) -> (r: Node)
        ensures
            r == self.doc(),
            self.wf() ==> self.has(r) && self.rec(r).t == NodeType::Document,
    {
        proof {
            if self.wf() {
                assert(self.record_wf(self.doc_key()));
            }
        }
        Node { slot: self.d.0, generation: self.d.1, tree: self.i }
    }

    /// The record of `n`, if `n` is a node of this tree.
    pub fn get(&self, n: Node) -> (r: Option<&NodeContent>)
        ensures
            match r {
                Some(c) => self.has(n) && *c == self.rec(n),
                None => !self.has(n),
            },
    {
        if n.tree != self.i {
            return None;
        }
        arena_get(&self.a, (n.slot, n.generation))
    }

    /// The number of records the tree holds.
    pub fn node_count(&self) -> (r: usize)
        ensures
            r == self.nodes().len(),
    {
        arena_len(&self.a)
    }

    /// Stores a new detached record.
    fn new_node(&mut self, content: NodeContent) -> (r: Node)
        requires
            old(self).wf(),
            fresh_content(content),
            content.t != NodeType::Document,
        ensures
            final(self).wf(),
            final(self).index() == old(self).index(),
            final(self).doc() == old(self).doc(),
            !old(self).has(r),
            r.tree == old(self).index(),
            final(self).nodes() == old(self).nodes().insert(r.key(), content),
    {
        let ghost old_t = *self;
        let k = arena_insert(&mut self.a, content);
        let r = Node { slot: k.0, generation: k.1, tree: self.i };
        assert forall|q: (usize, u64)| #[trigger] self.nodes().contains_key(q) implies self.record_wf(q) by {
            if q != k {
                assert(old_t.nodes().contains_key(q));
                assert(old_t.record_wf(q));
                assert(self.nodes()[q] == old_t.nodes()[q]);
                assert(self.node_at(q) == old_t.node_at(q));
                let rq = self.nodes()[q];
                let nq = self.node_at(q);
                assert forall|j: int| 0 <= j < rq.children@.len() implies #[trigger] self.child_ok(nq, rq.children@[j]) by {
                    assert(old_t.child_ok(nq, rq.children@[j]));
                }
                assert forall|j: int| 0 <= j < rq.attributes@.len() implies #[trigger] self.attr_ok(nq, rq.attributes@[j]) by {
                    assert(old_t.attr_ok(nq, rq.attributes@[j]));
                }
                assert forall|j: int, l: int|
                    0 <= j < rq.attributes@.len() && 0 <= l < rq.attributes@.len() && j != l implies !same_name(
                        #[trigger] self.attr_name(rq.attributes@[j]),
                        #[trigger] self.attr_name(rq.attributes@[l]),
                    ) by {
                    assert(old_t.attr_ok(nq, rq.attributes@[j]));
                    assert(old_t.attr_ok(nq, rq.attributes@[l]));
                    assert(!same_name(old_t.attr_name(rq.attributes@[j]), old_t.attr_name(rq.attributes@[l])));
                }
            }
        }
        r
    }

    /// Stores a new detached node of type `t`.
    fn make(&mut self, t: NodeType, name: Option<QualifiedName>, v: Option<Value>) -> (r: Result<Node, Error>)
        requires
            old(self).wf(),
            name.is_some() == has_name(t),
            v.is_some() == has_value(t),
            t != NodeType::Document,
            t != NodeType::Unknown,
        ensures
            r matches Ok(n) && made(*final(self), *old(self), n, t, name, v),
    {
        Ok(self.new_node(NodeContent {
            t,
            name,
            v,
            parent: None,
            attributes: Vec::new(),
            children: Vec::new(),
        }))
    }

    /// A new, detached element.
    pub fn new_element(&mut self, name: QualifiedName) -> (r: Result<Node, Error>)
        requires
            old(self).wf(),
        ensures
            r matches Ok(n) && made(*final(self), *old(self), n, NodeType::Element, Some(name), None),
    {
        self.make(NodeType::Element, Some(name), None)
    }

    /// A new, detached text node.
    pub fn new_text(&mut self, c: Value) -> (r: Result<Node, Error>)
        requires
            old(self).wf(),
        ensures
            r matches Ok(n) && made(*final(self), *old(self), n, NodeType::Text, None, Some(c)),
    {
        self.make(NodeType::Text, None, Some(c))
    }

    /// A new, detached attribute.
    pub fn new_attribute(&mut self, name: QualifiedName, v: Value) -> (r: Result<Node, Error>)
        requires
            old(self).wf(),
        ensures
            r matches Ok(n) && made(*final(self), *old(self), n, NodeType::Attribute, Some(name), Some(v)),
    {
        self.make(NodeType::Attribute, Some(name), Some(v))
    }

    /// A new, detached comment.
    pub fn new_comment(&mut self, v: Value) -> (r: Result<Node, Error>)
        requires
            old(self).wf(),
        ensures
            r matches Ok(n) && made(*final(self), *old(self), n, NodeType::Comment, None, Some(v)),
    {
        self.make(NodeType::Comment, None, Some(v))
    }

    /// A new, detached processing instruction.
    pub fn new_processing_instruction(&mut self, name: QualifiedName, v: Value) -> (r: Result<Node, Error>)
        requires
            old(self).wf(),
        ensures
            r matches Ok(n) && made(*final(self), *old(self), n, NodeType::ProcessingInstruction, Some(name), Some(v)),
    {
        self.make(NodeType::ProcessingInstruction, Some(name), Some(v))
    }
}


impl Tree {
    /// `self` differs from `old` in the record of `n` alone.
    pub open spec fn only_changed(self, old: Tree, n: Node) -> bool {
        &&& self.index() == old.index()
        &&& self.doc_key() == old.doc_key()
        &&& old.has(n)
        &&& self.nodes() == old.nodes().insert(n.key(), self.rec(n))
    }

    /// Sets the parent link of `n`, and nothing else.
    fn set_parent(&mut self, n: Node, parent: Option<Node>)
        requires
            old(self).has(n),
        ensures
            final(self).only_changed(*old(self), n),
            final(self).rec(n) == (NodeContent { parent: parent, ..old(self).rec(n) }),
    {
        match arena_get_mut(&mut self.a, (n.slot, n.generation)) {
            Some(r) => {
                r.parent = parent;
            },
            None => {},
        }
    }

    /// Inserts `c` into the child sequence of `p` at position `i`.
    fn insert_child_entry(&mut self, p: Node, i: usize, c: Node)
        requires
            old(self).has(p),
            i <= old(self).rec(p).children@.len(),
        ensures
            final(self).only_changed(*old(self), p),
            final(self).rec(p).children@ == old(self).rec(p).children@.insert(i as int, c),
            final(self).rec(p).t == old(self).rec(p).t,
            final(self).rec(p).name == old(self).rec(p).name,
            final(self).rec(p).v == old(self).rec(p).v,
            final(self).rec(p).parent == old(self).rec(p).parent,
            final(self).rec(p).attributes == old(self).rec(p).attributes,
    {
        match arena_get_mut(&mut self.a, (p.slot, p.generation)) {
            Some(r) => {
                r.children.insert(i, c);
            },
            None => {},
        }
    }

    /// Takes the entry at position `i` out of the child sequence of `p`.
    fn remove_child_entry(&mut self, p: Node, i: usize)
        requires
            old(self).has(p),
            i < old(self).rec(p).children@.len(),
        ensures
            final(self).only_changed(*old(self), p),
            final(self).rec(p).children@ == old(self).rec(p).children@.remove(i as int),
            final(self).rec(p).t == old(self).rec(p).t,
            final(self).rec(p).name == old(self).rec(p).name,
            final(self).rec(p).v == old(self).rec(p).v,
            final(self).rec(p).parent == old(self).rec(p).parent,
            final(self).rec(p).attributes == old(self).rec(p).attributes,
    {
        match arena_get_mut(&mut self.a, (p.slot, p.generation)) {
            Some(r) => {
                r.children.remove(i);
            },
            None => {},
        }
    }

    /// Links the detached node `c` into the children of `p` at position `i`.
    fn link_child(&mut self, p: Node, i: usize, c: Node)
        requires
            old(self).wf(),
            old(self).has(p),
            old(self).has(c),
            can_have_children(old(self).rec(p).t),
            old(self).rec(c).t != NodeType::Attribute,
            old(self).rec(c).t != NodeType::Document,
            old(self).rec(c).parent.is_none(),
            c != p,
            i <= old(self).rec(p).children@.len(),
        ensures
            final(self).wf(),
            final(self).index() == old(self).index(),
            final(self).doc_key() == old(self).doc_key(),
            final(self).nodes().dom() == old(self).nodes().dom(),
            final(self).nodes() == old(self).nodes().insert(p.key(), final(self).rec(p)).insert(c.key(), final(self).rec(c)),
            final(self).rec(c) == (NodeContent { parent: Some(p), ..old(self).rec(c) }),
            final(self).rec(p).children@ == old(self).rec(p).children@.insert(i as int, c),
            final(self).rec(p).t == old(self).rec(p).t,
            final(self).rec(p).name == old(self).rec(p).name,
            final(self).rec(p).v == old(self).rec(p).v,
            final(self).rec(p).parent == old(self).rec(p).parent,
            final(self).rec(p).attributes == old(self).rec(p).attributes,
    {
        let ghost t0 = *self;
        proof {
            assert(t0.record_wf(p.key()));
            assert(t0.node_at(p.key()) == p);
            if t0.rec(p).children@.contains(c) {
                let j = choose|j: int| 0 <= j < t0.rec(p).children@.len() && t0.rec(p).children@[j] == c;
                assert(t0.child_ok(p, t0.rec(p).children@[j]));
            }
        }
        self.set_parent(c, Some(p));
        let ghost t1 = *self;
        self.insert_child_entry(p, i, c);
        let ghost t2 = *self;
        proof {
            assert(t2.nodes() =~= t0.nodes().insert(p.key(), t2.rec(p)).insert(c.key(), t2.rec(c)));
            assert(t2.rec(c) == t1.rec(c));
            assert forall|q: (usize, u64)| #[trigger] t2.nodes().contains_key(q) implies t2.record_wf(q) by {
                assert(t0.nodes().contains_key(q));
                assert(t0.record_wf(q));
                let r0 = t0.nodes()[q];
                let r2 = t2.nodes()[q];
                let nq = t2.node_at(q);
                assert(nq == t0.node_at(q));
                assert forall|j: int| 0 <= j < r2.children@.len() implies #[trigger] t2.child_ok(nq, r2.children@[j]) by {
                    let x = r2.children@[j];
                    if q == p.key() {
                        if j < i {
                            assert(x == r0.children@[j]);
                            assert(t0.child_ok(nq, r0.children@[j]));
                        } else if j > i {
                            assert(x == r0.children@[j - 1]);
                            assert(t0.child_ok(nq, r0.children@[j - 1]));
                        }
                    } else {
                        assert(t0.child_ok(nq, r0.children@[j]));
                    }
                }
                assert forall|j: int| 0 <= j < r2.attributes@.len() implies #[trigger] t2.attr_ok(nq, r2.attributes@[j]) by {
                    assert(t0.attr_ok(nq, r0.attributes@[j]));
                }
                assert forall|j: int, l: int|
                    0 <= j < r2.attributes@.len() && 0 <= l < r2.attributes@.len() && j != l implies !same_name(
                        #[trigger] t2.attr_name(r2.attributes@[j]),
                        #[trigger] t2.attr_name(r2.attributes@[l]),
                    ) by {
                    assert(t0.attr_ok(nq, r0.attributes@[j]));
                    assert(t0.attr_ok(nq, r0.attributes@[l]));
                    assert(!same_name(t0.attr_name(r0.attributes@[j]), t0.attr_name(r0.attributes@[l])));
                }
                if q == p.key() {
                    assert(r2.children@.no_duplicates());
                }
                match r2.parent {
                    Some(g) => {
                        if q != c.key() {
                            if r2.t == NodeType::Attribute {
                                assert(t0.rec(g).attributes@.contains(nq));
                                assert(t2.rec(g).attributes@ == t0.rec(g).attributes@);
                            } else {
                                let j = choose|j: int| 0 <= j < t0.rec(g).children@.len() && t0.rec(g).children@[j] == nq;
                                if g == p {
                                    if j < i {
                                        assert(t2.rec(g).children@[j] == nq);
                                    } else {
                                        assert(t2.rec(g).children@[j + 1] == nq);
                                    }
                                } else {
                                    assert(t2.rec(g).children@[j] == nq);
                                }
                            }
                        } else {
                            assert(t2.rec(p).children@[i as int] == c);
                        }
                    },
                    None => {},
                }
            }
        }
    }
}


impl Tree {
    /// Takes the entry at position `i` out of the attribute sequence of `p`.
    fn remove_attr_entry(&mut self, p: Node, i: usize)
        requires
            old(self).has(p),
            i < old(self).rec(p).attributes@.len(),
        ensures
            final(self).only_changed(*old(self), p),
            final(self).rec(p).attributes@ == old(self).rec(p).attributes@.remove(i as int),
            final(self).rec(p).t == old(self).rec(p).t,
            final(self).rec(p).name == old(self).rec(p).name,
            final(self).rec(p).v == old(self).rec(p).v,
            final(self).rec(p).parent == old(self).rec(p).parent,
            final(self).rec(p).children == old(self).rec(p).children,
    {
        match arena_get_mut(&mut self.a, (p.slot, p.generation)) {
            Some(r) => {
                r.attributes.remove(i);
            },
            None => {},
        }
    }

    /// The position of `x` in `s`, which holds it.
    pub(crate) fn position_of(s: &Vec<Node>, x: Node) -> (r: usize)
        requires
            s@.contains(x),
        ensures
            r < s@.len(),
            s@[r as int] == x,
            forall|j: int| 0 <= j < r ==> s@[j] != x,
    {
        let mut i: usize = 0;
        while i < s.len()
            invariant
                i <= s@.len(),
                s@.contains(x),
                forall|j: int| 0 <= j < i ==> s@[j] != x,
            decreases s@.len() - i,
        {
            if s[i] == x {
                return i;
            }
            i = i + 1;
        }
        proof {
            let j = choose|j: int| 0 <= j < s@.len() && s@[j] == x;
            assert(s@[j] == x);
        }
        0
    }

    /// Detaches `n` from its parent `q`: `n` leaves the children (or, for an
    /// attribute, the attributes) of `q`, and loses its parent link.
    fn unlink(&mut self, n: Node)
        requires
            old(self).wf(),
            old(self).has(n),
            old(self).rec(n).parent.is_some(),
        ensures
            final(self).wf(),
            final(self).index() == old(self).index(),
            final(self).doc_key() == old(self).doc_key(),
            final(self).nodes().dom() == old(self).nodes().dom(),
            ({
                let q = old(self).rec(n).parent.unwrap();
                &&& final(self).nodes() == old(self).nodes().insert(q.key(), final(self).rec(q)).insert(n.key(), final(self).rec(n))
                &&& final(self).rec(n) == (NodeContent { parent: None, ..old(self).rec(n) })
                &&& q != n
                &&& old(self).has(q)
                &&& final(self).rec(q).t == old(self).rec(q).t
                &&& final(self).rec(q).name == old(self).rec(q).name
                &&& final(self).rec(q).v == old(self).rec(q).v
                &&& final(self).rec(q).parent == old(self).rec(q).parent
                &&& if old(self).rec(n).t == NodeType::Attribute {
                    &&& final(self).rec(q).attributes@ == old(self).rec(q).attributes@.remove_value(n)
                    &&& final(self).rec(q).children == old(self).rec(q).children
                } else {
                    &&& final(self).rec(q).children@ == old(self).rec(q).children@.remove_value(n)
                    &&& final(self).rec(q).attributes == old(self).rec(q).attributes
                }
            }),
    {
        let ghost t0 = *self;
        let q = self.get(n).unwrap().parent.unwrap();
        let is_attr = self.get(n).unwrap().t == NodeType::Attribute;
        proof {
            assert(t0.nodes().contains_key(n.key()));
            assert(t0.record_wf(n.key()));
            assert(t0.node_at(n.key()) == n);
            assert(t0.node_at(q.key()) == q);
            assert(t0.record_wf(q.key()));
        }
        let ghost i_g: int;
        if is_attr {
            let i = Self::position_of(&self.get(q).unwrap().attributes, n);
            proof {
                i_g = i as int;
                t0.rec(q).attributes@.index_of_first_ensures(n);
            }
            self.remove_attr_entry(q, i);
        } else {
            let i = Self::position_of(&self.get(q).unwrap().children, n);
            proof {
                i_g = i as int;
                t0.rec(q).children@.index_of_first_ensures(n);
            }
            self.remove_child_entry(q, i);
        }
        let ghost t1 = *self;
        self.set_parent(n, None);
        let ghost t2 = *self;
        proof {
            assert(t2.nodes() =~= t0.nodes().insert(q.key(), t2.rec(q)).insert(n.key(), t2.rec(n)));
            assert forall|k: (usize, u64)| #[trigger] t2.nodes().contains_key(k) implies t2.record_wf(k) by {
                assert(t0.nodes().contains_key(k));
                assert(t0.record_wf(k));
                let r0 = t0.nodes()[k];
                let r2 = t2.nodes()[k];
                let nk = t2.node_at(k);
                assert(nk == t0.node_at(k));
                assert forall|j: int| 0 <= j < r2.children@.len() implies #[trigger] t2.child_ok(nk, r2.children@[j]) by {
                    if k == q.key() && !is_attr {
                        if j < i_g {
                            assert(t0.child_ok(nk, r0.children@[j]));
                            assert(r0.children@[j] != n);
                        } else {
                            assert(t0.child_ok(nk, r0.children@[j + 1]));
                            assert(r0.children@[j + 1] != r0.children@[i_g]);
                        }
                    } else {
                        assert(t0.child_ok(nk, r0.children@[j]));
                        if r0.children@[j] == n {
                            assert(t0.rec(n).parent == Some(nk));
                            assert(k == q.key());
                        }
                    }
                }
                assert forall|j: int| 0 <= j < r2.attributes@.len() implies #[trigger] t2.attr_ok(nk, r2.attributes@[j]) by {
                    if k == q.key() && is_attr {
                        if j < i_g {
                            assert(t0.attr_ok(nk, r0.attributes@[j]));
                            assert(r0.attributes@[j] != n);
                        } else {
                            assert(t0.attr_ok(nk, r0.attributes@[j + 1]));
                            assert(r0.attributes@[j + 1] != r0.attributes@[i_g]);
                        }
                    } else {
                        assert(t0.attr_ok(nk, r0.attributes@[j]));
                        if r0.attributes@[j] == n {
                            assert(t0.rec(n).parent == Some(nk));
                            assert(k == q.key());
                        }
                    }
                }
                assert forall|j: int, l: int|
                    0 <= j < r2.attributes@.len() && 0 <= l < r2.attributes@.len() && j != l implies !same_name(
                        #[trigger] t2.attr_name(r2.attributes@[j]),
                        #[trigger] t2.attr_name(r2.attributes@[l]),
                    ) by {
                    if k == q.key() && is_attr {
                        let j0 = if j < i_g { j } else { j + 1 };
                        let l0 = if l < i_g { l } else { l + 1 };
                        assert(r2.attributes@[j] == r0.attributes@[j0]);
                        assert(r2.attributes@[l] == r0.attributes@[l0]);
                        assert(t0.attr_ok(nk, r0.attributes@[j0]));
                        assert(t0.attr_ok(nk, r0.attributes@[l0]));
                        assert(!same_name(t0.attr_name(r0.attributes@[j0]), t0.attr_name(r0.attributes@[l0])));
                    } else {
                        assert(t0.attr_ok(nk, r0.attributes@[j]));
                        assert(t0.attr_ok(nk, r0.attributes@[l]));
                        assert(!same_name(t0.attr_name(r0.attributes@[j]), t0.attr_name(r0.attributes@[l])));
                    }
                }
                if k == q.key() {
                    if is_attr {
                        assert(r2.attributes@.no_duplicates());
                    } else {
                        assert(r2.children@.no_duplicates());
                    }
                }
                if k != n.key() {
                    match r2.parent {
                        Some(g) => {
                            if r2.t == NodeType::Attribute {
                                let j = choose|j: int| 0 <= j < t0.rec(g).attributes@.len() && t0.rec(g).attributes@[j] == nk;
                                if g == q && is_attr {
                                    if j < i_g {
                                        assert(t2.rec(g).attributes@[j] == nk);
                                    } else {
                                        assert(t2.rec(g).attributes@[j - 1] == nk);
                                    }
                                } else {
                                    assert(t2.rec(g).attributes@[j] == nk);
                                }
                            } else {
                                let j = choose|j: int| 0 <= j < t0.rec(g).children@.len() && t0.rec(g).children@[j] == nk;
                                if g == q && !is_attr {
                                    if j < i_g {
                                        assert(t2.rec(g).children@[j] == nk);
                                    } else {
                                        assert(t2.rec(g).children@[j - 1] == nk);
                                    }
                                } else {
                                    assert(t2.rec(g).children@[j] == nk);
                                }
                            }
                        },
                        None => {},
                    }
                }
            }
        }
    }
}


impl Tree {
    /// Whether the attribute sequence of `e` holds an attribute named like `qn`.
    pub open spec fn has_attr_named(self, e: Node, qn: QualifiedName) -> bool {
        exists|j: int| 0 <= j < self.rec(e).attributes@.len()
            && same_name(#[trigger] self.attr_name(self.rec(e).attributes@[j]), qn)
    }

    /// The position in the attribute sequence of `e` of the attribute named
    /// like `qn`, where there is one.
    pub open spec fn attr_pos(self, e: Node, qn: QualifiedName) -> int {
        choose|j: int| 0 <= j < self.rec(e).attributes@.len()
            && same_name(#[trigger] self.attr_name(self.rec(e).attributes@[j]), qn)
    }

    /// Replaces or appends an entry of the attribute sequence of `p`.
    fn put_attr_entry(&mut self, p: Node, i: usize, a: Node)
        requires
            old(self).has(p),
            i <= old(self).rec(p).attributes@.len(),
        ensures
            final(self).only_changed(*old(self), p),
            final(self).rec(p).attributes@ == if i == old(self).rec(p).attributes@.len() {
                old(self).rec(p).attributes@.push(a)
            } else {
                old(self).rec(p).attributes@.update(i as int, a)
            },
            final(self).rec(p).t == old(self).rec(p).t,
            final(self).rec(p).name == old(self).rec(p).name,
            final(self).rec(p).v == old(self).rec(p).v,
            final(self).rec(p).parent == old(self).rec(p).parent,
            final(self).rec(p).children == old(self).rec(p).children,
    {
        match arena_get_mut(&mut self.a, (p.slot, p.generation)) {
            Some(r) => {
                if i == r.attributes.len() {
                    r.attributes.push(a);
                } else {
                    r.attributes.set(i, a);
                }
            },
            None => {},
        }
    }

    /// The position of the attribute of `e` named like `qn`, or the number
    /// of attributes of `e` where none is.
    fn find_attr(&self, e: Node, qn: &QualifiedName) -> (r: usize)
        requires
            self.wf(),
            self.has(e),
        ensures
            r <= self.rec(e).attributes@.len(),
            r == self.rec(e).attributes@.len() <==> !self.has_attr_named(e, *qn),
            r < self.rec(e).attributes@.len() ==> same_name(self.attr_name(self.rec(e).attributes@[r as int]), *qn),
    {
        let attrs = &self.get(e).unwrap().attributes;
        proof {
            assert(self.record_wf(e.key()));
            assert(self.node_at(e.key()) == e);
        }
        let mut i: usize = 0;
        while i < attrs.len()
            invariant
                self.wf(),
                self.has(e),
                self.record_wf(e.key()),
                self.node_at(e.key()) == e,
                attrs@ == self.rec(e).attributes@,
                i <= attrs@.len(),
                forall|j: int| 0 <= j < i ==> !same_name(#[trigger] self.attr_name(attrs@[j]), *qn),
            decreases attrs@.len() - i,
        {
            let an = attrs[i];
            proof {
                assert(self.attr_ok(e, attrs@[i as int]));
            }
            let found = match &self.get(an).unwrap().name {
                Some(nm) => nm.same_as(qn),
                None => false,
            };
            if found {
                return i;
            }
            i = i + 1;
        }
        i
    }

    /// Makes the detached attribute `a` an attribute of the element `e`; an
    /// attribute of `e` with the same name is detached and its place taken.
    fn link_attribute(&mut self, e: Node, a: Node)
        requires
            old(self).wf(),
            old(self).has(e),
            old(self).has(a),
            old(self).rec(e).t == NodeType::Element,
            old(self).rec(a).t == NodeType::Attribute,
            old(self).rec(a).parent.is_none(),
        ensures
            final(self).wf(),
            final(self).index() == old(self).index(),
            final(self).doc_key() == old(self).doc_key(),
            final(self).nodes().dom() == old(self).nodes().dom(),
            final(self).rec(a) == (NodeContent { parent: Some(e), ..old(self).rec(a) }),
            final(self).rec(e) == (NodeContent { attributes: final(self).rec(e).attributes, ..old(self).rec(e) }),
            ({
                let qn = old(self).attr_name(a);
                let attrs = old(self).rec(e).attributes@;
                if old(self).has_attr_named(e, qn) {
                    let j = old(self).attr_pos(e, qn);
                    let o = attrs[j];
                    &&& final(self).rec(e).attributes@ == attrs.update(j, a)
                    &&& final(self).rec(o) == (NodeContent { parent: None, ..old(self).rec(o) })
                    &&& final(self).nodes() == old(self).nodes().insert(e.key(), final(self).rec(e)).insert(
                        a.key(), final(self).rec(a)).insert(o.key(), final(self).rec(o))
                } else {
                    &&& final(self).rec(e).attributes@ == attrs.push(a)
                    &&& final(self).nodes() == old(self).nodes().insert(e.key(), final(self).rec(e)).insert(
                        a.key(), final(self).rec(a))
                }
            }),
    {
        let ghost t0 = *self;
        let qn = match &self.get(a).unwrap().name {
            Some(nm) => nm.clone_name(),
            None => QualifiedName::new(None, None, String::new()),
        };
        proof {
            assert(t0.nodes().contains_key(a.key()));
            assert(t0.record_wf(a.key()));
            assert(t0.nodes().contains_key(e.key()));
            assert(t0.record_wf(e.key()));
            assert(t0.node_at(e.key()) == e);
            assert(t0.node_at(a.key()) == a);
            assert(qn == t0.attr_name(a));
            if t0.rec(e).attributes@.contains(a) {
                let j = choose|j: int| 0 <= j < t0.rec(e).attributes@.len() && t0.rec(e).attributes@[j] == a;
                assert(t0.attr_ok(e, t0.rec(e).attributes@[j]));
            }
        }
        let i = self.find_attr(e, &qn);
        let n_attrs = self.get(e).unwrap().attributes.len();
        let ghost old_attr: Option<Node> = None;
        if i < n_attrs {
            let o = self.get(e).unwrap().attributes[i];
            proof {
                old_attr = Some(o);
                assert(t0.attr_ok(e, t0.rec(e).attributes@[i as int]));
                let j = t0.attr_pos(e, qn);
                assert(same_name(t0.attr_name(t0.rec(e).attributes@[j]), qn));
                if j != i {
                    assert(!same_name(t0.attr_name(t0.rec(e).attributes@[j]), t0.attr_name(t0.rec(e).attributes@[i as int])));
                }
                assert(j == i);
            }
            self.set_parent(o, None);
        }
        self.put_attr_entry(e, i, a);
        self.set_parent(a, Some(e));
        let ghost t2 = *self;
        proof {
            match old_attr {
                Some(o) => {
                    assert(t2.nodes() =~= t0.nodes().insert(e.key(), t2.rec(e)).insert(a.key(), t2.rec(a)).insert(o.key(), t2.rec(o)));
                },
                None => {
                    assert(t2.nodes() =~= t0.nodes().insert(e.key(), t2.rec(e)).insert(a.key(), t2.rec(a)));
                },
            }
            assert(t2.rec(e) =~= (NodeContent { attributes: t2.rec(e).attributes, ..t0.rec(e) }));
            assert forall|k: (usize, u64)| #[trigger] t2.nodes().contains_key(k) implies t2.record_wf(k) by {
                assert(t0.nodes().contains_key(k));
                assert(t0.record_wf(k));
                let r0 = t0.nodes()[k];
                let r2 = t2.nodes()[k];
                let nk = t2.node_at(k);
                assert(nk == t0.node_at(k));
                assert forall|j: int| 0 <= j < r2.children@.len() implies #[trigger] t2.child_ok(nk, r2.children@[j]) by {
                    assert(t0.child_ok(nk, r0.children@[j]));
                }
                assert forall|j: int| 0 <= j < r2.attributes@.len() implies #[trigger] t2.attr_ok(nk, r2.attributes@[j]) by {
                    if k == e.key() && j == i {
                    } else {
                        assert(t0.attr_ok(nk, r0.attributes@[j]));
                        if k == e.key() {
                            assert(r0.attributes@[j] != a);
                            if i < n_attrs {
                                assert(r0.attributes@[j] != r0.attributes@[i as int]);
                            }
                        }
                    }
                }
                assert forall|j: int, l: int|
                    0 <= j < r2.attributes@.len() && 0 <= l < r2.attributes@.len() && j != l implies !same_name(
                        #[trigger] t2.attr_name(r2.attributes@[j]),
                        #[trigger] t2.attr_name(r2.attributes@[l]),
                    ) by {
                    if k == e.key() {
                        if j != i && l != i {
                            assert(t0.attr_ok(nk, r0.attributes@[j]));
                            assert(t0.attr_ok(nk, r0.attributes@[l]));
                            assert(r0.attributes@[j] != a);
                            assert(r0.attributes@[l] != a);
                            assert(!same_name(t0.attr_name(r0.attributes@[j]), t0.attr_name(r0.attributes@[l])));
                        } else if j == i {
                            assert(t0.attr_ok(nk, r0.attributes@[l]));
                            assert(r0.attributes@[l] != a);
                            assert(t2.attr_name(r2.attributes@[j]) == qn);
                            if i < n_attrs {
                                assert(t0.attr_ok(nk, r0.attributes@[j]));
                                assert(!same_name(t0.attr_name(r0.attributes@[j]), t0.attr_name(r0.attributes@[l])));
                            } else {
                                assert(!same_name(t0.attr_name(r0.attributes@[l]), qn));
                            }
                        } else {
                            assert(t0.attr_ok(nk, r0.attributes@[j]));
                            assert(r0.attributes@[j] != a);
                            assert(t2.attr_name(r2.attributes@[l]) == qn);
                            if i < n_attrs {
                                assert(t0.attr_ok(nk, r0.attributes@[l]));
                                assert(!same_name(t0.attr_name(r0.attributes@[j]), t0.attr_name(r0.attributes@[l])));
                            } else {
                                assert(!same_name(t0.attr_name(r0.attributes@[j]), qn));
                            }
                        }
                    } else {
                        assert(t0.attr_ok(nk, r0.attributes@[j]));
                        assert(t0.attr_ok(nk, r0.attributes@[l]));
                        assert(!same_name(t0.attr_name(r0.attributes@[j]), t0.attr_name(r0.attributes@[l])));
                    }
                }
                if k == e.key() {
                    assert forall|j: int, l: int| 0 <= j < r2.attributes@.len() && 0 <= l < r2.attributes@.len() && j != l
                        implies r2.attributes@[j] != r2.attributes@[l] by {
                        if j != i && l != i {
                            assert(r0.attributes@[j] != r0.attributes@[l]);
                        } else if j == i {
                            assert(t0.attr_ok(nk, r0.attributes@[l]));
                            assert(r0.attributes@[l] != a);
                        } else {
                            assert(t0.attr_ok(nk, r0.attributes@[j]));
                            assert(r0.attributes@[j] != a);
                        }
                    }
                }
                match r2.parent {
                    Some(g) => {
                        if k == a.key() {
                            assert(t2.rec(e).attributes@[i as int] == a);
                        } else if r2.t == NodeType::Attribute {
                            let j = choose|j: int| 0 <= j < t0.rec(g).attributes@.len() && t0.rec(g).attributes@[j] == nk;
                            if g == e && i < n_attrs && j == i {
                                assert(nk == old_attr.unwrap());
                            }
                            assert(t2.rec(g).attributes@[j] == nk);
                        } else {
                            let j = choose|j: int| 0 <= j < t0.rec(g).children@.len() && t0.rec(g).children@[j] == nk;
                            assert(t2.rec(g).children@[j] == nk);
                        }
                    },
                    None => {},
                }
            }
        }
    }
}


/// Whether `a` is `n`'s parent, or an ancestor of it, within `fuel` steps up.
pub open spec fn is_ancestor(t: Tree, a: Node, n: Node, fuel: nat) -> bool
    decreases fuel,
{
    if fuel == 0 {
        false
    } else {
        match t.rec(n).parent {
            Some(p) => p == a || is_ancestor(t, a, p, (fuel - 1) as nat),
            None => false,
        }
    }
}

/// The record `r` with its parent link set to `p`.
pub open spec fn with_parent(r: NodeContent, p: Option<Node>) -> NodeContent {
    NodeContent { parent: p, ..r }
}

/// A collection of trees, each addressed by its position.
pub struct Forest {
    pub(crate) a: Vec<Tree>,
}

impl Forest {
    /// The trees, in order.
    pub closed spec fn trees(self) -> Seq<Tree> {
        self.a@
    }

    /// Every tree is well formed and knows its own position.
    pub open spec fn wf(self) -> bool {
        forall|i: int| 0 <= i < self.trees().len() ==> (#[trigger] self.trees()[i]).wf() && self.trees()[i].index() == i
    }

    /// Whether `n` resolves to a node.
    pub open spec fn valid(self, n: Node) -> bool {
        n.tree < self.trees().len() && self.trees()[n.tree as int].has(n)
    }

    pub open spec fn tree(self, n: Node) -> Tree {
        self.trees()[n.tree as int]
    }

    /// The record of a valid node.
    pub open spec fn rec(self, n: Node) -> NodeContent {
        self.tree(n).rec(n)
    }

    pub fn new() -> (r: Forest)
        ensures
            r.wf(),
            r.trees().len() == 0,
    {
        Forest { a: Vec::new() }
    }

    /// Adds a tree that holds a document node alone; returns its position.
    pub fn plant_tree(&mut self) -> (r: TreeIndex)
        requires
            old(self).wf(),
        ensures
            final(self).wf(),
            r == old(self).trees().len(),
            final(self).trees().len() == old(self).trees().len() + 1,
            final(self).trees().subrange(0, r as int) == old(self).trees(),
            final(self).trees()[r as int].nodes().dom() == set![final(self).trees()[r as int].doc().key()],
    {
        let i = self.a.len();
        self.a.push(Tree::new(i));
        proof {
            assert(self.trees().subrange(0, i as int) =~= old(self).trees());
        }
        i
    }

    /// The number of trees.
    pub fn tree_count(&self) -> (r: usize)
        ensures
            r == self.trees().len(),
    {
        self.a.len()
    }

    /// Adds the tree `t`, made for the next position.
    pub(crate) fn add_tree(&mut self, t: Tree) -> (r: Result<TreeIndex, Error>)
        requires
            old(self).wf(),
            t.wf(),
            t.index() == old(self).trees().len(),
        ensures
            final(self).wf(),
            r == Ok::<TreeIndex, Error>(old(self).trees().len() as usize),
            final(self).trees() == old(self).trees().push(t),
    {
        let i = self.a.len();
        self.a.push(t);
        Ok(i)
    }

    /// The tree at position `i`, if there is one.
    pub fn get_ref(&self, i: TreeIndex) -> (r: Option<&Tree>)
        ensures
            match r {
                Some(t) => i < self.trees().len() && *t == self.trees()[i as int],
                None => i >= self.trees().len(),
            },
    {
        if i < self.a.len() {
            Some(&self.a[i])
        } else {
            None
        }
    }

    /// A mutable borrow of the tree at position `i`, if there is one.
    pub fn get_ref_mut(&mut self, i: TreeIndex) -> (r: Option<&mut Tree>)
        ensures
            match r {
                Some(t) => i < old(self).trees().len() && *t == old(self).trees()[i as int]
                    && final(self).trees() == old(self).trees().update(i as int, *final(t)),
                None => i >= old(self).trees().len() && final(self).trees() == old(self).trees(),
            },
    {
        if i < self.a.len() {
            Some(&mut self.a[i])
        } else {
            None
        }
    }

    /// The record of `n`, if it resolves.
    pub fn content(&self, n: Node) -> (r: Option<&NodeContent>)
        ensures
            match r {
                Some(c) => self.valid(n) && *c == self.rec(n),
                None => !self.valid(n),
            },
    {
        if n.tree < self.a.len() {
            self.a[n.tree].get(n)
        } else {
            None
        }
    }
}

/// An error of the given kind with a fixed message.
fn fail(kind: ErrorKind, msg: &str) -> (r: Error)
    ensures
        r.kind == kind,
{
    Error::new(kind, String::from_str(msg))
}

impl Node {
    /// The type of the node; `Unknown` where the handle does not resolve.
    pub fn node_type(&self, f: &Forest) -> (r: NodeType)
        ensures
            r == if f.valid(*self) { f.rec(*self).t } else { NodeType::Unknown },
    {
        match f.content(*self) {
            Some(c) => c.t,
            None => NodeType::Unknown,
        }
    }

    /// Whether the node is an element.
    pub fn is_element(&self, f: &Forest) -> (r: bool)
        ensures
            r == (f.valid(*self) && f.rec(*self).t == NodeType::Element),
    {
        self.node_type(f) == NodeType::Element
    }

    /// The name of the node; an empty local name where it has none.
    pub fn to_name(&self, f: &Forest) -> (r: QualifiedName)
        ensures
            f.valid(*self) && f.rec(*self).name.is_some() ==> r == f.rec(*self).name.unwrap(),
            !(f.valid(*self) && f.rec(*self).name.is_some()) ==> r.nsuri.is_none() && r.prefix.is_none()
                && r.localname@.len() == 0,
    {
        match f.content(*self) {
            Some(c) => match &c.name {
                Some(n) => n.clone_name(),
                None => QualifiedName::new(None, None, String::new()),
            },
            None => QualifiedName::new(None, None, String::new()),
        }
    }

}

impl Tree {
    /// Whether `a` is `n`'s parent or an ancestor of it.
    fn ancestor_of(&self, a: Node, n: Node) -> (r: bool)
        requires
            self.wf(),
            self.has(n),
        ensures
            r == is_ancestor(*self, a, n, self.nodes().len()),
    {
        let fuel = self.node_count();
        let mut cur = n;
        let mut k: usize = fuel;
        while k > 0
            invariant
                self.wf(),
                self.has(cur),
                fuel == self.nodes().len(),
                is_ancestor(*self, a, n, fuel as nat) == is_ancestor(*self, a, cur, k as nat),
            decreases k,
        {
            proof {
                assert(self.nodes().contains_key(cur.key()));
                assert(self.record_wf(cur.key()));
                assert(is_ancestor(*self, a, cur, k as nat) == match self.rec(cur).parent {
                    Some(p) => p == a || is_ancestor(*self, a, p, (k - 1) as nat),
                    None => false,
                });
            }
            match self.get(cur).unwrap().parent {
                Some(p) => {
                    if p == a {
                        return true;
                    }
                    cur = p;
                    k = k - 1;
                },
                None => {
                    return false;
                },
            }
        }
        proof {
            assert(!is_ancestor(*self, a, cur, 0));
        }
        false
    }
}

/// `f1` differs from `f0` only in tree `t`, and there only in the records of
/// the nodes in `ns`.
pub open spec fn same_elsewhere(f1: Forest, f0: Forest, t: TreeIndex, ns: Set<Node>) -> bool {
    &&& f1.trees().len() == f0.trees().len()
    &&& forall|i: int| 0 <= i < f0.trees().len() && i != t ==> f1.trees()[i] == f0.trees()[i]
    &&& forall|m: Node| #[trigger] f1.valid(m) <==> f0.valid(m)
    &&& forall|m: Node| f0.valid(m) && m.tree == t && !ns.contains(m) ==> #[trigger] f1.rec(m) == f0.rec(m)
}

/// Why `c` cannot be appended to the children of `p`, if it cannot.
pub open spec fn append_error(f: Forest, p: Node, c: Node) -> Option<ErrorKind> {
    if !f.valid(p) || !f.valid(c) {
        Some(ErrorKind::NotFound)
    } else if f.rec(p).t != NodeType::Element {
        Some(ErrorKind::TypeError)
    } else if f.rec(c).t == NodeType::Attribute || f.rec(c).t == NodeType::Document {
        Some(ErrorKind::TypeError)
    } else if c.tree == p.tree && (c == p || is_ancestor(f.tree(p), c, p, f.tree(p).nodes().len())) {
        Some(ErrorKind::TypeError)
    } else {
        None
    }
}

/// The outcome of placing at position `i` of the children of `p` a copy of
/// the subtree of `c`, a node of another tree: the copy is a node new to
/// the tree of `p` whose subtree reproduces that of `c` (kinds, names,
/// values, attributes and children, at every level); the tree of `c` and
/// every node of the tree of `p` but `p` stay as they were.
pub open spec fn copied_child(f1: Forest, f0: Forest, p: Node, i: int, c: Node) -> bool {
    exists|c2: Node| #[trigger] copied_child_as(f1, f0, p, i, c, c2)
}

/// `copied_child`, with `c2` the copy.
pub open spec fn copied_child_as(f1: Forest, f0: Forest, p: Node, i: int, c: Node, c2: Node) -> bool {
    &&& !f0.valid(c2)
    &&& f1.valid(c2)
    &&& c2.tree == p.tree
    &&& f1.rec(c2).t == f0.rec(c).t
    &&& f1.rec(c2).name == f0.rec(c).name
    &&& f1.rec(c2).v == f0.rec(c).v
    &&& f1.rec(c2).parent == Some(p)
    &&& f1.rec(p).children@ == f0.rec(p).children@.insert(i, c2)
    &&& f1.rec(p) == (NodeContent { children: f1.rec(p).children, ..f0.rec(p) })
    &&& f1.trees().len() == f0.trees().len()
    &&& forall|j: int| 0 <= j < f0.trees().len() && j != p.tree ==> f1.trees()[j] == f0.trees()[j]
    &&& forall|m: Node| f0.valid(m) && m != p ==> #[trigger] f1.valid(m) && f1.rec(m) == f0.rec(m)
    &&& mirrors(f1, c2, f0.trees()[c.tree as int], c, f0.trees()[c.tree as int].nodes().len(), f0)
}

/// The children of `p` once `c` has left them (where it was among them).
pub open spec fn children_without(f: Forest, p: Node, c: Node) -> Seq<Node> {
    if f.rec(c).parent == Some(p) {
        f.rec(p).children@.remove_value(c)
    } else {
        f.rec(p).children@
    }
}

/// The outcome of moving `c` to position `i` of the children of `p`, where
/// `i` counts in the children once `c` has left them.
pub open spec fn moved_child(f1: Forest, f0: Forest, p: Node, i: int, c: Node) -> bool {
    let q = f0.rec(c).parent;
    &&& f1.wf()
    &&& same_elsewhere(f1, f0, p.tree, set![p, c].union(match q { Some(g) => set![g], None => Set::empty() }))
    &&& f1.rec(c) == with_parent(f0.rec(c), Some(p))
    &&& f1.rec(p).children@ == children_without(f0, p, c).insert(i, c)
    &&& f1.rec(p) == (NodeContent { children: f1.rec(p).children, ..f0.rec(p) })
    &&& match q {
        Some(g) => g != p ==> f1.rec(g) == (NodeContent {
            children: f1.rec(g).children,
            ..f0.rec(g)
        }) && f1.rec(g).children@ == f0.rec(g).children@.remove_value(c),
        None => true,
    }
}

/// `c` may become a child of `p`: both resolve in one tree, `p` may have
/// children, `c` is neither an attribute nor a document, and `c` is not `p`
/// or an ancestor of it.
pub open spec fn movable(f: Forest, p: Node, c: Node) -> bool {
    &&& f.valid(p)
    &&& f.valid(c)
    &&& can_have_children(f.rec(p).t)
    &&& f.rec(c).t != NodeType::Attribute
    &&& f.rec(c).t != NodeType::Document
    &&& c.tree == p.tree
    &&& c != p
    &&& !is_ancestor(f.tree(p), c, p, f.tree(p).nodes().len())
}

impl Forest {
    /// Moves `c` (detaching it first where it is attached) to position `i` of
    /// the children of `p`, counted once `c` has left them.
    fn move_child(&mut self, p: Node, i: usize, c: Node)
        requires
            old(self).wf(),
            movable(*old(self), p, c),
            i <= children_without(*old(self), p, c).len(),
        ensures
            moved_child(*final(self), *old(self), p, i as int, c),
    {
        let ghost f0 = *self;
        let ti = p.tree;
        proof {
            assert(f0.trees()[ti as int].wf());
        }
        let t = &mut self.a[ti];
        let ghost t0 = *t;
        let attached = t.get(c).unwrap().parent.is_some();
        if attached {
            t.unlink(c);
        }
        let ghost t1 = *t;
        proof {
            if attached {
                let q = t0.rec(c).parent.unwrap();
                if q == p {
                    assert(t1.rec(p).children@ == children_without(f0, p, c));
                } else {
                    assert(t1.rec(p) == t0.rec(p));
                }
            } else {
                assert(t1 == t0);
            }
        }
        t.link_child(p, i, c);
        let ghost t2 = *t;
        proof {
            assert(self.trees() == f0.trees().update(ti as int, t2));
            assert forall|j: int| 0 <= j < self.trees().len() implies (#[trigger] self.trees()[j]).wf()
                && self.trees()[j].index() == j by {
                if j != ti {
                    assert(f0.trees()[j].wf());
                }
            }
            let q = f0.rec(c).parent;
            let ns = set![p, c].union(match q { Some(g) => set![g], None => Set::empty() });
            assert forall|m: Node| f0.valid(m) && m.tree == ti && !ns.contains(m) implies #[trigger] self.rec(m) == f0.rec(m) by {
                assert(m != p && m != c);
                if attached {
                    assert(m != q.unwrap());
                }
            }
            assert forall|m: Node| #[trigger] self.valid(m) <==> f0.valid(m) by {
                if m.tree == ti {
                    assert(t2.nodes().dom() == t0.nodes().dom());
                }
            }
        }
    }
}

impl Node {
    /// Appends `c` to the children of this element. A node attached
    /// elsewhere is detached first.
    pub fn append_child(&self, f: &mut Forest, c: Node) -> (r: Result<(), Error>)
        requires
            old(f).wf(),
        ensures
            final(f).wf(),
            match append_error(*old(f), *self, c) {
                None => r is Ok && if c.tree == self.tree {
                    moved_child(*final(f), *old(f), *self, children_without(*old(f), *self, c).len() as int, c)
                } else {
                    copied_child(*final(f), *old(f), *self, old(f).rec(*self).children@.len() as int, c)
                },
                Some(k) => r matches Err(e) && e.kind == k && *final(f) == *old(f),
            },
    {
        match Self::check_append(f, *self, c) {
            Some(e) => Err(e),
            None => {
                if c.tree != self.tree {
                    let n = f.a[self.tree].get(*self).unwrap().children.len();
                    f.copy_into(c, *self, n);
                    return Ok(());
                }
                let n = f.a[self.tree].get(*self).unwrap().children.len();
                proof {
                    let t = old(f).tree(*self);
                    if old(f).rec(c).parent == Some(*self) {
                        old(f).rec(*self).children@.index_of_first_ensures(c);
                        assert(t.nodes().contains_key(c.key()));
                        assert(t.record_wf(c.key()));
                        assert(t.node_at(c.key()) == c);
                    }
                }
                let k: usize = if f.a[self.tree].get(c).unwrap().parent == Some(*self) { n - 1 } else { n };
                f.move_child(*self, k, c);
                Ok(())
            },
        }
    }

    /// The error `append_error` names, if any.
    fn check_append(f: &Forest, p: Node, c: Node) -> (r: Option<Error>)
        requires
            f.wf(),
        ensures
            match append_error(*f, p, c) {
                None => r.is_none(),
                Some(k) => r matches Some(e) && e.kind == k,
            },
    {
        if f.content(p).is_none() || f.content(c).is_none() {
            return Some(fail(ErrorKind::NotFound, "node not found"));
        }
        if p.node_type(f) != NodeType::Element {
            return Some(fail(ErrorKind::TypeError, "must be an element"));
        }
        let ct = c.node_type(f);
        if ct == NodeType::Attribute || ct == NodeType::Document {
            return Some(fail(ErrorKind::TypeError, "cannot append an attribute or a document as a child"));
        }
        if c.tree != p.tree {
            return None;
        }
        proof {
            assert(f.trees()[p.tree as int].wf());
        }
        if c == p || f.a[p.tree].ancestor_of(c, p) {
            return Some(fail(ErrorKind::TypeError, "a node cannot become its own descendant"));
        }
        None
    }
}


/// Why `n` cannot be removed from its parent, if it cannot.
pub open spec fn remove_error(f: Forest, n: Node) -> Option<ErrorKind> {
    if !f.valid(n) || f.rec(n).parent.is_none() {
        Some(ErrorKind::NotFound)
    } else {
        None
    }
}

/// The outcome of detaching `n` from its parent.
pub open spec fn detached(f1: Forest, f0: Forest, n: Node) -> bool {
    let q = f0.rec(n).parent.unwrap();
    &&& f1.wf()
    &&& same_elsewhere(f1, f0, n.tree, set![n, q])
    &&& f1.rec(n) == with_parent(f0.rec(n), None)
    &&& q != n
    &&& if f0.rec(n).t == NodeType::Attribute {
        &&& f1.rec(q) == (NodeContent { attributes: f1.rec(q).attributes, ..f0.rec(q) })
        &&& f1.rec(q).attributes@ == f0.rec(q).attributes@.remove_value(n)
    } else {
        &&& f1.rec(q) == (NodeContent { children: f1.rec(q).children, ..f0.rec(q) })
        &&& f1.rec(q).children@ == f0.rec(q).children@.remove_value(n)
    }
}

impl Forest {
    /// Detaches the attached node `n`.
    fn detach(&mut self, n: Node)
        requires
            old(self).wf(),
            remove_error(*old(self), n).is_none(),
        ensures
            detached(*final(self), *old(self), n),
    {
        let ghost f0 = *self;
        let ti = n.tree;
        proof {
            assert(f0.trees()[ti as int].wf());
        }
        let t = &mut self.a[ti];
        let ghost t0 = *t;
        t.unlink(n);
        let ghost t2 = *t;
        proof {
            assert(self.trees() == f0.trees().update(ti as int, t2));
            assert forall|j: int| 0 <= j < self.trees().len() implies (#[trigger] self.trees()[j]).wf()
                && self.trees()[j].index() == j by {
                if j != ti {
                    assert(f0.trees()[j].wf());
                }
            }
            assert forall|m: Node| #[trigger] self.valid(m) <==> f0.valid(m) by {
                if m.tree == ti {
                    assert(t2.nodes().dom() == t0.nodes().dom());
                }
            }
        }
    }
}

impl Node {
    /// Detaches the node from its parent; its subtree stays with it.
    pub fn remove(&self, f: &mut Forest) -> (r: Result<(), Error>)
        requires
            old(f).wf(),
        ensures
            final(f).wf(),
            match remove_error(*old(f), *self) {
                None => r is Ok && detached(*final(f), *old(f), *self),
                Some(k) => r matches Err(e) && e.kind == k && *final(f) == *old(f),
            },
    {
        match f.content(*self) {
            None => Err(fail(ErrorKind::NotFound, "node not found")),
            Some(c) => if c.parent.is_none() {
                Err(fail(ErrorKind::NotFound, "node has no parent"))
            } else {
                f.detach(*self);
                Ok(())
            },
        }
    }

    /// Inserts `s` into the children of this node's parent, just before this
    /// node. A node attached elsewhere is detached first.
    pub fn insert_before(&self, f: &mut Forest, s: Node) -> (r: Result<(), Error>)
        requires
            old(f).wf(),
        ensures
            final(f).wf(),
            match insert_error(*old(f), *self, s) {
                None => r is Ok && (s.tree == self.tree ==> exists|i: int|
                    0 <= i < children_without(*old(f), old(f).rec(*self).parent.unwrap(), s).len()
                    && children_without(*old(f), old(f).rec(*self).parent.unwrap(), s)[i] == *self
                    && #[trigger] moved_child(*final(f), *old(f), old(f).rec(*self).parent.unwrap(), i, s))
                    && (s.tree != self.tree ==> exists|i: int|
                    0 <= i < old(f).rec(old(f).rec(*self).parent.unwrap()).children@.len()
                    && old(f).rec(old(f).rec(*self).parent.unwrap()).children@[i] == *self
                    && #[trigger] copied_child(*final(f), *old(f), old(f).rec(*self).parent.unwrap(), i, s)),
                Some(k) => r matches Err(e) && e.kind == k && *final(f) == *old(f),
            },
    {
        if f.content(*self).is_none() || f.content(s).is_none() {
            return Err(fail(ErrorKind::NotFound, "node not found"));
        }
        let q = match f.content(*self).unwrap().parent {
            Some(q) => q,
            None => {
                return Err(fail(ErrorKind::NotFound, "node has no parent"));
            },
        };
        let st = s.node_type(f);
        if st == NodeType::Attribute || st == NodeType::Document || s == *self
            || self.node_type(f) == NodeType::Attribute {
            return Err(fail(ErrorKind::TypeError, "cannot insert that node here"));
        }
        proof {
            let t = old(f).tree(*self);
            assert(old(f).trees()[self.tree as int].wf());
            assert(t.nodes().contains_key(self.key()));
            assert(t.record_wf(self.key()));
            assert(t.node_at(self.key()) == *self);
            assert(t.nodes().contains_key(q.key()));
            assert(t.record_wf(q.key()));
        }
        if s.tree != self.tree {
            proof {
                lemma_record(*f, *self);
                lemma_record(*f, q);
            }
            let i0 = Tree::position_of(&f.a[q.tree].get(q).unwrap().children, *self);
            f.copy_into(s, q, i0);
            return Ok(());
        }
        if s == q || f.a[q.tree].ancestor_of(s, q) {
            return Err(fail(ErrorKind::TypeError, "a node cannot become its own descendant"));
        }
        let ghost f0 = *f;
        let ghost base = children_without(f0, q, s);
        let children = &f.a[q.tree].get(q).unwrap().children;
        proof {
            let t = f0.tree(q);
            assert(t.node_at(q.key()) == q);
            if f0.rec(s).parent == Some(q) {
                f0.rec(q).children@.index_of_first_ensures(s);
            }
        }
        proof {
            assert(f0.rec(q).children@.contains(*self));
        }
        let i0 = Tree::position_of(children, *self);
        let s_here = f.a[q.tree].get(s).unwrap().parent == Some(q);
        let mut i: usize = i0;
        if s_here {
            proof {
                let t = f0.tree(q);
                assert(t.nodes().contains_key(s.key()));
                assert(t.record_wf(s.key()));
                assert(t.node_at(s.key()) == s);
            }
            let is = Tree::position_of(children, s);
            proof {
                let cs = f0.rec(q).children@;
                assert(cs.index_of_first(s) == Some(is as int));
                assert(base == cs.remove(is as int));
            }
            if is < i0 {
                i = i0 - 1;
            }
        }
        proof {
            assert(base[i as int] == *self);
        }
        f.move_child(q, i, s);
        Ok(())
    }
}

/// Why `s` cannot be inserted before `n`, if it cannot.
pub open spec fn insert_error(f: Forest, n: Node, s: Node) -> Option<ErrorKind> {
    if !f.valid(n) || !f.valid(s) || f.rec(n).parent.is_none() {
        Some(ErrorKind::NotFound)
    } else if f.rec(s).t == NodeType::Attribute || f.rec(s).t == NodeType::Document || s == n
        || f.rec(n).t == NodeType::Attribute {
        Some(ErrorKind::TypeError)
    } else if s.tree == n.tree && (s == f.rec(n).parent.unwrap()
        || is_ancestor(f.tree(n), s, f.rec(n).parent.unwrap(), f.tree(n).nodes().len())) {
        Some(ErrorKind::TypeError)
    } else {
        None
    }
}


/// Why `a` cannot be added to the attributes of `e`, if it cannot.
pub open spec fn attribute_error(f: Forest, e: Node, a: Node) -> Option<ErrorKind> {
    if !f.valid(e) || !f.valid(a) {
        Some(ErrorKind::NotFound)
    } else if f.rec(e).t != NodeType::Element || f.rec(a).t != NodeType::Attribute {
        Some(ErrorKind::TypeError)
    } else {
        None
    }
}

/// The outcome of making `a` an attribute of `e`, both of one tree: an
/// attribute of `e` with the same name gives way to `a`, the others stay.
pub open spec fn attribute_added(f1: Forest, f0: Forest, e: Node, a: Node) -> bool {
    let qn = f0.tree(e).attr_name(a);
    let q = f0.rec(a).parent;
    &&& f1.wf()
    &&& same_elsewhere(f1, f0, e.tree, set![e, a].union(
        match q { Some(g) => set![g], None => Set::empty() }).union(f0.rec(e).attributes@.to_set()))
    &&& f1.rec(a) == with_parent(f0.rec(a), Some(e))
    &&& f1.rec(e) == (NodeContent { attributes: f1.rec(e).attributes, ..f0.rec(e) })
    &&& f1.rec(e).attributes@.contains(a)
    &&& forall|x: Node| #[trigger] f1.rec(e).attributes@.contains(x) && x != a
        ==> f0.rec(e).attributes@.contains(x) && !same_name(f0.tree(e).attr_name(x), qn)
    &&& forall|x: Node| #[trigger] f0.rec(e).attributes@.contains(x) && x != a
        ==> if same_name(f0.tree(e).attr_name(x), qn) {
            f1.rec(x) == with_parent(f0.rec(x), None)
        } else {
            f1.rec(e).attributes@.contains(x) && f1.rec(x) == f0.rec(x)
        }
    &&& match q {
        Some(g) => g != e ==> f1.rec(g) == (NodeContent {
            attributes: f1.rec(g).attributes,
            ..f0.rec(g)
        }) && f1.rec(g).attributes@ == f0.rec(g).attributes@.remove_value(a),
        None => true,
    }
}

/// The outcome of adding to `e` a copy `c` of the attribute `a` of another
/// tree: `c` is new, with the name and value of `a`; an attribute of `e`
/// with that name gives way, the other attributes of `e` stay, and every
/// other node keeps its record.
pub open spec fn attribute_copied_as(f1: Forest, f0: Forest, e: Node, a: Node, c: Node) -> bool {
    let qn = f0.rec(a).name.unwrap();
    &&& f1.wf()
    &&& !f0.valid(c)
    &&& f1.valid(c)
    &&& c.tree == e.tree
    &&& f1.rec(c).t == NodeType::Attribute
    &&& f1.rec(c).name == f0.rec(a).name
    &&& f1.rec(c).v == f0.rec(a).v
    &&& f1.rec(c).parent == Some(e)
    &&& f1.rec(e) == (NodeContent { attributes: f1.rec(e).attributes, ..f0.rec(e) })
    &&& f1.rec(e).attributes@.contains(c)
    &&& forall|x: Node| #[trigger] f1.rec(e).attributes@.contains(x) && x != c
        ==> f0.rec(e).attributes@.contains(x) && !same_name(f0.rec(x).name.unwrap(), qn)
    &&& forall|x: Node| #[trigger] f0.rec(e).attributes@.contains(x)
        ==> if same_name(f0.rec(x).name.unwrap(), qn) {
            f1.rec(x) == with_parent(f0.rec(x), None)
        } else {
            f1.rec(e).attributes@.contains(x) && f1.rec(x) == f0.rec(x)
        }
    &&& forall|m: Node| f0.valid(m) && m != e && !f0.rec(e).attributes@.contains(m)
        ==> #[trigger] f1.valid(m) && f1.rec(m) == f0.rec(m)
    &&& forall|m: Node| #[trigger] f1.valid(m) ==> f0.valid(m) || m == c
}

impl Forest {
    /// Makes `a` an attribute of `e`, detaching it first where it is attached.
    fn attach_attribute(&mut self, e: Node, a: Node)
        requires
            old(self).wf(),
            attribute_error(*old(self), e, a).is_none(),
            a.tree == e.tree,
        ensures
            attribute_added(*final(self), *old(self), e, a),
    {
        let ghost f0 = *self;
        let ti = e.tree;
        proof {
            assert(f0.trees()[ti as int].wf());
        }
        let t = &mut self.a[ti];
        let ghost t0 = *t;
        let attached = t.get(a).unwrap().parent.is_some();
        if attached {
            t.unlink(a);
        }
        let ghost t1 = *t;
        proof {
            assert(t0.nodes().contains_key(a.key()));
            assert(t0.record_wf(a.key()));
            assert(t0.nodes().contains_key(e.key()));
            assert(t0.record_wf(e.key()));
            assert(t0.node_at(e.key()) == e);
            assert(t1.attr_name(a) == t0.attr_name(a));
        }
        t.link_attribute(e, a);
        let ghost t2 = *t;
        proof {
            let qn = t0.attr_name(a);
            let s0 = t0.rec(e).attributes@;
            let s1 = t1.rec(e).attributes@;
            let s2 = t2.rec(e).attributes@;
            let q = t0.rec(a).parent;
            if attached && q == Some(e) {
                s0.index_of_first_ensures(a);
                let ia = s0.index_of_first(a).unwrap();
                assert(s1 == s0.remove(ia));
                assert forall|x: Node| s1.contains(x) implies s0.contains(x) && x != a by {
                    let j = choose|j: int| 0 <= j < s1.len() && s1[j] == x;
                    if j < ia {
                        assert(s0[j] == x);
                    } else {
                        assert(s0[j + 1] == x);
                    }
                    assert(t0.attr_ok(e, s0[ia]));
                }
                assert forall|x: Node| s0.contains(x) && x != a implies s1.contains(x) by {
                    let j = choose|j: int| 0 <= j < s0.len() && s0[j] == x;
                    if j < ia {
                        assert(s1[j] == x);
                    } else {
                        assert(j != ia);
                        assert(s1[j - 1] == x);
                    }
                }
            } else {
                assert(s1 == s0);
                assert forall|x: Node| s0.contains(x) implies x != a by {
                    let j = choose|j: int| 0 <= j < s0.len() && s0[j] == x;
                    assert(t0.attr_ok(e, s0[j]));
                }
            }
            assert forall|x: Node| s1.contains(x) implies t1.attr_name(x) == t0.attr_name(x) && t1.has(x) by {
                let j = choose|j: int| 0 <= j < s1.len() && s1[j] == x;
                assert(t1.nodes().contains_key(e.key()));
                assert(t1.record_wf(e.key()));
                assert(t1.node_at(e.key()) == e);
                assert(t1.attr_ok(e, s1[j]));
            }
            if t1.has_attr_named(e, qn) {
                let jo = t1.attr_pos(e, qn);
                let o = s1[jo];
                assert(s1.contains(o));
                assert(s2 == s1.update(jo, a));
                assert forall|x: Node| s2.contains(x) && x != a implies s1.contains(x) && !same_name(t0.attr_name(x), qn) by {
                    let j = choose|j: int| 0 <= j < s2.len() && s2[j] == x;
                    assert(j != jo);
                    assert(s1[j] == x);
                    assert(t1.record_wf(e.key()));
                    assert(t1.node_at(e.key()) == e);
                    assert(!same_name(t1.attr_name(s1[j]), t1.attr_name(s1[jo])));
                }
                assert forall|x: Node| s1.contains(x) && x != a && !same_name(t0.attr_name(x), qn) implies s2.contains(x) by {
                    let j = choose|j: int| 0 <= j < s1.len() && s1[j] == x;
                    assert(j != jo);
                    assert(s2[j] == x);
                }
                assert forall|x: Node| s1.contains(x) && x != a && same_name(t0.attr_name(x), qn) implies x == o by {
                    let j = choose|j: int| 0 <= j < s1.len() && s1[j] == x;
                    assert(t1.record_wf(e.key()));
                    assert(t1.node_at(e.key()) == e);
                    if j != jo {
                        assert(!same_name(t1.attr_name(s1[j]), t1.attr_name(s1[jo])));
                    }
                }
                assert(s2[jo] == a);
            } else {
                assert(s2 == s1.push(a));
                assert(s2[s1.len() as int] == a);
                assert forall|x: Node| s2.contains(x) && x != a implies s1.contains(x) && !same_name(t0.attr_name(x), qn) by {
                    let j = choose|j: int| 0 <= j < s2.len() && s2[j] == x;
                    assert(s1[j] == x);
                }
                assert forall|x: Node| s1.contains(x) implies s2.contains(x) by {
                    let j = choose|j: int| 0 <= j < s1.len() && s1[j] == x;
                    assert(s2[j] == x);
                }
            }
            assert forall|x: Node| #[trigger] s0.contains(x) && x != a implies (if same_name(t0.attr_name(x), qn) {
                t2.rec(x) == with_parent(t0.rec(x), None)
            } else {
                s2.contains(x) && t2.rec(x) == t0.rec(x)
            }) by {
                let j = choose|j: int| 0 <= j < s0.len() && s0[j] == x;
                assert(t0.attr_ok(e, s0[j]));
                assert(s1.contains(x));
                assert(x != e);
                if attached {
                    let g = q.unwrap();
                    assert(t0.nodes().contains_key(g.key()));
                    assert(t0.record_wf(g.key()));
                    assert(x != g);
                }
                assert(t1.rec(x) == t0.rec(x));
                if t1.has_attr_named(e, qn) {
                    let jo = t1.attr_pos(e, qn);
                    if !same_name(t0.attr_name(x), qn) {
                        assert(x != s1[jo]);
                    }
                }
            }
            assert(self.trees() == f0.trees().update(ti as int, t2));
            assert forall|j: int| 0 <= j < self.trees().len() implies (#[trigger] self.trees()[j]).wf()
                && self.trees()[j].index() == j by {
                if j != ti {
                    assert(f0.trees()[j].wf());
                }
            }
            assert forall|m: Node| #[trigger] self.valid(m) <==> f0.valid(m) by {
                if m.tree == ti {
                    assert(t2.nodes().dom() == t0.nodes().dom());
                }
            }
            if attached {
                let g = q.unwrap();
                if g != e {
                    assert(t0.nodes().contains_key(g.key()));
                    assert(t0.record_wf(g.key()));
                    if t1.has_attr_named(e, qn) {
                        let jo = t1.attr_pos(e, qn);
                        assert(t1.nodes().contains_key(e.key()));
                        assert(t1.record_wf(e.key()));
                        assert(t1.node_at(e.key()) == e);
                        assert(t1.attr_ok(e, s1[jo]));
                        assert(s1[jo] != g);
                    }
                    assert(t2.rec(g) == t1.rec(g));
                }
            }
        }
    }
}

impl Node {
    /// Makes `a` an attribute of this element. An attribute of the element
    /// with the same name is detached: names are unique among an element's
    /// attributes. An attribute of another tree is copied into this one.
    pub fn add_attribute(&self, f: &mut Forest, a: Node) -> (r: Result<(), Error>)
        requires
            old(f).wf(),
        ensures
            final(f).wf(),
            match attribute_error(*old(f), *self, a) {
                None => r is Ok && if a.tree == self.tree {
                    attribute_added(*final(f), *old(f), *self, a)
                } else {
                    exists|c: Node| #[trigger] attribute_copied_as(*final(f), *old(f), *self, a, c)
                },
                Some(k) => r matches Err(e) && e.kind == k && *final(f) == *old(f),
            },
    {
        if f.content(*self).is_none() || f.content(a).is_none() {
            return Err(fail(ErrorKind::NotFound, "node not found"));
        }
        if self.node_type(f) != NodeType::Element || a.node_type(f) != NodeType::Attribute {
            return Err(fail(ErrorKind::TypeError, "an attribute goes on an element"));
        }
        if a.tree == self.tree {
            f.attach_attribute(*self, a);
        } else {
            let (name, v) = match f.content(a) {
                Some(c) => (
                    match &c.name {
                        Some(n) => n.clone_name(),
                        None => QualifiedName::new(None, None, String::new()),
                    },
                    match &c.v {
                        Some(v) => v.clone_value(),
                        None => Value::Boolean(false),
                    },
                ),
                None => (QualifiedName::new(None, None, String::new()), Value::Boolean(false)),
            };
            proof {
                let t = old(f).tree(a);
                assert(old(f).trees()[a.tree as int].wf());
                assert(t.nodes().contains_key(a.key()));
                assert(t.record_wf(a.key()));
            }
            let c = f.new_node_in(self.tree, NodeContent {
                t: NodeType::Attribute,
                name: Some(name),
                v: Some(v),
                parent: None,
                attributes: Vec::new(),
                children: Vec::new(),
            });
            let ghost f1 = *f;
            f.attach_attribute(*self, c);
            proof {
                let f0 = *old(f);
                let f2 = *f;
                assert(f1.rec(c).name == f0.rec(a).name);
                assert(f2.valid(c));
                assert(f2.rec(c) == with_parent(f1.rec(c), Some(*self)));
                assert(f1.valid(*self));
                assert(f1.rec(*self) == f0.rec(*self));
                lemma_record(f0, *self);
                assert forall|x: Node| #[trigger] f0.rec(*self).attributes@.contains(x) implies f1.rec(x) == f0.rec(x)
                    && f1.tree(*self).attr_name(x) == f0.rec(x).name.unwrap() && x != c by {
                    let j = choose|j: int| 0 <= j < f0.rec(*self).attributes@.len() && f0.rec(*self).attributes@[j] == x;
                    assert(f0.valid(f0.rec(*self).attributes@[j]));
                    assert(f1.valid(x));
                }
                assert forall|m: Node| f0.valid(m) && m != *self && !f0.rec(*self).attributes@.contains(m)
                    implies #[trigger] f2.valid(m) && f2.rec(m) == f0.rec(m) by {
                    assert(f1.valid(m));
                    assert(m != c);
                    assert(m.tree == self.tree ==> !set![*self, c].union(Set::<Node>::empty()).union(
                        f1.rec(*self).attributes@.to_set()).contains(m));
                }
                assert forall|m: Node| #[trigger] f2.valid(m) implies f0.valid(m) || m == c by {
                    assert(f1.valid(m));
                }
                assert(attribute_copied_as(f2, f0, *self, a, c));
            }
        }
        Ok(())
    }
}

impl Forest {
    /// Stores a new detached record in tree `ti`.
    fn new_node_in(&mut self, ti: TreeIndex, content: NodeContent) -> (r: Node)
        requires
            old(self).wf(),
            ti < old(self).trees().len(),
            fresh_content(content),
            content.t != NodeType::Document,
        ensures
            final(self).wf(),
            r.tree == ti,
            !old(self).valid(r),
            final(self).valid(r),
            final(self).rec(r) == content,
            final(self).trees().len() == old(self).trees().len(),
            forall|i: int| 0 <= i < old(self).trees().len() && i != ti ==> final(self).trees()[i] == old(self).trees()[i],
            forall|m: Node| old(self).valid(m) ==> #[trigger] final(self).valid(m) && final(self).rec(m) == old(self).rec(m),
            forall|m: Node| #[trigger] final(self).valid(m) ==> old(self).valid(m) || m == r,
    {
        let ghost f0 = *self;
        proof {
            assert(f0.trees()[ti as int].wf());
        }
        let t = &mut self.a[ti];
        let r = t.new_node(content);
        proof {
            assert forall|j: int| 0 <= j < self.trees().len() implies (#[trigger] self.trees()[j]).wf()
                && self.trees()[j].index() == j by {
                if j != ti {
                    assert(f0.trees()[j].wf());
                }
            }
        }
        r
    }
}


/// `n` is a node new to `t1`, of type `t` with the given name and value,
/// detached and empty; nothing else changed.
pub open spec fn made(t1: Tree, t0: Tree, n: Node, t: NodeType, name: Option<QualifiedName>, v: Option<Value>) -> bool {
    &&& t1.wf()
    &&& t1.index() == t0.index()
    &&& t1.doc_key() == t0.doc_key()
    &&& !t0.has(n)
    &&& t1.has(n)
    &&& t1.nodes() == t0.nodes().insert(n.key(), t1.rec(n))
    &&& t1.rec(n).t == t
    &&& t1.rec(n).name == name
    &&& t1.rec(n).v == v
    &&& t1.rec(n).parent.is_none()
    &&& t1.rec(n).children@.len() == 0
    &&& t1.rec(n).attributes@.len() == 0
    &&& keeps_types(t1, t0)
}

/// Every node of `t0` is a node of `t1`, of the same type.
pub open spec fn keeps_types(t1: Tree, t0: Tree) -> bool {
    forall|m: Node| t0.has(m) ==> #[trigger] t1.has(m) && t1.rec(m).t == t0.rec(m).t
}

/// A node of `t0` is one of `t1`, of the same type, when `t1` keeps types.
#[verifier::spinoff_prover]
pub proof fn lemma_kept(t1: Tree, t0: Tree, m: Node)
    requires
        keeps_types(t1, t0),
        t0.has(m),
    ensures
        t1.has(m),
        t1.rec(m).t == t0.rec(m).t,
{
    assert(t1.has(m) && t1.rec(m).t == t0.rec(m).t);
}

impl Tree {
    /// Appends the detached node `c` to the children of `p`.
    pub(crate) fn append_detached(&mut self, p: Node, c: Node)
        requires
            old(self).wf(),
            old(self).has(p),
            old(self).has(c),
            can_have_children(old(self).rec(p).t),
            old(self).rec(c).t != NodeType::Attribute,
            old(self).rec(c).t != NodeType::Document,
            old(self).rec(c).parent.is_none(),
            c != p,
        ensures
            final(self).wf(),
            final(self).index() == old(self).index(),
            final(self).doc_key() == old(self).doc_key(),
            keeps_types(*final(self), *old(self)),
            final(self).nodes() == old(self).nodes().insert(p.key(), final(self).rec(p)).insert(c.key(), final(self).rec(c)),
            final(self).rec(c) == with_parent(old(self).rec(c), Some(p)),
            final(self).rec(p) == (NodeContent { children: final(self).rec(p).children, ..old(self).rec(p) }),
            final(self).rec(p).children@ == old(self).rec(p).children@.push(c),
    {
        let len = self.get(p).unwrap().children.len();
        self.link_child(p, len, c);
        proof {
            assert(old(self).rec(p).children@.insert(len as int, c) =~= old(self).rec(p).children@.push(c));
        }
    }

    /// Makes the detached attribute `a` an attribute of the element `e`.
    pub(crate) fn attach_detached_attribute(&mut self, e: Node, a: Node)
        requires
            old(self).wf(),
            old(self).has(e),
            old(self).has(a),
            old(self).rec(e).t == NodeType::Element,
            old(self).rec(a).t == NodeType::Attribute,
            old(self).rec(a).parent.is_none(),
        ensures
            final(self).wf(),
            final(self).index() == old(self).index(),
            final(self).doc_key() == old(self).doc_key(),
            keeps_types(*final(self), *old(self)),
            !old(self).has_attr_named(e, old(self).attr_name(a)) ==> {
                &&& final(self).rec(e).attributes@ == old(self).rec(e).attributes@.push(a)
                &&& final(self).rec(e) == (NodeContent { attributes: final(self).rec(e).attributes, ..old(self).rec(e) })
                &&& final(self).rec(a) == with_parent(old(self).rec(a), Some(e))
                &&& final(self).nodes() == old(self).nodes().insert(e.key(), final(self).rec(e)).insert(a.key(), final(self).rec(a))
            },
    {
        let ghost t0 = *self;
        self.link_attribute(e, a);
        proof {
            assert forall|m: Node| t0.has(m) implies #[trigger] self.has(m) && self.rec(m).t == t0.rec(m).t by {
                let qn = t0.attr_name(a);
                if t0.has_attr_named(e, qn) {
                    let o = t0.rec(e).attributes@[t0.attr_pos(e, qn)];
                    assert(self.rec(o) == (NodeContent { parent: None, ..t0.rec(o) }));
                }
            }
        }
    }

    /// Whether the element `e` has an attribute named like `qn`.
    pub(crate) fn attr_named(&self, e: Node, qn: &QualifiedName) -> (r: bool)
        requires
            self.wf(),
            self.has(e),
        ensures
            r == self.has_attr_named(e, *qn),
    {
        self.find_attr(e, qn) < self.get(e).unwrap().attributes.len()
    }

    /// The number of children of the document node.
    pub fn doc_children_len(&self) -> (r: usize)
        requires
            self.wf(),
        ensures
            r == self.rec(self.doc()).children@.len(),
    {
        let d = self.get_doc_node();
        self.get(d).unwrap().children.len()
    }
}

impl Tree {
    /// Makes `n` the last child of the document node, detaching it first
    /// where it is attached.
    pub fn push_doc_node(&mut self, n: Node) -> (r: Result<(), Error>)
        requires
            old(self).wf(),
        ensures
            final(self).wf(),
            final(self).index() == old(self).index(),
            final(self).doc_key() == old(self).doc_key(),
            !old(self).has(n) ==> (r matches Err(e) && e.kind == ErrorKind::NotFound && *final(self) == *old(self)),
            old(self).has(n) && (old(self).rec(n).t == NodeType::Attribute || old(self).rec(n).t == NodeType::Document)
                ==> (r matches Err(e) && e.kind == ErrorKind::TypeError && *final(self) == *old(self)),
            old(self).has(n) && old(self).rec(n).t != NodeType::Attribute && old(self).rec(n).t != NodeType::Document
                ==> r is Ok && pushed_to_doc(*final(self), *old(self), n),
    {
        if self.get(n).is_none() {
            return Err(fail(ErrorKind::NotFound, "node not found"));
        }
        let t = self.get(n).unwrap().t;
        if t == NodeType::Attribute || t == NodeType::Document {
            return Err(fail(ErrorKind::TypeError, "cannot add an attribute or a document to the document"));
        }
        let ghost t0 = *self;
        let d = self.get_doc_node();
        proof {
            assert(t0.nodes().contains_key(t0.doc_key()));
            assert(t0.record_wf(t0.doc_key()));
            assert(t0.nodes().contains_key(n.key()));
            assert(t0.record_wf(n.key()));
            assert(t0.node_at(n.key()) == n);
            assert(n != d);
        }
        let attached = self.get(n).unwrap().parent.is_some();
        if attached {
            self.unlink(n);
        }
        let ghost t1 = *self;
        proof {
            if attached {
                let q = t0.rec(n).parent.unwrap();
                if q != d {
                    assert(t1.rec(d) == t0.rec(d));
                }
            } else {
                assert(t1 == t0);
            }
            assert(t1.nodes().contains_key(d.key()));
            assert(t1.record_wf(d.key()));
        }
        let len = self.get(d).unwrap().children.len();
        self.link_child(d, len, n);
        proof {
            let q = t0.rec(n).parent;
            let t2 = *self;
            assert forall|m: Node| t0.has(m) && m != d && m != n && q != Some(m) implies #[trigger] t2.rec(m) == t0.rec(m) by {
                assert(m.key() != n.key());
                assert(m.key() != d.key());
                if attached {
                    assert(m.key() != q.unwrap().key());
                }
            }
            assert(t2.rec(n) == with_parent(t0.rec(n), Some(d)));
            assert(d == t0.doc());
            if attached {
                let g = q.unwrap();
                if g == d {
                    assert(t1.rec(d).children@ == t0.rec(d).children@.remove_value(n));
                } else {
                    assert(t2.rec(g) == t1.rec(g));
                }
            }
            assert(t2.rec(d) == (NodeContent { children: t2.rec(d).children, ..t0.rec(d) }));
            let base = t1.rec(d).children@;
            assert(base.insert(base.len() as int, n) =~= base.push(n));
            assert(t2.nodes().dom() == t0.nodes().dom());
        }
        Ok(())
    }
}

/// The outcome of moving `n` to the end of the children of the document node.
pub open spec fn pushed_to_doc(t1: Tree, t0: Tree, n: Node) -> bool {
    let d = t0.doc();
    let q = t0.rec(n).parent;
    &&& t1.nodes().dom() == t0.nodes().dom()
    &&& t1.rec(n) == with_parent(t0.rec(n), Some(d))
    &&& t1.rec(d).children@ == (if q == Some(d) {
        t0.rec(d).children@.remove_value(n)
    } else {
        t0.rec(d).children@
    }).push(n)
    &&& t1.rec(d) == (NodeContent { children: t1.rec(d).children, ..t0.rec(d) })
    &&& match q {
        Some(g) => g != d ==> t1.rec(g) == (NodeContent { children: t1.rec(g).children, ..t0.rec(g) })
            && t1.rec(g).children@ == t0.rec(g).children@.remove_value(n),
        None => true,
    }
    &&& forall|m: Node| t0.has(m) && m != d && m != n && q != Some(m) ==> #[trigger] t1.rec(m) == t0.rec(m)
}

impl Node {
    /// The attribute of this element with the name `qn`, if there is one.
    pub fn get_attribute(&self, f: &Forest, qn: &QualifiedName) -> (r: Option<Node>)
        requires
            f.wf(),
        ensures
            r == if f.valid(*self) && f.tree(*self).has_attr_named(*self, *qn) {
                Some(f.rec(*self).attributes@[f.tree(*self).attr_pos(*self, *qn)])
            } else {
                None
            },
    {
        if f.content(*self).is_none() {
            return None;
        }
        let t = &f.a[self.tree];
        proof {
            assert(f.trees()[self.tree as int].wf());
            assert(t.nodes().contains_key(self.key()));
            assert(t.record_wf(self.key()));
            assert(t.node_at(self.key()) == *self);
        }
        let i = t.find_attr(*self, qn);
        let attrs = &t.get(*self).unwrap().attributes;
        if i < attrs.len() {
            proof {
                let j = t.attr_pos(*self, *qn);
                if j != i {
                    assert(!same_name(t.attr_name(attrs@[j]), t.attr_name(attrs@[i as int])));
                }
            }
            Some(attrs[i])
        } else {
            None
        }
    }
}

/// What the invariant says of one record: its fields fit its type, its
/// children and attributes resolve and point back to it, and its parent
/// resolves in the same tree.
pub proof fn lemma_record(f: Forest, n: Node)
    requires
        f.wf(),
        f.valid(n),
    ensures
        content_shape(f.rec(n)),
        f.rec(n).children@.no_duplicates(),
        f.rec(n).attributes@.no_duplicates(),
        f.rec(n).parent != Some(n),
        forall|j: int| 0 <= j < f.rec(n).children@.len() ==> {
            let c = #[trigger] f.rec(n).children@[j];
            &&& f.valid(c)
            &&& c.tree == n.tree
            &&& f.rec(c).parent == Some(n)
            &&& f.rec(c).t != NodeType::Attribute
            &&& f.rec(c).t != NodeType::Document
        },
        forall|j: int| 0 <= j < f.rec(n).attributes@.len() ==> {
            let a = #[trigger] f.rec(n).attributes@[j];
            &&& f.valid(a)
            &&& a.tree == n.tree
            &&& f.rec(a).parent == Some(n)
            &&& f.rec(a).t == NodeType::Attribute
        },
        forall|j: int, l: int| 0 <= j < f.rec(n).attributes@.len() && 0 <= l < f.rec(n).attributes@.len() && j != l
            ==> !same_name(#[trigger] f.rec(f.rec(n).attributes@[j]).name.unwrap(),
                #[trigger] f.rec(f.rec(n).attributes@[l]).name.unwrap()),
        match f.rec(n).parent {
            Some(p) => f.valid(p) && p.tree == n.tree && (if f.rec(n).t == NodeType::Attribute {
                f.rec(p).attributes@.contains(n)
            } else {
                f.rec(p).children@.contains(n)
            }),
            None => true,
        },
{
    let t = f.tree(n);
    assert(f.trees()[n.tree as int].wf());
    assert(t.nodes().contains_key(n.key()));
    assert(t.record_wf(n.key()));
    assert(t.node_at(n.key()) == n);
    assert forall|j: int| 0 <= j < f.rec(n).children@.len() implies {
        let c = #[trigger] f.rec(n).children@[j];
        &&& f.valid(c)
        &&& c.tree == n.tree
        &&& f.rec(c).parent == Some(n)
        &&& f.rec(c).t != NodeType::Attribute
        &&& f.rec(c).t != NodeType::Document
    } by {
        let c = f.rec(n).children@[j];
        assert(t.child_ok(n, c));
        assert(t.nodes().contains_key(c.key()));
        assert(t.record_wf(c.key()));
        assert(t.node_at(c.key()) == c);
    }
    assert forall|j: int| 0 <= j < f.rec(n).attributes@.len() implies {
        let a = #[trigger] f.rec(n).attributes@[j];
        &&& f.valid(a)
        &&& a.tree == n.tree
        &&& f.rec(a).parent == Some(n)
        &&& f.rec(a).t == NodeType::Attribute
    } by {
        assert(t.attr_ok(n, f.rec(n).attributes@[j]));
    }
    assert forall|j: int, l: int| 0 <= j < f.rec(n).attributes@.len() && 0 <= l < f.rec(n).attributes@.len() && j != l
        implies !same_name(#[trigger] f.rec(f.rec(n).attributes@[j]).name.unwrap(),
            #[trigger] f.rec(f.rec(n).attributes@[l]).name.unwrap()) by {
        assert(!same_name(t.attr_name(f.rec(n).attributes@[j]), t.attr_name(f.rec(n).attributes@[l])));
    }
}


impl NodeContent {
    /// A detached record of type `t` with no name, value, children or
    /// attributes.
    pub fn new(t: NodeType) -> (r: NodeContent)
        ensures
            r.t == t,
            r.name.is_none(),
            r.v.is_none(),
            r.parent.is_none(),
            r.attributes@.len() == 0,
            r.children@.len() == 0,
    {
        NodeContent { t, name: None, v: None, parent: None, attributes: Vec::new(), children: Vec::new() }
    }

    pub fn node_type(&self) -> (r: NodeType)
        ensures
            r == self.t,
    {
        self.t
    }

    pub fn name(&self) -> (r: &Option<QualifiedName>)
        ensures
            *r == self.name,
    {
        &self.name
    }

    pub fn value(&self) -> (r: &Option<Value>)
        ensures
            *r == self.v,
    {
        &self.v
    }
}

/// Builds a detached record field by field.
pub struct NodeBuilder(pub NodeContent);

impl NodeBuilder {
    pub fn new(t: NodeType) -> (r: NodeBuilder)
        ensures
            r.0.t == t,
            r.0.name.is_none(),
            r.0.v.is_none(),
            r.0.parent.is_none(),
            r.0.attributes@.len() == 0,
            r.0.children@.len() == 0,
    {
        NodeBuilder(NodeContent::new(t))
    }

    /// Sets the name, dropping any earlier one.
    pub fn name(self, qn: QualifiedName) -> (r: NodeBuilder)
        ensures
            r.0 == (NodeContent { name: Some(qn), ..self.0 }),
    {
        let mut b = self;
        b.0.name = Some(qn);
        b
    }

    /// Sets the value, dropping any earlier one.
    pub fn value(self, v: Value) -> (r: NodeBuilder)
        ensures
            r.0 == (NodeContent { v: Some(v), ..self.0 }),
    {
        let mut b = self;
        b.0.v = Some(v);
        b
    }

    pub fn build(self) -> (r: NodeContent)
        ensures
            r == self.0,
    {
        self.0
    }
}


/// Every node of `f0` is a node of `f1` with the same record, and only tree
/// `ti` may have changed.
pub open spec fn grows_only(f1: Forest, f0: Forest, ti: TreeIndex) -> bool {
    &&& f1.trees().len() == f0.trees().len()
    &&& forall|i: int| 0 <= i < f0.trees().len() && i != ti ==> f1.trees()[i] == f0.trees()[i]
    &&& forall|m: Node| f0.valid(m) ==> #[trigger] f1.valid(m) && f1.rec(m) == f0.rec(m)
}

/// A node new to `f1` is no ancestor of a node of `f0` when `f1` keeps the
/// records of `f0`.
proof fn lemma_new_not_ancestor(f0: Forest, f1: Forest, ti: TreeIndex, a: Node, n: Node, fuel: nat)
    requires
        f0.wf(),
        f0.valid(n),
        n.tree == ti,
        !f0.valid(a),
        grows_only(f1, f0, ti),
    ensures
        !is_ancestor(f1.tree(n), a, n, fuel),
    decreases fuel,
{
    if fuel > 0 {
        lemma_record(f0, n);
        assert(f1.valid(n));
        match f1.rec(n).parent {
            Some(p) => {
                lemma_new_not_ancestor(f0, f1, ti, a, p, (fuel - 1) as nat);
            },
            None => {},
        }
    }
}

impl Forest {
    /// Copies the subtree of `c` into tree `ti`, another tree than that of
    /// `c`; returns the detached copy of `c`. At most `fuel` levels are
    /// copied.
    fn copy_subtree(&mut self, c: Node, ti: TreeIndex, fuel: usize) -> (r: Node)
        requires
            old(self).wf(),
            old(self).valid(c),
            ti < old(self).trees().len(),
            c.tree != ti,
            old(self).rec(c).t != NodeType::Attribute,
            old(self).rec(c).t != NodeType::Document,
        ensures
            final(self).wf(),
            grows_only(*final(self), *old(self), ti),
            r.tree == ti,
            !old(self).valid(r),
            final(self).valid(r),
            final(self).rec(r).t == old(self).rec(c).t,
            final(self).rec(r).name == old(self).rec(c).name,
            final(self).rec(r).v == old(self).rec(c).v,
            final(self).rec(r).parent.is_none(),
            mirrors(*final(self), r, old(self).trees()[c.tree as int], c, fuel as nat, *old(self)),
        decreases fuel,
    {
        let ghost f0 = *self;
        let ghost src = f0.trees()[c.tree as int];
        proof {
            lemma_record(f0, c);
        }
        let sr = self.content(c).unwrap();
        let content = NodeContent {
            t: sr.t,
            name: match &sr.name {
                Some(n) => Some(n.clone_name()),
                None => None,
            },
            v: match &sr.v {
                Some(v) => Some(v.clone_value()),
                None => None,
            },
            parent: None,
            attributes: Vec::new(),
            children: Vec::new(),
        };
        let r = self.new_node_in(ti, content);
        let ghost fr = *self;
        let n_attrs = self.content(c).unwrap().attributes.len();
        let mut j: usize = 0;
        while j < n_attrs
            invariant
                self.wf(),
                f0.wf(),
                grows_only(*self, f0, ti),
                ti < self.trees().len(),
                c.tree != ti,
                src == f0.trees()[c.tree as int],
                f0.valid(c),
                self.rec(c) == f0.rec(c),
                n_attrs == f0.rec(c).attributes@.len(),
                j <= n_attrs,
                r.tree == ti,
                !f0.valid(r),
                self.valid(r),
                self.rec(r).t == f0.rec(c).t,
                self.rec(r).name == f0.rec(c).name,
                self.rec(r).v == f0.rec(c).v,
                self.rec(r).parent.is_none(),
                self.rec(r).children@.len() == 0,
                self.rec(r).attributes@.len() == j,
                forall|i: int| 0 <= i < j ==> #[trigger] attr_mirrors(*self, self.rec(r).attributes@[i], src, f0.rec(c).attributes@[i], f0),
                forall|m: Node| #[trigger] fr.valid(m) ==> self.valid(m),
            decreases n_attrs - j,
        {
            let a = self.content(c).unwrap().attributes[j];
            proof {
                lemma_record(f0, c);
                lemma_record(f0, a);
            }
            let ar = self.content(a).unwrap();
            let acontent = NodeContent {
                t: NodeType::Attribute,
                name: match &ar.name {
                    Some(n) => Some(n.clone_name()),
                    None => None,
                },
                v: match &ar.v {
                    Some(v) => Some(v.clone_value()),
                    None => None,
                },
                parent: None,
                attributes: Vec::new(),
                children: Vec::new(),
            };
            let ghost f1 = *self;
            let a2 = self.new_node_in(ti, acontent);
            let ghost f2 = *self;
            proof {
                assert(f1.valid(r));
                assert(f2.valid(r));
                assert(f2.rec(r) == f1.rec(r));
                let ats = f2.rec(r).attributes@;
                let sats = f0.rec(c).attributes@;
                assert(f2.tree(r).attr_name(a2) == f0.rec(a).name.unwrap());
                assert(!f2.tree(r).has_attr_named(r, f2.tree(r).attr_name(a2))) by {
                    if f2.tree(r).has_attr_named(r, f2.tree(r).attr_name(a2)) {
                        let i = choose|i: int| 0 <= i < ats.len()
                            && same_name(#[trigger] f2.tree(r).attr_name(ats[i]), f2.tree(r).attr_name(a2));
                        assert(attr_mirrors(f1, ats[i], src, sats[i], f0));
                        assert(f2.valid(ats[i]));
                        assert(f2.rec(ats[i]) == f1.rec(ats[i]));
                        assert(!same_name(f0.rec(sats[i]).name.unwrap(), f0.rec(sats[j as int]).name.unwrap()));
                    }
                }
            }
            self.append_fresh_attribute(r, a2);
            proof {
                let f3 = *self;
                assert forall|i: int| 0 <= i < j + 1 implies #[trigger] attr_mirrors(f3, f3.rec(r).attributes@[i], src, f0.rec(c).attributes@[i], f0) by {
                    if i < j {
                        let x = f1.rec(r).attributes@[i];
                        assert(attr_mirrors(f1, x, src, f0.rec(c).attributes@[i], f0));
                        assert(f2.valid(x));
                        assert(x != a2);
                        assert(x != r);
                    } else {
                        assert(f3.rec(r).attributes@[i] == a2);
                    }
                }
                assert forall|m: Node| #[trigger] fr.valid(m) implies f3.valid(m) by {
                    assert(f1.valid(m));
                }
                assert forall|m: Node| f0.valid(m) implies #[trigger] f3.valid(m) && f3.rec(m) == f0.rec(m) by {
                    assert(f1.valid(m));
                    assert(m != r && m != a2);
                }
            }
            j = j + 1;
        }
        if fuel == 0 {
            proof {
                assert(mirrors(*self, r, src, c, 0, f0));
            }
            return r;
        }
        let n_kids = self.content(c).unwrap().children.len();
        let mut j: usize = 0;
        proof {
            assert(self.rec(r).children@ =~= Seq::<Node>::empty());
            assert(f0.rec(c).children@.subrange(0, 0) =~= Seq::<Node>::empty());
        }
        while j < n_kids
            invariant
                self.wf(),
                f0.wf(),
                grows_only(*self, f0, ti),
                ti < self.trees().len(),
                c.tree != ti,
                src == f0.trees()[c.tree as int],
                f0.valid(c),
                self.rec(c) == f0.rec(c),
                n_kids == f0.rec(c).children@.len(),
                j <= n_kids,
                r.tree == ti,
                !f0.valid(r),
                fr.valid(r),
                self.valid(r),
                self.rec(r).t == f0.rec(c).t,
                self.rec(r).name == f0.rec(c).name,
                self.rec(r).v == f0.rec(c).v,
                self.rec(r).parent.is_none(),
                self.rec(r).attributes@.len() == f0.rec(c).attributes@.len(),
                forall|i: int| 0 <= i < self.rec(r).attributes@.len() ==> #[trigger] attr_mirrors(*self, self.rec(r).attributes@[i], src, f0.rec(c).attributes@[i], f0),
                forall|m: Node| #[trigger] fr.valid(m) ==> self.valid(m),
                forall|m: Node| #[trigger] f0.valid(m) ==> fr.valid(m),
                kids_mirror(*self, self.rec(r).children@, src, f0.rec(c).children@.subrange(0, j as int), (fuel - 1) as nat, fr),
                fuel > 0,
            decreases n_kids - j,
        {
            let k = self.content(c).unwrap().children[j];
            proof {
                lemma_record(f0, c);
                lemma_record(f0, k);
            }
            let ghost f1 = *self;
            let k2 = self.copy_subtree(k, ti, fuel - 1);
            let ghost f2 = *self;
            let len = self.content(r).unwrap().children.len();
            proof {
                assert(f1.valid(r));
                assert(k2 != r);
                assert(f1.trees()[c.tree as int] == src);
                assert(is_ancestor(f2.tree(r), k2, r, f2.tree(r).nodes().len()) == false);
                assert(children_without(f2, r, k2) == f2.rec(r).children@);
                assert forall|m: Node| #[trigger] fr.valid(m) implies f1.valid(m) by {}
                lemma_mirrors_older(f2, k2, src, k, (fuel - 1) as nat, f1, fr);
                assert(keeps_new(f1, f2, fr));
                lemma_kids_frame(f1, f2, f1.rec(r).children@, src, f0.rec(c).children@.subrange(0, j as int), (fuel - 1) as nat, fr);
            }
            self.move_child(r, len, k2);
            proof {
                let f3 = *self;
                assert(keeps_new(f2, f3, fr)) by {
                    assert forall|m: Node| f2.valid(m) && !fr.valid(m) implies #[trigger] f3.valid(m) && same_but_parent(f3.rec(m), f2.rec(m)) by {
                        assert(m != r);
                    }
                }
                lemma_mirrors_frame(f2, f3, k2, src, k, (fuel - 1) as nat, fr);
                lemma_kids_frame(f2, f3, f2.rec(r).children@, src, f0.rec(c).children@.subrange(0, j as int), (fuel - 1) as nat, fr);
                let xs = f3.rec(r).children@;
                let ys = f0.rec(c).children@.subrange(0, j + 1);
                assert(xs == f2.rec(r).children@.insert(len as int, k2));
                assert(xs.drop_last() =~= f2.rec(r).children@);
                assert(ys.drop_last() =~= f0.rec(c).children@.subrange(0, j as int));
                assert(xs.last() == k2);
                assert(ys.last() == k);
                assert(kids_mirror(f3, xs, src, ys, (fuel - 1) as nat, fr));
                assert forall|m: Node| f0.valid(m) implies #[trigger] f3.valid(m) && f3.rec(m) == f0.rec(m) by {
                    assert(f1.valid(m));
                    assert(f2.valid(m));
                    assert(m != r && m != k2);
                }
                assert forall|m: Node| #[trigger] fr.valid(m) implies f3.valid(m) by {
                    assert(f1.valid(m));
                    assert(f2.valid(m));
                }
                assert forall|i: int| 0 <= i < f3.rec(r).attributes@.len() implies #[trigger] attr_mirrors(f3, f3.rec(r).attributes@[i], src, f0.rec(c).attributes@[i], f0) by {
                    let x = f1.rec(r).attributes@[i];
                    assert(attr_mirrors(f1, x, src, f0.rec(c).attributes@[i], f0));
                    assert(f2.valid(x));
                    assert(x != r);
                    assert(x != k2);
                }
                assert(f3.rec(c) == f0.rec(c));
            }
            j = j + 1;
        }
        proof {
            assert(f0.rec(c).children@.subrange(0, n_kids as int) =~= f0.rec(c).children@);
            lemma_kids_older(*self, self.rec(r).children@, src, f0.rec(c).children@, (fuel - 1) as nat, fr, f0);
            assert(mirrors(*self, r, src, c, fuel as nat, f0));
        }
        r
    }
}


impl Forest {
    /// Places a copy of the subtree of `c`, a node of another tree, at
    /// position `i` of the children of `p`.
    fn copy_into(&mut self, c: Node, p: Node, i: usize) -> (r: Node)
        requires
            old(self).wf(),
            old(self).valid(c),
            old(self).valid(p),
            c.tree != p.tree,
            can_have_children(old(self).rec(p).t),
            old(self).rec(c).t != NodeType::Attribute,
            old(self).rec(c).t != NodeType::Document,
            i <= old(self).rec(p).children@.len(),
        ensures
            final(self).wf(),
            copied_child(*final(self), *old(self), p, i as int, c),
    {
        let ghost f0 = *self;
        let fuel = self.a[c.tree].node_count();
        let c2 = self.copy_subtree(c, p.tree, fuel);
        let ghost f2 = *self;
        proof {
            assert(f2.valid(p));
            assert(f2.rec(p) == f0.rec(p));
            lemma_new_not_ancestor(f0, f2, p.tree, c2, p, f2.tree(p).nodes().len());
            assert(children_without(f2, p, c2) == f2.rec(p).children@);
        }
        self.move_child(p, i, c2);
        proof {
            let f3 = *self;
            assert forall|m: Node| f0.valid(m) && m != p implies #[trigger] f3.valid(m) && f3.rec(m) == f0.rec(m) by {
                assert(f2.valid(m));
                assert(m != c2);
            }
            assert(f3.valid(c2));
            assert(f3.rec(c2) == with_parent(f2.rec(c2), Some(p)));
            assert(f3.rec(c2).t == f0.rec(c).t);
            assert(f3.rec(c2).name == f0.rec(c).name);
            assert(f3.rec(c2).v == f0.rec(c).v);
            assert(f3.rec(c2).parent == Some(p));
            assert(f3.rec(p).children@ == f0.rec(p).children@.insert(i as int, c2));
            assert(f3.rec(p) == (NodeContent { children: f3.rec(p).children, ..f0.rec(p) }));
            assert(f3.trees().len() == f0.trees().len());
            assert forall|j: int| 0 <= j < f0.trees().len() && j != p.tree implies f3.trees()[j] == f0.trees()[j] by {
                assert(f2.trees()[j] == f0.trees()[j]);
            }
            assert(!f0.valid(c2));
            assert(c2.tree == p.tree);
            assert(keeps_new(f2, f3, f0)) by {
                assert forall|m: Node| f2.valid(m) && !f0.valid(m) implies #[trigger] f3.valid(m) && same_but_parent(f3.rec(m), f2.rec(m)) by {
                    assert(m != p);
                }
            }
            lemma_mirrors_frame(f2, f3, c2, f0.trees()[c.tree as int], c, fuel as nat, f0);
            assert(copied_child_as(f3, f0, p, i as int, c, c2));
        }
        c2
    }
}


/// A well-formed tree holds its document node, which has no parent.
pub proof fn lemma_doc(t: Tree)
    requires
        t.wf(),
    ensures
        t.has(t.doc()),
        t.rec(t.doc()).t == NodeType::Document,
        t.rec(t.doc()).parent.is_none(),
{
    assert(t.record_wf(t.doc_key()));
}


/// `a` and `b` agree in all but the parent link.
pub open spec fn same_but_parent(a: NodeContent, b: NodeContent) -> bool {
    a.t == b.t && a.name == b.name && a.v == b.v && a.attributes == b.attributes && a.children == b.children
}

/// The subtree of `x` in `f` reproduces that of `y` in the tree `src`, down
/// to `fuel` levels: kinds, names, values, attributes in order, and children
/// in order. Every node of it is new since `fs`.
pub open spec fn mirrors(f: Forest, x: Node, src: Tree, y: Node, fuel: nat, fs: Forest) -> bool
    decreases fuel, 0nat,
{
    let rx = f.rec(x);
    let ry = src.rec(y);
    &&& f.valid(x)
    &&& !fs.valid(x)
    &&& src.has(y)
    &&& rx.t == ry.t
    &&& rx.name == ry.name
    &&& rx.v == ry.v
    &&& rx.attributes@.len() == ry.attributes@.len()
    &&& forall|j: int| 0 <= j < rx.attributes@.len() ==> #[trigger] attr_mirrors(f, rx.attributes@[j], src, ry.attributes@[j], fs)
    &&& (fuel > 0 ==> kids_mirror(f, rx.children@, src, ry.children@, (fuel - 1) as nat, fs))
}

/// Each node of `xs` mirrors the node of `ys` at its position.
pub open spec fn kids_mirror(f: Forest, xs: Seq<Node>, src: Tree, ys: Seq<Node>, fuel: nat, fs: Forest) -> bool
    decreases fuel, xs.len() + 1,
{
    &&& xs.len() == ys.len()
    &&& (xs.len() > 0 ==> kids_mirror(f, xs.drop_last(), src, ys.drop_last(), fuel, fs)
        && mirrors(f, xs.last(), src, ys.last(), fuel, fs))
}

/// The attribute `a` of `f` is new since `fs` and carries the name and value
/// of `b` in `src`.
pub open spec fn attr_mirrors(f: Forest, a: Node, src: Tree, b: Node, fs: Forest) -> bool {
    &&& f.valid(a)
    &&& !fs.valid(a)
    &&& f.rec(a).name == src.rec(b).name
    &&& f.rec(a).v == src.rec(b).v
}

/// What a frame step keeps: nodes new since `fs` stay, changed at most in
/// their parent links.
pub open spec fn keeps_new(f: Forest, g: Forest, fs: Forest) -> bool {
    forall|m: Node| f.valid(m) && !fs.valid(m) ==> #[trigger] g.valid(m) && same_but_parent(g.rec(m), f.rec(m))
}

proof fn lemma_mirrors_frame(f: Forest, g: Forest, x: Node, src: Tree, y: Node, fuel: nat, fs: Forest)
    requires
        mirrors(f, x, src, y, fuel, fs),
        keeps_new(f, g, fs),
    ensures
        mirrors(g, x, src, y, fuel, fs),
    decreases fuel, 0nat,
{
    assert(g.valid(x));
    let rx = f.rec(x);
    assert forall|j: int| 0 <= j < rx.attributes@.len() implies #[trigger] attr_mirrors(g, rx.attributes@[j], src, src.rec(y).attributes@[j], fs) by {
        assert(attr_mirrors(f, rx.attributes@[j], src, src.rec(y).attributes@[j], fs));
        assert(g.valid(rx.attributes@[j]));
    }
    if fuel > 0 {
        lemma_kids_frame(f, g, rx.children@, src, src.rec(y).children@, (fuel - 1) as nat, fs);
    }
}

proof fn lemma_kids_frame(f: Forest, g: Forest, xs: Seq<Node>, src: Tree, ys: Seq<Node>, fuel: nat, fs: Forest)
    requires
        kids_mirror(f, xs, src, ys, fuel, fs),
        keeps_new(f, g, fs),
    ensures
        kids_mirror(g, xs, src, ys, fuel, fs),
    decreases fuel, xs.len() + 1,
{
    if xs.len() > 0 {
        lemma_kids_frame(f, g, xs.drop_last(), src, ys.drop_last(), fuel, fs);
        lemma_mirrors_frame(f, g, xs.last(), src, ys.last(), fuel, fs);
    }
}

proof fn lemma_mirrors_older(f: Forest, x: Node, src: Tree, y: Node, fuel: nat, fs: Forest, fs0: Forest)
    requires
        mirrors(f, x, src, y, fuel, fs),
        forall|m: Node| #[trigger] fs0.valid(m) ==> fs.valid(m),
    ensures
        mirrors(f, x, src, y, fuel, fs0),
    decreases fuel, 0nat,
{
    let rx = f.rec(x);
    assert forall|j: int| 0 <= j < rx.attributes@.len() implies #[trigger] attr_mirrors(f, rx.attributes@[j], src, src.rec(y).attributes@[j], fs0) by {
        assert(attr_mirrors(f, rx.attributes@[j], src, src.rec(y).attributes@[j], fs));
    }
    if fuel > 0 {
        lemma_kids_older(f, rx.children@, src, src.rec(y).children@, (fuel - 1) as nat, fs, fs0);
    }
}

proof fn lemma_kids_older(f: Forest, xs: Seq<Node>, src: Tree, ys: Seq<Node>, fuel: nat, fs: Forest, fs0: Forest)
    requires
        kids_mirror(f, xs, src, ys, fuel, fs),
        forall|m: Node| #[trigger] fs0.valid(m) ==> fs.valid(m),
    ensures
        kids_mirror(f, xs, src, ys, fuel, fs0),
    decreases fuel, xs.len() + 1,
{
    if xs.len() > 0 {
        lemma_kids_older(f, xs.drop_last(), src, ys.drop_last(), fuel, fs, fs0);
        lemma_mirrors_older(f, xs.last(), src, ys.last(), fuel, fs, fs0);
    }
}

impl Forest {
    /// Appends the detached attribute `a` to the element `e`, which has no
    /// attribute of its name.
    fn append_fresh_attribute(&mut self, e: Node, a: Node)
        requires
            old(self).wf(),
            old(self).valid(e),
            old(self).valid(a),
            a.tree == e.tree,
            old(self).rec(e).t == NodeType::Element,
            old(self).rec(a).t == NodeType::Attribute,
            old(self).rec(a).parent.is_none(),
            !old(self).tree(e).has_attr_named(e, old(self).tree(e).attr_name(a)),
        ensures
            final(self).wf(),
            final(self).trees().len() == old(self).trees().len(),
            forall|i: int| 0 <= i < old(self).trees().len() && i != e.tree ==> final(self).trees()[i] == old(self).trees()[i],
            forall|m: Node| #[trigger] final(self).valid(m) <==> old(self).valid(m),
            forall|m: Node| old(self).valid(m) && m != e && m != a ==> #[trigger] final(self).rec(m) == old(self).rec(m),
            final(self).rec(a) == with_parent(old(self).rec(a), Some(e)),
            final(self).rec(e) == (NodeContent { attributes: final(self).rec(e).attributes, ..old(self).rec(e) }),
            final(self).rec(e).attributes@ == old(self).rec(e).attributes@.push(a),
    {
        let ghost f0 = *self;
        let ti = e.tree;
        proof {
            assert(f0.trees()[ti as int].wf());
        }
        let t = &mut self.a[ti];
        let ghost t0 = *t;
        t.attach_detached_attribute(e, a);
        let ghost t2 = *t;
        proof {
            assert(self.trees() == f0.trees().update(ti as int, t2));
            assert forall|j: int| 0 <= j < self.trees().len() implies (#[trigger] self.trees()[j]).wf()
                && self.trees()[j].index() == j by {
                if j != ti {
                    assert(f0.trees()[j].wf());
                }
            }
            assert forall|m: Node| #[trigger] self.valid(m) <==> f0.valid(m) by {
                if m.tree == ti {
                    assert(t2.nodes().dom() =~= t0.nodes().dom());
                }
            }
        }
    }
}

} // verus!
