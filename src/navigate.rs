//! Navigation: cursors over the ancestors, children, siblings and
//! attributes of a node, and lookup of an attribute by name.
//!
//! A cursor holds positions only, no borrow: each step reads the forest it
//! is given.
use vstd::prelude::*;
use crate::forest::{Forest, Node, NodeType, Tree, lemma_record};

verus! {

impl Node {
    /// The parent of the node, unless that is the document node.
    pub fn parent(&self, f: &Forest) -> (r: Option<Node>)
        requires
            f.wf(),
        ensures
            r == if f.valid(*self) && f.rec(*self).parent.is_some()
                && f.rec(f.rec(*self).parent.unwrap()).t != NodeType::Document {
                f.rec(*self).parent
            } else {
                None
            },
    {
        let mut it = self.ancestor_iter();
        it.next(f)
    }

    /// An iterator over the ancestors of the node, nearest first.
    pub fn ancestor_iter(&self) -> (r: Ancestors)
        ensures
            r.cur == *self,
    {
        Ancestors { cur: *self }
    }
}

/// A cursor over the ancestors of a node, nearest first; the document node
/// is not yielded.
pub struct Ancestors {
    pub cur: Node,
}

impl Ancestors {
    pub fn next(&mut self, f: &Forest) -> (r: Option<Node>)
        requires
            f.wf(),
        ensures
            r == if f.valid(old(self).cur) && f.rec(old(self).cur).parent.is_some()
                && f.rec(f.rec(old(self).cur).parent.unwrap()).t != NodeType::Document {
                f.rec(old(self).cur).parent
            } else {
                None
            },
            final(self).cur == match r {
                Some(p) => p,
                None => old(self).cur,
            },
    {
        match f.content(self.cur) {
            Some(c) => match c.parent {
                Some(p) => {
                    proof {
                        lemma_record(*f, self.cur);
                    }
                    if p.node_type(f) == NodeType::Document {
                        None
                    } else {
                        self.cur = p;
                        Some(p)
                    }
                },
                None => None,
            },
            None => None,
        }
    }
}



impl Node {
    /// A cursor over the children of this node, in order.
    pub fn child_iter(&self) -> (r: Children)
        ensures
            r.parent == *self,
            r.cur == 0,
    {
        Children { parent: *self, cur: 0 }
    }

    /// A cursor over the siblings that follow this node.
    pub fn next_iter(&self, f: &Forest) -> (r: Siblings)
        requires
            f.wf(),
        ensures
            sibling_start(*f, *self, r),
            r.forward,
    {
        Siblings::new(*self, true, f)
    }

    /// A cursor over the siblings that precede this node, nearest first.
    pub fn prev_iter(&self, f: &Forest) -> (r: Siblings)
        requires
            f.wf(),
        ensures
            sibling_start(*f, *self, r),
            !r.forward,
    {
        Siblings::new(*self, false, f)
    }

    /// A cursor over the attributes of this node.
    pub fn attribute_iter(&self) -> (r: Attributes)
        ensures
            r.element == *self,
            r.cur == 0,
    {
        Attributes { element: *self, cur: 0 }
    }
}

/// A cursor over the children of a node, by position.
pub struct Children {
    pub parent: Node,
    pub cur: usize,
}

impl Children {
    pub fn next(&mut self, f: &Forest) -> (r: Option<Node>)
        ensures
            r == if f.valid(old(self).parent) && old(self).cur < f.rec(old(self).parent).children@.len() {
                Some(f.rec(old(self).parent).children@[old(self).cur as int])
            } else {
                None
            },
            final(self).parent == old(self).parent,
            final(self).cur == if r is Some { old(self).cur + 1 } else { old(self).cur as int },
    {
        match f.content(self.parent) {
            Some(c) => if self.cur < c.children.len() {
                let n = c.children[self.cur];
                self.cur = self.cur + 1;
                Some(n)
            } else {
                None
            },
            None => None,
        }
    }
}

/// Where a sibling cursor over the siblings of `n` starts: at the position
/// of `n` among its parent's children. A node without a parent, or an
/// attribute, has no siblings.
pub open spec fn sibling_start(f: Forest, n: Node, r: Siblings) -> bool {
    if f.valid(n) && f.rec(n).parent.is_some() && f.rec(n).t != NodeType::Attribute {
        let q = f.rec(n).parent.unwrap();
        &&& r.parent == Some(q)
        &&& r.cur < f.rec(q).children@.len()
        &&& f.rec(q).children@[r.cur as int] == n
    } else {
        r.parent.is_none()
    }
}

/// A cursor over the siblings of a node, forward or backward, by position.
pub struct Siblings {
    pub parent: Option<Node>,
    pub cur: usize,
    pub forward: bool,
}

impl Siblings {
    fn new(n: Node, forward: bool, f: &Forest) -> (r: Siblings)
        requires
            f.wf(),
        ensures
            sibling_start(*f, n, r),
            r.forward == forward,
    {
        match f.content(n) {
            Some(c) => match c.parent {
                Some(q) => {
                    if c.t == NodeType::Attribute {
                        return Siblings { parent: None, cur: 0, forward };
                    }
                    proof {
                        lemma_record(*f, n);
                    }
                    let i = Tree::position_of(&f.content(q).unwrap().children, n);
                    Siblings { parent: Some(q), cur: i, forward }
                },
                None => Siblings { parent: None, cur: 0, forward },
            },
            None => Siblings { parent: None, cur: 0, forward },
        }
    }

    pub fn next(&mut self, f: &Forest) -> (r: Option<Node>)
        ensures
            r == match old(self).parent {
                Some(q) => if !f.valid(q) {
                    None
                } else if old(self).forward && old(self).cur + 1 < f.rec(q).children@.len() {
                    Some(f.rec(q).children@[old(self).cur + 1])
                } else if !old(self).forward && 0 < old(self).cur <= f.rec(q).children@.len() {
                    Some(f.rec(q).children@[old(self).cur - 1])
                } else {
                    None
                },
                None => None,
            },
            final(self).parent == old(self).parent,
            final(self).forward == old(self).forward,
            final(self).cur == match r {
                Some(_) => if old(self).forward { old(self).cur + 1 } else { old(self).cur - 1 },
                None => old(self).cur as int,
            },
    {
        match self.parent {
            Some(q) => match f.content(q) {
                Some(c) => {
                    if self.forward && self.cur < c.children.len() && self.cur + 1 < c.children.len() {
                        self.cur = self.cur + 1;
                        Some(c.children[self.cur])
                    } else if !self.forward && 0 < self.cur && self.cur <= c.children.len() {
                        self.cur = self.cur - 1;
                        Some(c.children[self.cur])
                    } else {
                        None
                    }
                },
                None => None,
            },
            None => None,
        }
    }
}

/// A cursor over the attributes of an element, in the order they were added
/// (an order of no meaning in the data model).
pub struct Attributes {
    pub element: Node,
    pub cur: usize,
}

impl Attributes {
    pub fn next(&mut self, f: &Forest) -> (r: Option<Node>)
        ensures
            r == if f.valid(old(self).element) && old(self).cur < f.rec(old(self).element).attributes@.len() {
                Some(f.rec(old(self).element).attributes@[old(self).cur as int])
            } else {
                None
            },
            final(self).element == old(self).element,
            final(self).cur == if r is Some { old(self).cur + 1 } else { old(self).cur as int },
    {
        match f.content(self.element) {
            Some(c) => if self.cur < c.attributes.len() {
                let n = c.attributes[self.cur];
                self.cur = self.cur + 1;
                Some(n)
            } else {
                None
            },
            None => None,
        }
    }
}


} // verus!
