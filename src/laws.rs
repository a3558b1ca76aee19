//! Properties that relate the outcome of the mutating operations to what
//! later reads see.
use vstd::prelude::*;
use crate::forest::{
    Forest, Node, NodeType, append_error, attribute_added, attribute_error, children_without, detached,
    lemma_record, moved_child, remove_error,
};
use crate::qname::same_name;

verus! {

/// Appending `c` to the element `p` makes `p` the parent of `c`, and `c`
/// then stands exactly once among the children of `p`: last, after the
/// other children in their former order.
pub proof fn law_append_child(f0: Forest, f1: Forest, p: Node, c: Node)
    requires
        f0.wf(),
        append_error(f0, p, c).is_none(),
        c.tree == p.tree,
        moved_child(f1, f0, p, children_without(f0, p, c).len() as int, c),
    ensures
        f1.rec(c).parent == Some(p),
        f1.rec(p).children@.len() > 0,
        f1.rec(p).children@.last() == c,
        f1.rec(p).children@.drop_last() == children_without(f0, p, c),
        forall|i: int| 0 <= i < f1.rec(p).children@.len() - 1 ==> f1.rec(p).children@[i] != c,
{
    let base = children_without(f0, p, c);
    assert(f1.rec(p).children@ == base.insert(base.len() as int, c));
    assert(f1.rec(p).children@[base.len() as int] == c);
    assert(f1.rec(p).children@.drop_last() =~= base);
    assert(f1.valid(p));
    lemma_record(f1, p);
}

/// Removing an attached node `n` that is not an attribute leaves it without
/// a parent and takes it out of its former parent's children; the other
/// children keep their order.
pub proof fn law_remove(f0: Forest, f1: Forest, n: Node)
    requires
        f0.wf(),
        remove_error(f0, n).is_none(),
        f0.rec(n).t != NodeType::Attribute,
        detached(f1, f0, n),
    ensures
        f1.rec(n).parent.is_none(),
        ({
            let q = f0.rec(n).parent.unwrap();
            let s0 = f0.rec(q).children@;
            let s1 = f1.rec(q).children@;
            &&& !s1.contains(n)
            &&& exists|i: int| 0 <= i < s0.len() && s0[i] == n
                && s1 == s0.subrange(0, i) + s0.subrange(i + 1, s0.len() as int)
        }),
{
    let q = f0.rec(n).parent.unwrap();
    let s0 = f0.rec(q).children@;
    let s1 = f1.rec(q).children@;
    lemma_record(f0, n);
    lemma_record(f0, q);
    s0.index_of_first_ensures(n);
    let i = s0.index_of_first(n).unwrap();
    assert(s1 == s0.remove(i));
    if s1.contains(n) {
        let j = choose|j: int| 0 <= j < s1.len() && s1[j] == n;
        if j < i {
            assert(s0[j] == n);
        } else {
            assert(s0[j + 1] == n);
        }
    }
}

/// Once `a` is added to the element `e` (both of one tree), `a` is the one
/// attribute of `e` with its name, so a lookup by that name finds `a` and
/// its value; an attribute of that name added before has given way.
pub proof fn law_add_then_get_attribute(f0: Forest, f1: Forest, e: Node, a: Node)
    requires
        f0.wf(),
        attribute_error(f0, e, a).is_none(),
        a.tree == e.tree,
        attribute_added(f1, f0, e, a),
    ensures
        ({
            let qn = f0.rec(a).name.unwrap();
            let s = f1.rec(e).attributes@;
            &&& f1.tree(e).has_attr_named(e, qn)
            &&& s[f1.tree(e).attr_pos(e, qn)] == a
            &&& f1.rec(a).v == f0.rec(a).v
            &&& forall|j: int| 0 <= j < s.len() && same_name(f1.rec(s[j]).name.unwrap(), qn) ==> s[j] == a
        }),
{
    let qn = f0.rec(a).name.unwrap();
    let s = f1.rec(e).attributes@;
    assert(f1.valid(e));
    lemma_record(f1, e);
    let ja = choose|j: int| 0 <= j < s.len() && s[j] == a;
    assert(f1.tree(e).attr_name(s[ja]) == qn);
    assert(same_name(f1.tree(e).attr_name(s[ja]), qn));
    assert(f1.tree(e).has_attr_named(e, qn));
    let jp = f1.tree(e).attr_pos(e, qn);
    assert forall|j: int| 0 <= j < s.len() && same_name(f1.rec(s[j]).name.unwrap(), qn) implies s[j] == a by {
        if j != ja {
            assert(!same_name(f1.rec(s[j]).name.unwrap(), f1.rec(s[ja]).name.unwrap()));
        }
    }
    assert(same_name(f1.rec(s[jp]).name.unwrap(), qn));
}

} // verus!
