//! Reading XML text into a tree, as `crate::grammar::parse_xml` describes.
use vstd::prelude::*;
use vstd::string::*;
use crate::error::{Error, ErrorKind};
use crate::forest::{Forest, Tree, Node, NodeType, NodeContent, TreeIndex, with_parent, lemma_doc};
use crate::grammar::{QView, Entry, ReadState, lit_at, find_from, skip_ws, name_end_at, ws_only, colon_in, decoded, lookup_ns, name_view, attr_name_view, attrs_from, is_decl, decls, same_view, attr_list, top, add_leaf, read_step, read_from, empty_state, top_level, parse_xml};
use crate::qname::{QualifiedName, opt_str, same_name};
use crate::value::{Value, value_text};

verus! {

broadcast use vstd::string::group_string_axioms;

/// A name as (namespace URI, prefix, local name).
pub open spec fn qview(q: QualifiedName) -> QView {
    (opt_str(q.nsuri), opt_str(q.prefix), q.localname@)
}

pub open spec fn opt_qview(q: Option<QualifiedName>) -> Option<QView> {
    match q {
        Some(x) => Some(qview(x)),
        None => None,
    }
}

pub open spec fn opt_text(v: Option<Value>) -> Option<Seq<char>> {
    match v {
        Some(x) => Some(value_text(x)),
        None => None,
    }
}

pub open spec fn pairs_view(ns: Seq<(String, String)>) -> Seq<(Seq<char>, Seq<char>)> {
    ns.map_values(|x: (String, String)| (x.0@, x.1@))
}

/// The nodes among the first `k` of `made` whose entries have the parent
/// position `p`, in order.
pub open spec fn kid_nodes(made: Seq<Node>, es: Seq<Entry>, p: int, k: int) -> Seq<Node>
    decreases k,
{
    if k <= 0 {
        Seq::empty()
    } else {
        kid_nodes(made, es, p, k - 1) + if es[k - 1].parent == p {
            seq![made[k - 1]]
        } else {
            Seq::empty()
        }
    }
}

/// The attribute nodes `ns` carry the names and values of `attrs`, in order.
pub open spec fn attrs_match(t: Tree, ns: Seq<Node>, attrs: Seq<(QView, Seq<char>)>) -> bool {
    &&& ns.len() == attrs.len()
    &&& forall|j: int| 0 <= j < ns.len() ==> {
        let a = #[trigger] ns[j];
        &&& t.has(a)
        &&& t.rec(a).t == NodeType::Attribute
        &&& opt_qview(t.rec(a).name) == Some(attrs[j].0)
        &&& opt_text(t.rec(a).v) == Some(attrs[j].1)
    }
}

/// The node `made[i]` of `t` is what entry `i` describes: kind, name,
/// value, parent, children and attributes.
pub open spec fn node_matches(t: Tree, made: Seq<Node>, es: Seq<Entry>, i: int) -> bool {
    let n = made[i];
    let r = t.rec(n);
    let e = es[i];
    &&& t.has(n)
    &&& n != t.doc()
    &&& r.t == e.kind
    &&& opt_qview(r.name) == e.name
    &&& opt_text(r.v) == e.value
    &&& -1 <= e.parent < i
    &&& (e.parent >= 0 ==> es[e.parent].kind == NodeType::Element)
    &&& r.parent == Some(if e.parent == -1 { t.doc() } else { made[e.parent] })
    &&& r.children@ == kid_nodes(made, es, i, es.len() as int)
    &&& attrs_match(t, r.attributes@, e.attrs)
}

/// The tree `t` holds, below its document node, the nodes `made`, one for
/// each entry of `es`, as the entries describe them.
pub open spec fn built(t: Tree, made: Seq<Node>, es: Seq<Entry>) -> bool {
    &&& made.len() == es.len()
    &&& forall|i: int, j: int| 0 <= i < j < made.len() ==> made[i] != made[j]
    &&& t.rec(t.doc()).children@ == kid_nodes(made, es, -1, es.len() as int)
    &&& forall|i: int| 0 <= i < made.len() ==> #[trigger] node_matches(t, made, es, i)
}

proof fn lemma_kid_prefix(made: Seq<Node>, es: Seq<Entry>, made2: Seq<Node>, es2: Seq<Entry>, p: int, k: int)
    requires
        0 <= k <= made.len(),
        k <= es.len(),
        k <= made2.len(),
        k <= es2.len(),
        forall|j: int| 0 <= j < k ==> made[j] == made2[j] && es[j].parent == es2[j].parent,
    ensures
        kid_nodes(made, es, p, k) == kid_nodes(made2, es2, p, k),
    decreases k,
{
    if k > 0 {
        lemma_kid_prefix(made, es, made2, es2, p, k - 1);
    }
}

proof fn lemma_no_kids(made: Seq<Node>, es: Seq<Entry>, p: int, k: int)
    requires
        0 <= k <= es.len(),
        forall|j: int| 0 <= j < k ==> es[j].parent != p,
    ensures
        kid_nodes(made, es, p, k) == Seq::<Node>::empty(),
    decreases k,
{
    if k > 0 {
        lemma_no_kids(made, es, p, k - 1);
    }
}


/// Adding a new node `n` under the parent that entry `e` names keeps `built`.
proof fn lemma_add_node(t0: Tree, t1: Tree, t2: Tree, made: Seq<Node>, es: Seq<Entry>, n: Node, e: Entry, pn: Node)
    requires
        built(t0, made, es),
        t0.has(t0.doc()),
        !t0.has(n),
        t1.has(n),
        t1.doc() == t0.doc(),
        t2.doc() == t0.doc(),
        t1.index() == t0.index(),
        t1.nodes() == t0.nodes().insert(n.key(), t1.rec(n)),
        t1.rec(n).t == e.kind,
        opt_qview(t1.rec(n).name) == e.name,
        opt_text(t1.rec(n).v) == e.value,
        t1.rec(n).children@.len() == 0,
        t1.rec(n).attributes@.len() == 0,
        e.attrs.len() == 0,
        -1 <= e.parent < es.len(),
        e.parent >= 0 ==> es[e.parent].kind == NodeType::Element,
        pn == if e.parent == -1 { t0.doc() } else { made[e.parent] },
        t0.has(pn),
        t0.rec(pn).t == NodeType::Element || t0.rec(pn).t == NodeType::Document,
        forall|i: int, j: int| 0 <= i < made.len() && 0 <= j < t0.rec(made[i]).attributes@.len()
            ==> t0.rec(#[trigger] t0.rec(made[i]).attributes@[j]).t == NodeType::Attribute,
        t2.index() == t1.index(),
        t2.nodes() == t1.nodes().insert(pn.key(), t2.rec(pn)).insert(n.key(), t2.rec(n)),
        t2.rec(n) == with_parent(t1.rec(n), Some(pn)),
        t2.rec(pn) == (NodeContent { children: t2.rec(pn).children, ..t1.rec(pn) }),
        t2.rec(pn).children@ == t1.rec(pn).children@.push(n),
    ensures
        built(t2, made.push(n), es.push(e)),
{
    let k = es.len() as int;
    let made2 = made.push(n);
    let es2 = es.push(e);
    assert forall|p: int| kid_nodes(made2, es2, p, k) == kid_nodes(made, es, p, k) by {
        lemma_kid_prefix(made, es, made2, es2, p, k);
    }
    assert forall|i: int| 0 <= i < k implies made[i] != n by {
        assert(node_matches(t0, made, es, i));
    }
    assert(t1.rec(pn) == t0.rec(pn));
    assert forall|i: int| 0 <= i < made2.len() implies #[trigger] node_matches(t2, made2, es2, i) by {
        if i < k {
            assert(node_matches(t0, made, es, i));
            let m = made[i];
            assert(made2[i] == m);
            assert(m != n);
            assert(t1.rec(m) == t0.rec(m));
            let ats = t0.rec(m).attributes@;
            if m == pn {
                assert(e.parent == i) by {
                    if e.parent != i {
                        if e.parent >= 0 {
                            assert(made[e.parent] != made[i]) by {
                                if e.parent < i {
                                } else {
                                }
                            }
                        }
                    }
                }
                assert(kid_nodes(made2, es2, i, k + 1) == kid_nodes(made2, es2, i, k) + seq![n]);
            } else {
                assert(t2.rec(m) == t0.rec(m));
                if e.parent == i {
                    assert(pn == m);
                }
                assert(kid_nodes(made2, es2, i, k + 1) == kid_nodes(made2, es2, i, k));
            }
            assert forall|j: int| 0 <= j < ats.len() implies t2.rec(#[trigger] ats[j]) == t0.rec(ats[j]) by {
                assert(t0.has(ats[j]));
                assert(t0.rec(ats[j]).t == NodeType::Attribute);
                assert(ats[j] != pn);
                assert(ats[j] != n);
            }
            assert(t2.rec(m).attributes@ == ats);
            assert(attrs_match(t2, ats, es2[i].attrs));
            assert(es2[i] == es[i]);
            assert(t2.has(m));
            assert(t2.rec(m).t == t0.rec(m).t);
            assert(t2.rec(m).name == t0.rec(m).name);
            assert(t2.rec(m).v == t0.rec(m).v);
            assert(t2.rec(m).parent == t0.rec(m).parent);
            if es[i].parent >= 0 {
                assert(made2[es[i].parent] == made[es[i].parent]);
                assert(es2[es[i].parent] == es[es[i].parent]);
            }
            assert(t2.rec(m).children@ == kid_nodes(made2, es2, i, es2.len() as int));
        } else {
            assert(i == k);
            assert(made2[i] == n);
            assert(n != t0.doc());
            assert forall|j: int| 0 <= j < k + 1 implies es2[j].parent != k by {
                if j < k {
                    assert(node_matches(t0, made, es, j));
                }
            }
            lemma_no_kids(made2, es2, k, k + 1);
            assert(t2.has(n));
            assert(t2.rec(n).children@ == kid_nodes(made2, es2, k, es2.len() as int));
            assert(attrs_match(t2, t2.rec(n).attributes@, es2[k].attrs));
            if e.parent >= 0 {
                assert(made2[e.parent] == made[e.parent]);
                assert(es2[e.parent] == es[e.parent]);
            }
        }
    }
    assert(t2.doc() == t0.doc());
    if e.parent == -1 {
        assert(kid_nodes(made2, es2, -1, k + 1) == kid_nodes(made2, es2, -1, k) + seq![n]);
        assert(t2.rec(t2.doc()).children@ == kid_nodes(made2, es2, -1, k + 1));
    } else {
        assert(node_matches(t0, made, es, e.parent));
        assert(t2.rec(t0.doc()) == t0.rec(t0.doc()));
        assert(kid_nodes(made2, es2, -1, k + 1) == kid_nodes(made2, es2, -1, k));
        assert(t2.rec(t2.doc()).children@ == kid_nodes(made2, es2, -1, k + 1));
    }
    assert forall|i: int, j: int| 0 <= i < j < made2.len() implies made2[i] != made2[j] by {
        if j == k {
            assert(node_matches(t0, made, es, i));
        }
    }
}


/// `e` with the attribute `pa` added last.
pub open spec fn with_attr(e: Entry, pa: (QView, Seq<char>)) -> Entry {
    Entry { attrs: e.attrs.push(pa), ..e }
}

/// Adding a new attribute `a` to the element of the last entry keeps `built`.
proof fn lemma_add_attr(t0: Tree, t1: Tree, t2: Tree, made: Seq<Node>, es: Seq<Entry>, a: Node, pa: (QView, Seq<char>))
    requires
        built(t0, made, es),
        t0.has(t0.doc()),
        es.len() > 0,
        es.last().kind == NodeType::Element,
        !t0.has(a),
        t1.has(a),
        t1.doc() == t0.doc(),
        t2.doc() == t0.doc(),
        t1.index() == t0.index(),
        t2.index() == t0.index(),
        t1.nodes() == t0.nodes().insert(a.key(), t1.rec(a)),
        t1.rec(a).t == NodeType::Attribute,
        opt_qview(t1.rec(a).name) == Some(pa.0),
        opt_text(t1.rec(a).v) == Some(pa.1),
        ({
            let el = made.last();
            &&& t2.nodes() == t1.nodes().insert(el.key(), t2.rec(el)).insert(a.key(), t2.rec(a))
            &&& t2.rec(a) == with_parent(t1.rec(a), Some(el))
            &&& t2.rec(el) == (NodeContent { attributes: t2.rec(el).attributes, ..t1.rec(el) })
            &&& t2.rec(el).attributes@ == t1.rec(el).attributes@.push(a)
        }),
    ensures
        built(t2, made, es.update(es.len() - 1, with_attr(es.last(), pa))),
{
    let k = es.len() as int;
    let el = made.last();
    let es2 = es.update(k - 1, with_attr(es.last(), pa));
    assert forall|p: int| kid_nodes(made, es2, p, k) == kid_nodes(made, es, p, k) by {
        lemma_kid_prefix(made, es, made, es2, p, k);
    }
    assert(node_matches(t0, made, es, k - 1));
    assert(t1.rec(el) == t0.rec(el));
    assert forall|i: int| 0 <= i < made.len() implies #[trigger] node_matches(t2, made, es2, i) by {
        assert(node_matches(t0, made, es, i));
        let m = made[i];
        assert(m != a);
        let ats = t0.rec(m).attributes@;
        assert forall|j: int| 0 <= j < ats.len() implies t2.rec(#[trigger] ats[j]) == t0.rec(ats[j]) by {
            assert(t0.has(ats[j]));
            assert(ats[j] != a);
            assert(ats[j] != el);
        }
        if i == k - 1 {
            assert(t2.rec(m).attributes@ == ats.push(a));
            assert(attrs_match(t2, t2.rec(m).attributes@, es2[i].attrs));
        } else {
            assert(m != el);
            assert(t2.rec(m) == t0.rec(m));
            assert(es2[i] == es[i]);
            assert(attrs_match(t2, ats, es2[i].attrs));
        }
        if es[i].parent >= 0 {
            assert(es2[es[i].parent].kind == es[es[i].parent].kind);
        }
        assert(t2.rec(m).children@ == kid_nodes(made, es2, i, es2.len() as int));
    }
    assert(t2.rec(t2.doc()) == t0.rec(t0.doc())) by {
        assert(t0.doc() != a);
        assert(t0.doc() != el);
    }
}


/// Whether `lit` stands in `s` at `pos`.
fn at(s: &str, n: usize, pos: usize, lit: &str) -> (r: bool)
    requires
        n == s@.len(),
    ensures
        r == lit_at(s@, pos as int, lit@),
{
    let m = lit.unicode_len();
    if pos > n || m > n - pos {
        return false;
    }
    let mut i: usize = 0;
    while i < m
        invariant
            n == s@.len(),
            m == lit@.len(),
            pos + m <= n,
            i <= m,
            forall|j: int| 0 <= j < i ==> s@[pos + j] == lit@[j],
        decreases m - i,
    {
        if s.get_char(pos + i) != lit.get_char(i) {
            proof {
                assert(s@.subrange(pos as int, pos + m)[i as int] != lit@[i as int]);
            }
            return false;
        }
        i = i + 1;
    }
    proof {
        assert(s@.subrange(pos as int, pos + m) =~= lit@);
    }
    true
}

/// The first position at or after `pos` where `lit` stands.
fn find(s: &str, n: usize, pos: usize, lit: &str) -> (r: Option<usize>)
    requires
        n == s@.len(),
    ensures
        match r {
            Some(k) => find_from(s@, pos as int, lit@) == Some(k as int) && pos <= k && k + lit@.len() <= n,
            None => find_from(s@, pos as int, lit@).is_none(),
        },
{
    let mut k: usize = pos;
    while k < n
        invariant
            n == s@.len(),
            pos <= k,
            find_from(s@, pos as int, lit@) == find_from(s@, k as int, lit@),
        decreases n - k,
    {
        if at(s, n, k, lit) {
            return Some(k);
        }
        k = k + 1;
    }
    None
}

/// The first position at or after `pos` that holds no white space.
fn skip_space(s: &str, n: usize, pos: usize) -> (r: usize)
    requires
        n == s@.len(),
        pos <= n,
    ensures
        pos <= r <= n,
        r == skip_ws(s@, pos as int),
{
    let mut k = pos;
    while k < n
        invariant
            n == s@.len(),
            pos <= k <= n,
            skip_ws(s@, pos as int) == skip_ws(s@, k as int),
        decreases n - k,
    {
        let c = s.get_char(k);
        if !(c == ' ' || c == '\t' || c == '\n' || c == '\r') {
            return k;
        }
        k = k + 1;
    }
    k
}

/// The end of the name that starts at `pos`.
fn name_end(s: &str, n: usize, pos: usize) -> (r: usize)
    requires
        n == s@.len(),
        pos <= n,
    ensures
        pos <= r <= n,
        r == name_end_at(s@, pos as int),
{
    let mut k = pos;
    while k < n
        invariant
            n == s@.len(),
            pos <= k <= n,
            name_end_at(s@, pos as int) == name_end_at(s@, k as int),
        decreases n - k,
    {
        let c = s.get_char(k);
        if c == ' ' || c == '\t' || c == '\n' || c == '\r' || c == '/' || c == '>' || c == '=' || c == '?' {
            return k;
        }
        k = k + 1;
    }
    k
}

/// The text between `from` and `to`.
fn slice(s: &str, n: usize, from: usize, to: usize) -> (r: String)
    requires
        n == s@.len(),
        from <= to <= n,
    ensures
        r@ == s@.subrange(from as int, to as int),
{
    String::from_str(s.substring_char(from, to))
}

/// The text between `from` and `to` with the predefined entity references
/// replaced.
fn decode(s: &str, n: usize, from: usize, to: usize) -> (r: String)
    requires
        n == s@.len(),
        from <= to <= n,
    ensures
        r@ == decoded(s@, from as int, to as int),
{
    let mut out = String::new();
    let mut i = from;
    while i < to
        invariant
            n == s@.len(),
            from <= i <= to,
            to <= n,
            out@ + decoded(s@, i as int, to as int) == decoded(s@, from as int, to as int),
        decreases to - i,
    {
        proof {
            reveal_strlit("&lt;");
            reveal_strlit("&gt;");
            reveal_strlit("&amp;");
            reveal_strlit("&quot;");
            reveal_strlit("&apos;");
        }
        let ghost before = out@;
        if s.get_char(i) == '&' {
            if at(s, n, i, "&lt;") && i + 4 <= to {
                out.append("<");
                i = i + 4;
            } else if at(s, n, i, "&gt;") && i + 4 <= to {
                out.append(">");
                i = i + 4;
            } else if at(s, n, i, "&amp;") && i + 5 <= to {
                out.append("&");
                i = i + 5;
            } else if at(s, n, i, "&quot;") && i + 6 <= to {
                out.append("\"");
                i = i + 6;
            } else if at(s, n, i, "&apos;") && i + 6 <= to {
                out.append("'");
                i = i + 6;
            } else {
                out.append("&");
                i = i + 1;
            }
        } else {
            out.append(s.substring_char(i, i + 1));
            proof {
                assert(s@.subrange(i as int, i + 1) =~= seq![s@[i as int]]);
            }
            i = i + 1;
        }
        proof {
            assert(out@ + decoded(s@, i as int, to as int) =~= decoded(s@, from as int, to as int));
        }
    }
    proof {
        assert(out@ =~= out@ + decoded(s@, i as int, to as int));
    }
    out
}

/// Whether the text between `from` and `to` is white space alone.
fn all_space(s: &str, n: usize, from: usize, to: usize) -> (r: bool)
    requires
        n == s@.len(),
        from <= to <= n,
    ensures
        r == ws_only(s@, from as int, to as int),
{
    let mut i = from;
    while i < to
        invariant
            n == s@.len(),
            from <= i <= to,
            to <= n,
            ws_only(s@, from as int, to as int) == ws_only(s@, i as int, to as int),
        decreases to - i,
    {
        let c = s.get_char(i);
        if !(c == ' ' || c == '\t' || c == '\n' || c == '\r') {
            return false;
        }
        i = i + 1;
    }
    true
}

/// The position of the first `:` between `from` and `to`.
fn colon(s: &str, n: usize, from: usize, to: usize) -> (r: Option<usize>)
    requires
        n == s@.len(),
        from <= to <= n,
    ensures
        match r {
            Some(k) => colon_in(s@, from as int, to as int) == Some(k as int) && from <= k < to,
            None => colon_in(s@, from as int, to as int).is_none(),
        },
{
    let mut i = from;
    while i < to
        invariant
            n == s@.len(),
            from <= i <= to,
            to <= n,
            colon_in(s@, from as int, to as int) == colon_in(s@, i as int, to as int),
        decreases to - i,
    {
        if s.get_char(i) == ':' {
            return Some(i);
        }
        i = i + 1;
    }
    None
}

/// The namespace URI bound to `prefix`: the latest declaration read.
fn lookup(ns: &Vec<(String, String)>, prefix: &String) -> (r: Option<String>)
    ensures
        match r {
            Some(u) => lookup_ns(pairs_view(ns@), prefix@) == Some(u@),
            None => lookup_ns(pairs_view(ns@), prefix@).is_none(),
        },
{
    let mut i = ns.len();
    proof {
        assert(ns@.subrange(0, i as int) =~= ns@);
    }
    while i > 0
        invariant
            i <= ns@.len(),
            lookup_ns(pairs_view(ns@), prefix@) == lookup_ns(pairs_view(ns@.subrange(0, i as int)), prefix@),
        decreases i,
    {
        let ghost sub = pairs_view(ns@.subrange(0, i as int));
        proof {
            assert(pairs_view(ns@.subrange(0, i - 1)) =~= sub.drop_last());
        }
        i = i - 1;
        if ns[i].0.eq(prefix) {
            return Some(ns[i].1.clone());
        }
    }
    proof {
        assert(pairs_view(ns@.subrange(0, 0)) =~= Seq::<(Seq<char>, Seq<char>)>::empty());
    }
    None
}

fn parse_error(msg: &str) -> (r: Error)
    ensures
        r.kind == ErrorKind::ParseError,
{
    Error::new(ErrorKind::ParseError, String::from_str(msg))
}


pub open spec fn spans_view(v: Seq<(usize, usize)>) -> Seq<(int, int)> {
    v.map_values(|p: (usize, usize)| (p.0 as int, p.1 as int))
}

pub open spec fn strs_view(v: Seq<String>) -> Seq<Seq<char>> {
    v.map_values(|x: String| x@)
}

/// Reads the attributes of a start tag from `pos`.
fn read_attributes(s: &str, n: usize, pos: usize) -> (r: Result<(Vec<(usize, usize)>, Vec<String>, bool, usize), Error>)
    requires
        n == s@.len(),
        pos <= n,
    ensures
        match r {
            Ok((spans, values, empty, end)) => attrs_from(s@, pos as int, Seq::empty(), Seq::empty())
                == Some((spans_view(spans@), strs_view(values@), empty, end as int))
                && pos < end <= n
                && spans@.len() == values@.len()
                && forall|j: int| 0 <= j < spans@.len() ==> (#[trigger] spans@[j]).0 <= spans@[j].1 <= n,
            Err(e) => attrs_from(s@, pos as int, Seq::empty(), Seq::empty()).is_none() && e.kind == ErrorKind::ParseError,
        },
{
    let mut spans: Vec<(usize, usize)> = Vec::new();
    let mut values: Vec<String> = Vec::new();
    let mut k = pos;
    proof {
        assert(spans_view(spans@) =~= Seq::<(int, int)>::empty());
        assert(strs_view(values@) =~= Seq::<Seq<char>>::empty());
    }
    while k < n
        invariant
            n == s@.len(),
            pos <= k <= n,
            attrs_from(s@, pos as int, Seq::empty(), Seq::empty())
                == attrs_from(s@, k as int, spans_view(spans@), strs_view(values@)),
            spans@.len() == values@.len(),
            forall|j: int| 0 <= j < spans@.len() ==> (#[trigger] spans@[j]).0 <= spans@[j].1 <= n,
        decreases n - k,
    {
        proof {
            reveal_strlit("/>");
            reveal_strlit(">");
            reveal_strlit("=");
            reveal_strlit("'");
            reveal_strlit("\"");
        }
        let k0 = k;
        k = skip_space(s, n, k);
        if at(s, n, k, "/>") {
            return Ok((spans, values, true, k + 2));
        }
        if at(s, n, k, ">") {
            return Ok((spans, values, false, k + 1));
        }
        let e = name_end(s, n, k);
        if e == k {
            return Err(parse_error("malformed start tag"));
        }
        let v0 = skip_space(s, n, e);
        if !at(s, n, v0, "=") {
            return Err(parse_error("attribute without a value"));
        }
        let v = skip_space(s, n, v0 + 1);
        let quote = if at(s, n, v, "'") {
            "'"
        } else if at(s, n, v, "\"") {
            "\""
        } else {
            return Err(parse_error("attribute value without quotes"));
        };
        let close = match find(s, n, v + 1, quote) {
            Some(c) => c,
            None => {
                return Err(parse_error("unterminated attribute value"));
            },
        };
        let ghost sp0 = spans@;
        let ghost vs0 = values@;
        let d = decode(s, n, v + 1, close);
        spans.push((k, e));
        values.push(d);
        proof {
            assert(spans_view(spans@) =~= spans_view(sp0).push((k as int, e as int)));
            assert(strs_view(values@) =~= strs_view(vs0).push(decoded(s@, v + 1, close as int)));
        }
        k = close + 1;
    }
    Err(parse_error("unterminated start tag"))
}

/// The element name written from `from` to `to`, its prefix resolved.
fn resolve_element(s: &str, n: usize, from: usize, to: usize, ns: &Vec<(String, String)>) -> (r: Result<QualifiedName, Error>)
    requires
        n == s@.len(),
        from <= to <= n,
    ensures
        match name_view(s@, from as int, to as int, pairs_view(ns@)) {
            Some(q) => r matches Ok(x) && qview(x) == q,
            None => r matches Err(e) && e.kind == ErrorKind::NamespaceError,
        },
{
    match colon(s, n, from, to) {
        None => Ok(QualifiedName::new(None, None, slice(s, n, from, to))),
        Some(c) => {
            let prefix = slice(s, n, from, c);
            let local = slice(s, n, c + 1, to);
            match lookup(ns, &prefix) {
                Some(uri) => Ok(QualifiedName::new(Some(uri), Some(prefix), local)),
                None => Err(Error::new(ErrorKind::NamespaceError, String::from_str("namespace URI not found for prefix"))),
            }
        },
    }
}

/// The attribute name written from `from` to `to`, its prefix resolved.
fn resolve_attribute(s: &str, n: usize, from: usize, to: usize, ns: &Vec<(String, String)>) -> (r: QualifiedName)
    requires
        n == s@.len(),
        from <= to <= n,
    ensures
        qview(r) == attr_name_view(s@, from as int, to as int, pairs_view(ns@)),
{
    match colon(s, n, from, to) {
        None => QualifiedName::new(None, None, slice(s, n, from, to)),
        Some(c) => {
            let prefix = slice(s, n, from, c);
            let local = slice(s, n, c + 1, to);
            match lookup(ns, &prefix) {
                Some(uri) => QualifiedName::new(Some(uri), Some(prefix), local),
                None => QualifiedName::new(Some(String::new()), Some(prefix), local),
            }
        },
    }
}


/// The open elements on `stack` are the nodes of the open entries of `st`.
pub open spec fn stack_map(stack: Seq<Node>, made: Seq<Node>, st: ReadState) -> bool {
    &&& stack.len() == st.open.len()
    &&& forall|j: int| 0 <= j < st.open.len() ==> #[trigger] open_ok(stack, made, st, j)
}

/// The open element `j` is an element entry, and its node is `stack[j]`.
pub open spec fn open_ok(stack: Seq<Node>, made: Seq<Node>, st: ReadState, j: int) -> bool {
    &&& 0 <= st.open[j].0 < st.entries.len()
    &&& st.entries[st.open[j].0].kind == NodeType::Element
    &&& stack[j] == made[st.open[j].0]
}

/// The entry for a node made and not yet attached.
pub open spec fn entry_of(r: NodeContent, parent: int) -> Entry {
    Entry { kind: r.t, name: opt_qview(r.name), value: opt_text(r.v), parent, attrs: Seq::empty() }
}

/// Attaches the new node `c` to the innermost open element, or to the
/// document node where none is open.
fn attach_new(t: &mut Tree, stack: &Vec<Node>, c: Node, Ghost(t0): Ghost<Tree>, Ghost(made): Ghost<Seq<Node>>, Ghost(st): Ghost<ReadState>)
    requires
        t0.wf(),
        built(t0, made, st.entries),
        stack_map(stack@, made, st),
        old(t).wf(),
        !t0.has(c),
        old(t).has(c),
        old(t).doc() == t0.doc(),
        old(t).index() == t0.index(),
        old(t).nodes() == t0.nodes().insert(c.key(), old(t).rec(c)),
        old(t).rec(c).parent.is_none(),
        old(t).rec(c).children@.len() == 0,
        old(t).rec(c).attributes@.len() == 0,
        old(t).rec(c).t != NodeType::Attribute,
        old(t).rec(c).t != NodeType::Document,
    ensures
        final(t).wf(),
        final(t).index() == t0.index(),
        final(t).doc() == t0.doc(),
        built(*final(t), made.push(c), st.entries.push(entry_of(old(t).rec(c), top(st)))),
{
    let ghost t1 = *t;
    proof {
        lemma_doc(t0);
    }
    let p = if stack.len() == 0 {
        t.get_doc_node()
    } else {
        proof {
            let j = stack@.len() - 1;
            assert(open_ok(stack@, made, st, j));
            assert(node_matches(t0, made, st.entries, st.open[j].0));
        }
        stack[stack.len() - 1]
    };
    proof {
        assert(t1.rec(p) == t0.rec(p));
        assert(c != p);
        assert forall|i: int, j: int| 0 <= i < made.len() && 0 <= j < t0.rec(made[i]).attributes@.len()
            implies t0.rec(#[trigger] t0.rec(made[i]).attributes@[j]).t == NodeType::Attribute by {
            assert(node_matches(t0, made, st.entries, i));
        }
    }
    t.append_detached(p, c);
    proof {
        lemma_add_node(t0, t1, *t, made, st.entries, c, entry_of(t1.rec(c), top(st)), p);
    }
}


/// The names on `names` are those of the open entries of `st`.
pub open spec fn names_map(names: Seq<String>, st: ReadState) -> bool {
    &&& names.len() == st.open.len()
    &&& forall|j: int| 0 <= j < st.open.len() ==> (#[trigger] names[j])@ == st.open[j].1
}

proof fn lemma_attr_list_none(s: Seq<char>, spans: Seq<(int, int)>, values: Seq<Seq<char>>, ns: Seq<(Seq<char>, Seq<char>)>, j: int, k: int)
    requires
        j <= k,
        attr_list(s, spans, values, ns, j).is_none(),
    ensures
        attr_list(s, spans, values, ns, k).is_none(),
    decreases k - j,
{
    if j < k {
        lemma_attr_list_none(s, spans, values, ns, j, k - 1);
    }
}

/// Reads the start tag at `pos` (after `<`), adds the element and its
/// attributes, and returns the position after the tag.
fn read_element(
    t: &mut Tree,
    s: &str,
    n: usize,
    pos: usize,
    stack: &mut Vec<Node>,
    names: &mut Vec<String>,
    ns: &mut Vec<(String, String)>,
    Ghost(made): Ghost<Seq<Node>>,
    Ghost(st): Ghost<ReadState>,
) -> (r: Result<(usize, Ghost<Seq<Node>>, Ghost<ReadState>), Error>)
    requires
        n == s@.len(),
        pos < n,
        lit_at(s@, pos as int, "<"@),
        !lit_at(s@, pos as int, "<!--"@),
        !lit_at(s@, pos as int, "<![CDATA["@),
        !lit_at(s@, pos as int, "</"@),
        !lit_at(s@, pos as int, "<!"@),
        !lit_at(s@, pos as int, "<?"@),
        old(t).wf(),
        built(*old(t), made, st.entries),
        stack_map(old(stack)@, made, st),
        names_map(old(names)@, st),
        pairs_view(old(ns)@) == st.ns,
    ensures
        final(t).wf(),
        final(t).index() == old(t).index(),
        match r {
            Ok((next, gm, gs)) => read_step(s@, pos as int, st) == Ok::<(int, ReadState), ErrorKind>((next as int, gs@))
                && pos < next <= n
                && built(*final(t), gm@, gs@.entries)
                && stack_map(final(stack)@, gm@, gs@)
                && names_map(final(names)@, gs@)
                && pairs_view(final(ns)@) == gs@.ns,
            Err(e) => read_step(s@, pos as int, st) == Err::<(int, ReadState), ErrorKind>(e.kind),
        },
{
    proof {
        reveal_strlit("<!--");
        reveal_strlit("<![CDATA[");
        reveal_strlit("<!");
        reveal_strlit("xmlns:");
    }
    let e = name_end(s, n, pos + 1);
    if e == pos + 1 {
        return Err(parse_error("malformed start tag"));
    }
    let (spans, values, empty, end) = match read_attributes(s, n, e) {
        Ok(x) => x,
        Err(x) => {
            return Err(x);
        },
    };
    let ghost sv = spans_view(spans@);
    let ghost vv = strs_view(values@);
    let ghost ns0 = ns@;
    let mut j: usize = 0;
    while j < spans.len()
        invariant
            n == s@.len(),
            sv == spans_view(spans@),
            vv == strs_view(values@),
            forall|i: int| 0 <= i < spans@.len() ==> (#[trigger] spans@[i]).0 <= spans@[i].1 <= n,
            j <= spans@.len(),
            pairs_view(ns@) == pairs_view(ns0) + decls(s@, sv, vv, j as int),
            sv.len() == spans@.len(),
            vv.len() == values@.len(),
            spans@.len() == values@.len(),
            attrs_from(s@, e as int, Seq::empty(), Seq::empty()) == Some((sv, vv, empty, end as int)),
            stack@ == old(stack)@,
            names@ == old(names)@,
            stack_map(old(stack)@, made, st),
            names_map(old(names)@, st),
            lit_at(s@, pos as int, "<"@),
            !lit_at(s@, pos as int, "<!--"@),
            !lit_at(s@, pos as int, "<![CDATA["@),
            !lit_at(s@, pos as int, "</"@),
            !lit_at(s@, pos as int, "<!"@),
            !lit_at(s@, pos as int, "<?"@),
        decreases spans@.len() - j,
    {
        proof {
            reveal_strlit("xmlns:");
        }
        let (a, b) = spans[j];
        if at(s, n, a, "xmlns:") && a + 6 <= b {
            let ghost before = ns@;
            ns.push((slice(s, n, a + 6, b), values[j].clone()));
            proof {
                assert(pairs_view(ns@) =~= pairs_view(before).push((s@.subrange(a + 6, b as int), values@[j as int]@)));
            }
        }
        proof {
            assert(sv[j as int] == (a as int, b as int));
            assert(decls(s@, sv, vv, j + 1) =~= decls(s@, sv, vv, j as int) + if is_decl(s@, sv[j as int]) {
                seq![(s@.subrange(a + 6, b as int), vv[j as int])]
            } else {
                Seq::empty()
            });
            assert(pairs_view(ns@) =~= pairs_view(ns0) + decls(s@, sv, vv, j + 1));
        }
        j = j + 1;
    }
    let ghost nsv = pairs_view(ns@);
    let qn = match resolve_element(s, n, pos + 1, e, ns) {
        Ok(q) => q,
        Err(x) => {
            return Err(x);
        },
    };
    let ghost q = qview(qn);
    let ghost t0 = *t;
    let el = match t.new_element(qn) {
        Ok(c) => c,
        Err(x) => {
            return Err(x);
        },
    };
    let ghost t_el = *t;
    attach_new(t, stack, el, Ghost(t0), Ghost(made), Ghost(st));
    let ghost made2 = made.push(el);
    let ghost base = st.entries;
    let ghost mut l: Seq<(QView, Seq<char>)> = Seq::empty();
    let ghost e0 = Entry { kind: NodeType::Element, name: Some(q), value: None, parent: top(st), attrs: Seq::empty() };
    proof {
        assert(entry_of(t_el.rec(el), top(st)) == e0);
    }
    let mut j: usize = 0;
    while j < spans.len()
        invariant
            n == s@.len(),
            sv == spans_view(spans@),
            vv == strs_view(values@),
            sv.len() == spans@.len(),
            vv.len() == values@.len(),
            spans@.len() == values@.len(),
            forall|i: int| 0 <= i < spans@.len() ==> (#[trigger] spans@[i]).0 <= spans@[i].1 <= n,
            j <= spans@.len(),
            nsv == pairs_view(ns@),
            t.wf(),
            t.index() == old(t).index(),
            attr_list(s@, sv, vv, nsv, j as int) == Some(l),
            built(*t, made2, base.push(Entry { attrs: l, ..e0 })),
            made2 == made.push(el),
            base == st.entries,
            made.len() == st.entries.len(),
            e0 == (Entry { kind: NodeType::Element, name: Some(q), value: None, parent: top(st), attrs: Seq::<(QView, Seq<char>)>::empty() }),
            nsv == st.ns + decls(s@, sv, vv, sv.len() as int),
            attrs_from(s@, e as int, Seq::empty(), Seq::empty()) == Some((sv, vv, empty, end as int)),
            name_view(s@, pos + 1, e as int, nsv) == Some(q),
            e == name_end_at(s@, pos + 1),
            pos + 1 < e <= n,
            pos < end <= n,
            stack@ == old(stack)@,
            names@ == old(names)@,
            stack_map(old(stack)@, made, st),
            names_map(old(names)@, st),
            lit_at(s@, pos as int, "<"@),
            !lit_at(s@, pos as int, "<!--"@),
            !lit_at(s@, pos as int, "<![CDATA["@),
            !lit_at(s@, pos as int, "</"@),
            !lit_at(s@, pos as int, "<!"@),
            !lit_at(s@, pos as int, "<?"@),
        decreases spans@.len() - j,
    {
        proof {
            reveal_strlit("xmlns:");
        }
        let (a, b) = spans[j];
        proof {
            assert(sv[j as int] == (a as int, b as int));
        }
        if !(at(s, n, a, "xmlns:") && a + 6 <= b) {
            let an = resolve_attribute(s, n, a, b, ns);
            let ghost es = base.push(Entry { attrs: l, ..e0 });
            proof {
                assert(node_matches(*t, made2, es, base.len() as int));
            }
            let dup = t.attr_named(el, &an);
            proof {
                let ats = t.rec(el).attributes@;
                assert(attrs_match(*t, ats, l));
                if dup {
                    let i = choose|i: int| 0 <= i < ats.len() && same_name(#[trigger] t.attr_name(ats[i]), an);
                    assert(same_view(l[i].0, qview(an)));
                    assert(attr_list(s@, sv, vv, nsv, j + 1).is_none());
                    lemma_attr_list_none(s@, sv, vv, nsv, j + 1, sv.len() as int);
                } else {
                    assert forall|i: int| 0 <= i < l.len() implies !same_view(#[trigger] l[i].0, qview(an)) by {
                        assert(t.has(ats[i]));
                        if same_view(l[i].0, qview(an)) {
                            assert(same_name(t.attr_name(ats[i]), an));
                        }
                    }
                }
            }
            if dup {
                proof {
                    assert(attr_list(s@, sv, vv, nsv, sv.len() as int).is_none());
                    assert(read_step(s@, pos as int, st) == Err::<(int, ReadState), ErrorKind>(ErrorKind::ParseError));
                }
                return Err(parse_error("an attribute appears twice"));
            }
            let ghost t1 = *t;
            let v = values[j].clone();
            let an_node = match t.new_attribute(an, Value::String(v)) {
                Ok(c) => c,
                Err(x) => {
                    return Err(x);
                },
            };
            let ghost t2 = *t;
            proof {
                assert(t2.rec(el) == t1.rec(el));
                assert(t2.attr_name(an_node) == an);
                assert(!t2.has_attr_named(el, t2.attr_name(an_node))) by {
                    if t2.has_attr_named(el, an) {
                        let i = choose|i: int| 0 <= i < t2.rec(el).attributes@.len()
                            && same_name(#[trigger] t2.attr_name(t2.rec(el).attributes@[i]), an);
                        let x = t1.rec(el).attributes@[i];
                        assert(t1.has(x));
                        assert(t2.rec(x) == t1.rec(x));
                    }
                }
            }
            t.attach_detached_attribute(el, an_node);
            proof {
                let pa = (qview(an), vv[j as int]);
                lemma_add_attr(t1, t2, *t, made2, es, an_node, pa);
                assert(es.update(es.len() - 1, with_attr(es.last(), pa)) =~= base.push(Entry { attrs: l.push(pa), ..e0 }));
                l = l.push(pa);
            }
        }
        j = j + 1;
    }
    let ghost idx = base.len() as int;
    let ghost entry = Entry { attrs: l, ..e0 };
    let ghost st2 = ReadState {
        entries: base.push(entry),
        open: if empty { st.open } else { st.open.push((idx, s@.subrange(pos + 1, e as int))) },
        ns: nsv,
    };
    proof {
        assert(attr_list(s@, sv, vv, nsv, sv.len() as int) == Some(l));
        assert(nsv == st.ns + decls(s@, sv, vv, sv.len() as int));
        assert(entry == Entry { kind: NodeType::Element, name: Some(q), value: None, parent: top(st), attrs: l });
        assert(read_step(s@, pos as int, st) == Ok::<(int, ReadState), ErrorKind>((end as int, st2)));
    }
    let ghost stack0 = stack@;
    let ghost names0 = names@;
    if !empty {
        stack.push(el);
        names.push(slice(s, n, pos + 1, e));
    }
    proof {
        assert forall|k: int| 0 <= k < st2.open.len() implies #[trigger] open_ok(stack@, made2, st2, k) by {
            if k < st.open.len() {
                assert(open_ok(stack0, made, st, k));
                assert(stack@[k] == stack0[k]);
                assert(stack0[k] == made[st.open[k].0]);
                assert(st2.open[k] == st.open[k]);
                assert(st2.entries[st.open[k].0] == st.entries[st.open[k].0]);
                assert(made2[st.open[k].0] == made[st.open[k].0]);
            } else {
                assert(!empty);
                assert(st2.open[k] == (idx, s@.subrange(pos + 1, e as int)));
                assert(stack@[k] == el);
                assert(made2[idx] == el);
                assert(st2.entries[idx] == entry);
            }
        }
        assert forall|k: int| 0 <= k < st2.open.len() implies (#[trigger] names@[k])@ == st2.open[k].1 by {
            if k < st.open.len() {
                assert(names@[k] == names0[k]);
            }
        }
    }
    proof {
        assert(built(*t, made2, st2.entries));
        assert(stack@.len() == st2.open.len());
        assert(stack_map(stack@, made2, st2));
        assert(names_map(names@, st2));
        assert(pairs_view(ns@) == st2.ns);
    }
    Ok((end, Ghost(made2), Ghost(st2)))
}


/// The number of top-level nodes is the number of children of the document
/// node.
proof fn lemma_top_level(made: Seq<Node>, es: Seq<Entry>, k: int)
    requires
        0 <= k <= es.len(),
    ensures
        kid_nodes(made, es, -1, k).len() == top_level(es.subrange(0, k)),
    decreases k,
{
    if k > 0 {
        lemma_top_level(made, es, k - 1);
        assert(es.subrange(0, k).drop_last() =~= es.subrange(0, k - 1));
    }
}

/// Adds a node made by the reader under the innermost open element.
fn add_made(t: &mut Tree, stack: &Vec<Node>, c: Node, Ghost(t0): Ghost<Tree>, Ghost(made): Ghost<Seq<Node>>, Ghost(st): Ghost<ReadState>)
    requires
        t0.wf(),
        built(t0, made, st.entries),
        stack_map(stack@, made, st),
        old(t).wf(),
        !t0.has(c),
        old(t).has(c),
        old(t).doc() == t0.doc(),
        old(t).index() == t0.index(),
        old(t).nodes() == t0.nodes().insert(c.key(), old(t).rec(c)),
        old(t).rec(c).parent.is_none(),
        old(t).rec(c).children@.len() == 0,
        old(t).rec(c).attributes@.len() == 0,
        old(t).rec(c).t != NodeType::Attribute,
        old(t).rec(c).t != NodeType::Document,
    ensures
        final(t).wf(),
        final(t).index() == t0.index(),
        built(*final(t), made.push(c), st.entries.push(entry_of(old(t).rec(c), top(st)))),
        stack_map(stack@, made.push(c), ReadState { entries: st.entries.push(entry_of(old(t).rec(c), top(st))), ..st }),
{
    attach_new(t, stack, c, Ghost(t0), Ghost(made), Ghost(st));
    proof {
        let st2 = ReadState { entries: st.entries.push(entry_of(old(t).rec(c), top(st))), ..st };
        assert forall|j: int| 0 <= j < st2.open.len() implies #[trigger] open_ok(stack@, made.push(c), st2, j) by {
            assert(open_ok(stack@, made, st, j));
        }
    }
}

/// Reads the XML text `s` into `t`, a tree that holds its document node
/// alone.
fn read_into(t: &mut Tree, s: &str) -> (r: Result<Ghost<(Seq<Node>, ReadState)>, Error>)
    requires
        old(t).wf(),
        old(t).rec(old(t).doc()).children@.len() == 0,
    ensures
        final(t).wf(),
        final(t).index() == old(t).index(),
        match r {
            Ok(g) => read_from(s@, 0, empty_state()) == Ok::<ReadState, ErrorKind>(g@.1) && built(*final(t), g@.0, g@.1.entries),
            Err(e) => read_from(s@, 0, empty_state()) == Err::<ReadState, ErrorKind>(e.kind),
        },
{
    let n = s.unicode_len();
    let mut pos: usize = 0;
    let mut stack: Vec<Node> = Vec::new();
    let mut names: Vec<String> = Vec::new();
    let mut ns: Vec<(String, String)> = Vec::new();
    let ghost mut made: Seq<Node> = Seq::empty();
    let ghost mut st: ReadState = empty_state();
    let ghost idx = t.index();
    proof {
        assert(t.rec(t.doc()).children@ =~= Seq::<Node>::empty());
        assert(built(*t, made, st.entries));
        assert(pairs_view(ns@) =~= st.ns);
    }
    while pos < n
        invariant
            n == s@.len(),
            pos <= n,
            t.wf(),
            t.index() == idx,
            idx == old(t).index(),
            built(*t, made, st.entries),
            stack_map(stack@, made, st),
            names_map(names@, st),
            pairs_view(ns@) == st.ns,
            read_from(s@, 0, empty_state()) == read_from(s@, pos as int, st),
        decreases n - pos,
    {
        proof {
            reveal_strlit("<!--");
            reveal_strlit("-->");
            reveal_strlit("<![CDATA[");
            reveal_strlit("]]>");
            reveal_strlit("<!");
            reveal_strlit("<?");
            reveal_strlit("?>");
            reveal_strlit("</");
            reveal_strlit("<");
            reveal_strlit(">");
            reveal_strlit("xml");
        }
        let ghost t0 = *t;
        let ghost st0 = st;
        let ghost made0 = made;
        let next: usize;
        if at(s, n, pos, "<!--") {
            let end = match find(s, n, pos + 4, "-->") {
                Some(e) => e,
                None => {
                    return Err(parse_error("unterminated comment"));
                },
            };
            let c = match t.new_comment(Value::String(slice(s, n, pos + 4, end))) {
                Ok(c) => c,
                Err(e) => {
                    return Err(e);
                },
            };
            let ghost rc = t.rec(c);
            add_made(t, &stack, c, Ghost(t0), Ghost(made0), Ghost(st0));
            proof {
                made = made0.push(c);
                st = add_leaf(st0, NodeType::Comment, None, Some(s@.subrange(pos + 4, end as int)));
                assert(entry_of(rc, top(st0)) == st.entries.last());
                assert(st.entries == st0.entries.push(entry_of(rc, top(st0))));
            }
            next = end + 3;
        } else if at(s, n, pos, "<![CDATA[") {
            let end = match find(s, n, pos + 9, "]]>") {
                Some(e) => e,
                None => {
                    return Err(parse_error("unterminated CDATA section"));
                },
            };
            if stack.len() == 0 {
                return Err(parse_error("character data outside the root element"));
            }
            let c = match t.new_text(Value::String(slice(s, n, pos + 9, end))) {
                Ok(c) => c,
                Err(e) => {
                    return Err(e);
                },
            };
            let ghost rc = t.rec(c);
            add_made(t, &stack, c, Ghost(t0), Ghost(made0), Ghost(st0));
            proof {
                made = made0.push(c);
                st = add_leaf(st0, NodeType::Text, None, Some(s@.subrange(pos + 9, end as int)));
                assert(st.entries == st0.entries.push(entry_of(rc, top(st0))));
            }
            next = end + 3;
        } else if at(s, n, pos, "<!") {
            return Err(parse_error("unsupported declaration"));
        } else if at(s, n, pos, "<?") {
            let e = name_end(s, n, pos + 2);
            let end = match find(s, n, e, "?>") {
                Some(x) => x,
                None => {
                    return Err(parse_error("unterminated processing instruction"));
                },
            };
            if e == pos + 2 {
                return Err(parse_error("processing instruction without a target"));
            }
            let target = slice(s, n, pos + 2, e);
            if !target.eq(&String::from_str("xml")) {
                let v0 = skip_space(s, n, e);
                let vstart = if v0 > end { end } else { v0 };
                let v = slice(s, n, vstart, end);
                let c = match t.new_processing_instruction(QualifiedName::new(None, None, target), Value::String(v)) {
                    Ok(c) => c,
                    Err(e) => {
                        return Err(e);
                    },
                };
                let ghost rc = t.rec(c);
                add_made(t, &stack, c, Ghost(t0), Ghost(made0), Ghost(st0));
                proof {
                    made = made0.push(c);
                    st = add_leaf(st0, NodeType::ProcessingInstruction, Some((None, None, s@.subrange(pos + 2, e as int))),
                        Some(s@.subrange(vstart as int, end as int)));
                    assert(st.entries == st0.entries.push(entry_of(rc, top(st0))));
                }
            }
            next = end + 2;
        } else if at(s, n, pos, "</") {
            let e = name_end(s, n, pos + 2);
            let k = skip_space(s, n, e);
            if !at(s, n, k, ">") {
                return Err(parse_error("malformed end tag"));
            }
            let name = slice(s, n, pos + 2, e);
            if names.len() == 0 {
                return Err(parse_error("end tag without start tag"));
            }
            let last = names.len() - 1;
            if !names[last].eq(&name) {
                proof {
                    assert(names@[last as int]@ == st0.open.last().1);
                }
                return Err(parse_error("end tag does not match start tag"));
            }
            proof {
                assert(names@[last as int]@ == st0.open.last().1);
            }
            let ghost sk0 = stack@;
            let ghost nm0 = names@;
            names.pop();
            stack.pop();
            proof {
                st = ReadState { open: st0.open.drop_last(), ..st0 };
                assert forall|j: int| 0 <= j < st.open.len() implies #[trigger] open_ok(stack@, made, st, j) by {
                    assert(open_ok(sk0, made, st0, j));
                    assert(stack@[j] == sk0[j]);
                }
                assert forall|j: int| 0 <= j < st.open.len() implies (#[trigger] names@[j])@ == st.open[j].1 by {
                    assert(names@[j] == nm0[j]);
                }
            }
            next = k + 1;
        } else if at(s, n, pos, "<") {
            let (end, gm, gs) = match read_element(t, s, n, pos, &mut stack, &mut names, &mut ns, Ghost(made0), Ghost(st0)) {
                Ok(x) => x,
                Err(e) => {
                    return Err(e);
                },
            };
            proof {
                made = gm@;
                st = gs@;
            }
            next = end;
        } else {
            let end = match find(s, n, pos, "<") {
                Some(x) => x,
                None => n,
            };
            if stack.len() == 0 {
                if !all_space(s, n, pos, end) {
                    return Err(parse_error("character data outside the root element"));
                }
            } else {
                let c = match t.new_text(Value::String(decode(s, n, pos, end))) {
                    Ok(c) => c,
                    Err(x) => {
                        return Err(x);
                    },
                };
                let ghost rc = t.rec(c);
                add_made(t, &stack, c, Ghost(t0), Ghost(made0), Ghost(st0));
                proof {
                    made = made0.push(c);
                    st = add_leaf(st0, NodeType::Text, None, Some(decoded(s@, pos as int, end as int)));
                    assert(st.entries == st0.entries.push(entry_of(rc, top(st0))));
                }
            }
            next = if end > pos { end } else { pos + 1 };
        }
        proof {
            assert(read_step(s@, pos as int, st0) == Ok::<(int, ReadState), ErrorKind>((next as int, st)));
            assert(pos < next <= n);
            assert(read_from(s@, pos as int, st0) == read_from(s@, next as int, st));
        }
        pos = next;
    }
    if stack.len() > 0 {
        return Err(parse_error("unclosed element"));
    }
    proof {
        assert(read_from(s@, pos as int, st) == Ok::<ReadState, ErrorKind>(st));
        assert(built(*t, made, st.entries));
        assert(read_from(s@, 0, empty_state()) == Ok::<ReadState, ErrorKind>(st));
    }
    Ok(Ghost((made, st)))
}


impl Forest {
    /// Reads the XML text `s` into a new tree and returns its position. It
    /// succeeds exactly when `parse_xml` accepts the text; the document
    /// node's children and their subtrees are then the nodes `parse_xml`
    /// reads, in order, with their kinds, names, values and attributes.
    /// Otherwise it fails with the error `parse_xml` names and adds nothing.
    pub fn grow_tree(&mut self, s: &str) -> (r: Result<TreeIndex, Error>)
        requires
            old(self).wf(),
        ensures
            final(self).wf(),
            r is Ok <==> parse_xml(s@) is Ok,
            r matches Ok(i) ==> i == old(self).trees().len(),
            r matches Ok(i) ==> final(self).trees().len() == old(self).trees().len() + 1,
            r matches Ok(i) ==> final(self).trees().subrange(0, i as int) == old(self).trees(),
            r matches Ok(i) ==> exists|made: Seq<Node>| #[trigger] built(final(self).trees()[i as int], made, parse_xml(s@)->Ok_0),
            r matches Err(e) ==> parse_xml(s@) == Err::<Seq<Entry>, ErrorKind>(e.kind) && *final(self) == *old(self),
    {
        let i = self.tree_count();
        let mut t = Tree::new(i);
        let g = match read_into(&mut t, s) {
            Ok(g) => g,
            Err(e) => {
                return Err(e);
            },
        };
        let ghost made = g@.0;
        let ghost es = g@.1.entries;
        proof {
            lemma_top_level(made, es, es.len() as int);
            assert(es.subrange(0, es.len() as int) =~= es);
        }
        if t.doc_children_len() == 0 {
            return Err(parse_error("no content"));
        }
        let ghost t1 = t;
        let r = self.add_tree(t);
        proof {
            assert(self.trees()[i as int] == t1);
            assert(built(self.trees()[i as int], made, es));
            assert(self.trees().subrange(0, i as int) =~= old(self).trees());
            assert(t1.rec(t1.doc()).children@ == kid_nodes(made, es, -1, es.len() as int));
            assert(top_level(es) > 0);
            assert(parse_xml(s@) == Ok::<Seq<Entry>, ErrorKind>(es));
            assert(parse_xml(s@)->Ok_0 == es);
            assert(built(self.trees()[i as int], made, parse_xml(s@)->Ok_0));
        }
        r
    }
}

} // verus!
