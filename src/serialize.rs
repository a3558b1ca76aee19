//! Serialisation of subtrees as XML text, the string value of a node, and
//! the descendants of a node in document order.
//!
//! Each definition walks at most `fuel` levels down; callers pass the number
//! of nodes of the tree, which bounds the depth of any subtree in it.
use vstd::prelude::*;
use vstd::string::*;
use crate::forest::{Forest, Node, NodeType, lemma_record};
use crate::qname::{QualifiedName, name_text};
use crate::value::value_text;
use crate::error::{Error, ErrorKind};
use crate::output::OutputDefinition;

verus! {

/// How one character is written in text (`attr` false) or in an attribute
/// value between single quotes (`attr` true).
pub open spec fn escape_char(c: char, attr: bool) -> Seq<char> {
    if c == '&' {
        "&amp;"@
    } else if c == '<' {
        "&lt;"@
    } else if c == '>' {
        "&gt;"@
    } else if attr && c == '\'' {
        "&apos;"@
    } else {
        seq![c]
    }
}

/// `s` with each character escaped.
pub open spec fn escaped(s: Seq<char>, attr: bool) -> Seq<char>
    decreases s.len(),
{
    if s.len() == 0 {
        Seq::empty()
    } else {
        escaped(s.drop_last(), attr) + escape_char(s.last(), attr)
    }
}

/// The namespace declaration written on an element with a prefixed name
/// bound to a namespace URI.
pub open spec fn ns_decl(q: QualifiedName) -> Seq<char> {
    match (q.prefix, q.nsuri) {
        (Some(p), Some(u)) => " xmlns:"@ + p@ + "='"@ + u@ + "'"@,
        _ => Seq::empty(),
    }
}

/// One attribute as written in a start tag.
pub open spec fn attr_xml(f: Forest, a: Node) -> Seq<char> {
    let r = f.rec(a);
    " "@ + name_text(r.name.unwrap()) + "='"@ + escaped(value_text(r.v.unwrap()), true) + "'"@
}

/// A sequence of attributes as written in a start tag.
pub open spec fn attrs_xml(f: Forest, s: Seq<Node>) -> Seq<char>
    decreases s.len(),
{
    if s.len() == 0 {
        Seq::empty()
    } else {
        attrs_xml(f, s.drop_last()) + attr_xml(f, s.last())
    }
}

/// The XML text of the subtree of `n`.
pub open spec fn xml_of(f: Forest, n: Node, fuel: nat) -> Seq<char>
    decreases fuel, 0nat,
{
    if fuel == 0 || !f.valid(n) {
        Seq::empty()
    } else {
        let r = f.rec(n);
        match r.t {
            NodeType::Element => {
                let nm = name_text(r.name.unwrap());
                "<"@ + nm + ns_decl(r.name.unwrap()) + attrs_xml(f, r.attributes@) + ">"@
                    + children_xml(f, r.children@, (fuel - 1) as nat) + "</"@ + nm + ">"@
            },
            NodeType::Text => escaped(value_text(r.v.unwrap()), false),
            NodeType::Comment => "<!--"@ + value_text(r.v.unwrap()) + "-->"@,
            NodeType::ProcessingInstruction => "<?"@ + name_text(r.name.unwrap()) + " "@ + value_text(
                r.v.unwrap(),
            ) + "?>"@,
            NodeType::Document => children_xml(f, r.children@, (fuel - 1) as nat),
            _ => Seq::empty(),
        }
    }
}

/// The XML text of a sequence of sibling subtrees.
pub open spec fn children_xml(f: Forest, s: Seq<Node>, fuel: nat) -> Seq<char>
    decreases fuel, s.len() + 1,
{
    if s.len() == 0 {
        Seq::empty()
    } else {
        children_xml(f, s.drop_last(), fuel) + xml_of(f, s.last(), fuel)
    }
}

/// The text held by the subtree of `n`: the values of its text nodes, in
/// document order.
pub open spec fn text_of(f: Forest, n: Node, fuel: nat) -> Seq<char>
    decreases fuel, 0nat,
{
    if fuel == 0 || !f.valid(n) {
        Seq::empty()
    } else {
        let r = f.rec(n);
        match r.t {
            NodeType::Text => value_text(r.v.unwrap()),
            NodeType::Element => children_text(f, r.children@, (fuel - 1) as nat),
            _ => Seq::empty(),
        }
    }
}

pub open spec fn children_text(f: Forest, s: Seq<Node>, fuel: nat) -> Seq<char>
    decreases fuel, s.len() + 1,
{
    if s.len() == 0 {
        Seq::empty()
    } else {
        children_text(f, s.drop_last(), fuel) + text_of(f, s.last(), fuel)
    }
}

/// The string value of a node: the text of an element's subtree, the value
/// of a text, attribute or comment node, and nothing for other nodes.
pub open spec fn string_value(f: Forest, n: Node) -> Seq<char> {
    if !f.valid(n) {
        Seq::empty()
    } else {
        let r = f.rec(n);
        match r.t {
            NodeType::Element => text_of(f, n, f.tree(n).nodes().len()),
            NodeType::Text | NodeType::Attribute | NodeType::Comment => value_text(r.v.unwrap()),
            _ => Seq::empty(),
        }
    }
}

/// The descendants of `n` in document order (pre-order), `n` excluded.
pub open spec fn desc_of(f: Forest, n: Node, fuel: nat) -> Seq<Node>
    decreases fuel, 0nat,
{
    if fuel == 0 || !f.valid(n) {
        Seq::empty()
    } else {
        children_desc(f, f.rec(n).children@, (fuel - 1) as nat)
    }
}

/// Each node of `s` followed by its descendants, in order.
pub open spec fn children_desc(f: Forest, s: Seq<Node>, fuel: nat) -> Seq<Node>
    decreases fuel, s.len() + 1,
{
    if s.len() == 0 {
        Seq::empty()
    } else {
        children_desc(f, s.drop_last(), fuel) + seq![s.last()] + desc_of(f, s.last(), fuel)
    }
}

/// Appends `s` to `out`, escaped.
pub fn push_escaped(out: &mut String, s: &str, attr: bool)
    ensures
        final(out)@ == old(out)@ + escaped(s@, attr),
{
    let n = s.unicode_len();
    let mut i: usize = 0;
    while i < n
        invariant
            n == s@.len(),
            i <= n,
            out@ == old(out)@ + escaped(s@.subrange(0, i as int), attr),
        decreases n - i,
    {
        let c = s.get_char(i);
        let ghost before = out@;
        if c == '&' {
            out.append("&amp;");
        } else if c == '<' {
            out.append("&lt;");
        } else if c == '>' {
            out.append("&gt;");
        } else if attr && c == '\'' {
            out.append("&apos;");
        } else {
            out.append(s.substring_char(i, i + 1));
            assert(s@.subrange(i as int, i + 1) =~= seq![c]);
        }
        proof {
            let t = s@.subrange(0, i + 1);
            assert(t.drop_last() =~= s@.subrange(0, i as int));
            assert(t.last() == c);
            assert(out@ =~= old(out)@ + escaped(t, attr));
        }
        i = i + 1;
    }
    assert(s@.subrange(0, n as int) =~= s@);
}


/// Appends the XML text of the subtree of `n` to `out`.
fn write_node(f: &Forest, n: Node, fuel: usize, out: &mut String)
    requires
        f.wf(),
    ensures
        final(out)@ == old(out)@ + xml_of(*f, n, fuel as nat),
    decreases fuel, 1nat,
{
    if fuel == 0 {
        return;
    }
    match f.content(n) {
        None => {},
        Some(r) => {
            proof {
                lemma_record(*f, n);
            }
            match r.t {
                NodeType::Element => {
                    write_element(f, n, fuel, out);
                },
                NodeType::Text => {
                    let v = r.v.as_ref().unwrap().to_string();
                    push_escaped(out, v.as_str(), false);
                },
                NodeType::Comment => {
                    let v = r.v.as_ref().unwrap().to_string();
                    out.append("<!--");
                    out.append(v.as_str());
                    out.append("-->");
                    proof {
                        assert(out@ =~= old(out)@ + xml_of(*f, n, fuel as nat));
                    }
                },
                NodeType::ProcessingInstruction => {
                    let nm = r.name.as_ref().unwrap().to_string();
                    let v = r.v.as_ref().unwrap().to_string();
                    out.append("<?");
                    out.append(nm.as_str());
                    out.append(" ");
                    out.append(v.as_str());
                    out.append("?>");
                    proof {
                        assert(out@ =~= old(out)@ + xml_of(*f, n, fuel as nat));
                    }
                },
                NodeType::Document => {
                    write_children(f, &r.children, fuel - 1, out);
                },
                _ => {},
            }
        },
    }
}

/// Appends the XML text of the element `n`.
fn write_element(f: &Forest, n: Node, fuel: usize, out: &mut String)
    requires
        f.wf(),
        f.valid(n),
        f.rec(n).t == NodeType::Element,
        fuel > 0,
    ensures
        final(out)@ == old(out)@ + xml_of(*f, n, fuel as nat),
    decreases fuel, 0nat,
{
    let r = f.content(n).unwrap();
    proof {
        lemma_record(*f, n);
    }
    let qn = r.name.as_ref().unwrap();
    let nm = qn.to_string();
    out.append("<");
    out.append(nm.as_str());
    match (&qn.prefix, &qn.nsuri) {
        (Some(p), Some(u)) => {
            out.append(" xmlns:");
            out.append(p.as_str());
            out.append("='");
            out.append(u.as_str());
            out.append("'");
        },
        _ => {},
    }
    let ghost head = out@;
    proof {
        assert(head =~= old(out)@ + "<"@ + nm@ + ns_decl(*qn));
    }
    write_attrs(f, &r.attributes, out);
    out.append(">");
    write_children(f, &r.children, fuel - 1, out);
    out.append("</");
    out.append(nm.as_str());
    out.append(">");
    proof {
        assert(out@ =~= old(out)@ + xml_of(*f, n, fuel as nat));
    }
}

/// Appends the XML text of each subtree in `cs` to `out`.
fn write_children(f: &Forest, cs: &Vec<Node>, fuel: usize, out: &mut String)
    requires
        f.wf(),
    ensures
        final(out)@ == old(out)@ + children_xml(*f, cs@, fuel as nat),
    decreases fuel, cs@.len() + 2,
{
    let mut i: usize = 0;
    while i < cs.len()
        invariant
            f.wf(),
            i <= cs@.len(),
            out@ == old(out)@ + children_xml(*f, cs@.subrange(0, i as int), fuel as nat),
        decreases cs@.len() - i,
    {
        write_node(f, cs[i], fuel, out);
        proof {
            let t = cs@.subrange(0, i + 1);
            assert(t.drop_last() =~= cs@.subrange(0, i as int));
            assert(out@ =~= old(out)@ + children_xml(*f, t, fuel as nat));
        }
        i = i + 1;
    }
    assert(cs@.subrange(0, cs@.len() as int) =~= cs@);
}

/// Appends the attributes `attrs` as written in a start tag.
fn write_attrs(f: &Forest, attrs: &Vec<Node>, out: &mut String)
    requires
        f.wf(),
        forall|j: int| 0 <= j < attrs@.len() ==> f.valid(#[trigger] attrs@[j]) && f.rec(attrs@[j]).t == NodeType::Attribute,
    ensures
        final(out)@ == old(out)@ + attrs_xml(*f, attrs@),
{
    let mut i: usize = 0;
    while i < attrs.len()
        invariant
            f.wf(),
            forall|j: int| 0 <= j < attrs@.len() ==> f.valid(#[trigger] attrs@[j]) && f.rec(attrs@[j]).t == NodeType::Attribute,
            i <= attrs@.len(),
            out@ == old(out)@ + attrs_xml(*f, attrs@.subrange(0, i as int)),
        decreases attrs@.len() - i,
    {
        let a = attrs[i];
        let r = f.content(a).unwrap();
        proof {
            lemma_record(*f, a);
        }
        let nm = r.name.as_ref().unwrap().to_string();
        let v = r.v.as_ref().unwrap().to_string();
        let ghost before = out@;
        out.append(" ");
        out.append(nm.as_str());
        out.append("='");
        push_escaped(out, v.as_str(), true);
        out.append("'");
        proof {
            let t = attrs@.subrange(0, i + 1);
            assert(t.drop_last() =~= attrs@.subrange(0, i as int));
            assert(out@ =~= before + attr_xml(*f, a));
            assert(out@ =~= old(out)@ + attrs_xml(*f, t));
        }
        i = i + 1;
    }
    assert(attrs@.subrange(0, attrs@.len() as int) =~= attrs@);
}

impl Node {
    /// The subtree of this node as XML text: elements with their attributes
    /// and content, text escaped, comments and processing instructions as
    /// written in XML. A document node gives the text of its children.
    pub fn to_xml(&self, f: &Forest) -> (r: String)
        requires
            f.wf(),
        ensures
            r@ == xml_of(*f, *self, f.tree(*self).nodes().len()),
    {
        let mut out = String::new();
        match f.get_ref(self.tree) {
            Some(t) => {
                let fuel = t.node_count();
                write_node(f, *self, fuel, &mut out);
            },
            None => {},
        }
        proof {
            assert(out@ =~= xml_of(*f, *self, f.tree(*self).nodes().len()));
        }
        out
    }
}


/// Appends the text held by the subtree of `n`.
fn write_text(f: &Forest, n: Node, fuel: usize, out: &mut String)
    requires
        f.wf(),
    ensures
        final(out)@ == old(out)@ + text_of(*f, n, fuel as nat),
    decreases fuel, 1nat,
{
    if fuel == 0 {
        return;
    }
    match f.content(n) {
        None => {},
        Some(r) => {
            proof {
                lemma_record(*f, n);
            }
            match r.t {
                NodeType::Text => {
                    let v = r.v.as_ref().unwrap().to_string();
                    out.append(v.as_str());
                },
                NodeType::Element => {
                    write_children_text(f, &r.children, fuel - 1, out);
                },
                _ => {},
            }
        },
    }
}

fn write_children_text(f: &Forest, cs: &Vec<Node>, fuel: usize, out: &mut String)
    requires
        f.wf(),
    ensures
        final(out)@ == old(out)@ + children_text(*f, cs@, fuel as nat),
    decreases fuel, cs@.len() + 2,
{
    let mut i: usize = 0;
    while i < cs.len()
        invariant
            f.wf(),
            i <= cs@.len(),
            out@ == old(out)@ + children_text(*f, cs@.subrange(0, i as int), fuel as nat),
        decreases cs@.len() - i,
    {
        write_text(f, cs[i], fuel, out);
        proof {
            let t = cs@.subrange(0, i + 1);
            assert(t.drop_last() =~= cs@.subrange(0, i as int));
            assert(out@ =~= old(out)@ + children_text(*f, t, fuel as nat));
        }
        i = i + 1;
    }
    assert(cs@.subrange(0, cs@.len() as int) =~= cs@);
}

impl Node {
    /// The string value of this node: the text of an element's subtree, the
    /// value of a text, attribute or comment node, and nothing otherwise.
    pub fn to_string(&self, f: &Forest) -> (r: String)
        requires
            f.wf(),
        ensures
            r@ == string_value(*f, *self),
    {
        match f.content(*self) {
            None => String::new(),
            Some(r) => {
                proof {
                    lemma_record(*f, *self);
                }
                match r.t {
                    NodeType::Element => {
                        let mut out = String::new();
                        let fuel = f.get_ref(self.tree).unwrap().node_count();
                        write_text(f, *self, fuel, &mut out);
                        proof {
                            assert(out@ =~= string_value(*f, *self));
                        }
                        out
                    },
                    NodeType::Text | NodeType::Attribute | NodeType::Comment => r.v.as_ref().unwrap().to_string(),
                    _ => String::new(),
                }
            },
        }
    }
}


impl Node {
    /// Serialisation under an output definition: not provided.
    pub fn to_xml_with_options(&self, _f: &Forest, _od: &OutputDefinition) -> (r: Result<String, Error>)
        ensures
            r matches Err(e) && e.kind == ErrorKind::NotImplemented,
    {
        Err(Error::new(ErrorKind::NotImplemented, String::from_str("not implemented yet")))
    }

    /// Serialisation as JSON: not provided.
    pub fn to_json(&self, _f: &Forest) -> (r: Result<String, Error>)
        ensures
            r matches Err(e) && e.kind == ErrorKind::NotImplemented,
    {
        Err(Error::new(ErrorKind::NotImplemented, String::from_str("not implemented yet")))
    }
}


pub open spec fn is_digit(c: char) -> bool {
    '0' <= c <= '9'
}

/// The number that a string of decimal digits writes.
pub open spec fn digits_value(s: Seq<char>) -> int
    decreases s.len(),
{
    if s.len() == 0 {
        0
    } else {
        digits_value(s.drop_last()) * 10 + (s.last() as int - '0' as int)
    }
}

/// `s` without its leading sign, if it has one.
pub open spec fn int_body(s: Seq<char>) -> Seq<char> {
    if s.len() > 0 && (s[0] == '-' || s[0] == '+') {
        s.drop_first()
    } else {
        s
    }
}

/// The integer that `s` writes: an optional sign, then one or more decimal
/// digits, within the range of `i64`.
pub open spec fn decimal_int(s: Seq<char>) -> Option<int> {
    let body = int_body(s);
    let v = if s.len() > 0 && s[0] == '-' { -digits_value(body) } else { digits_value(body) };
    if body.len() > 0 && (forall|i: int| 0 <= i < body.len() ==> is_digit(#[trigger] body[i]))
        && i64::MIN <= v <= i64::MAX {
        Some(v)
    } else {
        None
    }
}

/// Reads a decimal integer.
pub fn parse_int(s: &str) -> (r: Option<i64>)
    ensures
        match r {
            Some(x) => decimal_int(s@) == Some(x as int),
            None => decimal_int(s@).is_none(),
        },
{
    let n = s.unicode_len();
    if n == 0 {
        return None;
    }
    let first = s.get_char(0);
    let neg = first == '-';
    let start: usize = if first == '-' || first == '+' { 1 } else { 0 };
    let ghost body = int_body(s@);
    proof {
        if start == 1 {
            assert(body =~= s@.subrange(1, n as int));
        } else {
            assert(body =~= s@.subrange(0, n as int));
        }
    }
    if start >= n {
        return None;
    }
    let cap: i128 = 9223372036854775809;
    let mut acc: i128 = 0;
    let mut k: usize = start;
    while k < n
        invariant
            n == s@.len(),
            start <= k <= n,
            start == 0 || start == 1,
            body == s@.subrange(start as int, n as int),
            body == int_body(s@),
            neg == (s@[0] == '-'),
            n > 0,
            cap == 9223372036854775809,
            forall|i: int| 0 <= i < k - start ==> is_digit(#[trigger] body[i]),
            0 <= acc <= cap,
            acc == if digits_value(body.subrange(0, k - start)) < cap {
                digits_value(body.subrange(0, k - start))
            } else {
                cap as int
            },
        decreases n - k,
    {
        let c = s.get_char(k);
        if !('0' <= c && c <= '9') {
            proof {
                assert(body[k - start] == c);
            }
            return None;
        }
        let d = (c as u32 - '0' as u32) as i128;
        let ghost prev = digits_value(body.subrange(0, k - start));
        proof {
            let t = body.subrange(0, k + 1 - start);
            assert(t.drop_last() =~= body.subrange(0, k - start));
            assert(t.last() == c);
            assert(digits_value(t) == prev * 10 + d);
            assert(prev >= 0) by {
                lemma_digits_nonneg(body.subrange(0, k - start));
            }
            if prev >= cap {
                assert(prev * 10 + d >= cap) by (nonlinear_arith)
                    requires prev >= cap, d >= 0, cap > 0;
            }
        }
        acc = if acc >= cap { cap } else {
            let v = acc * 10 + d;
            if v < cap { v } else { cap }
        };
        k = k + 1;
    }
    proof {
        assert(body.subrange(0, n - start) =~= body);
    }
    if neg {
        if acc <= 9223372036854775808 {
            Some((0 - acc) as i64)
        } else {
            None
        }
    } else {
        if acc <= 9223372036854775807 {
            Some(acc as i64)
        } else {
            None
        }
    }
}

proof fn lemma_digits_nonneg(s: Seq<char>)
    requires
        forall|i: int| 0 <= i < s.len() ==> is_digit(#[trigger] s[i]),
    ensures
        digits_value(s) >= 0,
    decreases s.len(),
{
    if s.len() > 0 {
        lemma_digits_nonneg(s.drop_last());
    }
}

impl Node {
    /// The string value of this node read as a decimal integer.
    pub fn to_int(&self, f: &Forest) -> (r: Result<i64, Error>)
        requires
            f.wf(),
        ensures
            match decimal_int(string_value(*f, *self)) {
                Some(v) => r matches Ok(x) && x == v,
                None => r matches Err(e) && e.kind == ErrorKind::TypeError,
            },
    {
        let sv = self.to_string(f);
        match parse_int(sv.as_str()) {
            Some(x) => Ok(x),
            None => Err(Error::new(ErrorKind::TypeError, String::from_str("not an integer"))),
        }
    }
}


/// The descendants still to come from one frame: those of the children of
/// `p` from position `i` on, each followed by its own, with `fuel` levels
/// left below them.
pub open spec fn frame_rest(f: Forest, p: Node, i: int, fuel: nat) -> Seq<Node> {
    let cs = f.rec(p).children@;
    if f.valid(p) && 0 <= i <= cs.len() {
        children_desc(f, cs.subrange(i, cs.len() as int), fuel)
    } else {
        Seq::empty()
    }
}

/// The descendants still to come from a stack of frames, the innermost
/// frame (the last) first.
pub open spec fn frames_rest(f: Forest, st: Seq<(Node, usize, usize)>) -> Seq<Node>
    decreases st.len(),
{
    if st.len() == 0 {
        Seq::empty()
    } else {
        let top = st.last();
        frame_rest(f, top.0, top.1 as int, top.2 as nat) + frames_rest(f, st.drop_last())
    }
}

proof fn lemma_children_desc_concat(f: Forest, a: Seq<Node>, b: Seq<Node>, fuel: nat)
    ensures
        children_desc(f, a + b, fuel) == children_desc(f, a, fuel) + children_desc(f, b, fuel),
    decreases b.len(),
{
    if b.len() == 0 {
        assert(a + b =~= a);
    } else {
        assert((a + b).drop_last() =~= a + b.drop_last());
        assert((a + b).last() == b.last());
        lemma_children_desc_concat(f, a, b.drop_last(), fuel);
    }
}

/// The descendants from a non-empty sequence of siblings start with the
/// first of them and its descendants.
proof fn lemma_children_desc_first(f: Forest, s: Seq<Node>, fuel: nat)
    requires
        s.len() > 0,
    ensures
        children_desc(f, s, fuel) == seq![s[0]] + desc_of(f, s[0], fuel) + children_desc(f, s.drop_first(), fuel),
{
    assert(s =~= seq![s[0]] + s.drop_first());
    lemma_children_desc_concat(f, seq![s[0]], s.drop_first(), fuel);
    let one = seq![s[0]];
    assert(one.drop_last() =~= Seq::<Node>::empty());
    assert(children_desc(f, one, fuel) == children_desc(f, Seq::<Node>::empty(), fuel) + seq![s[0]] + desc_of(f, s[0], fuel));
    assert(children_desc(f, one, fuel) =~= seq![s[0]] + desc_of(f, s[0], fuel));
}

/// A cursor over the descendants of a node in document order. It holds a
/// stack of frames (a parent, the position of its next child, and how many
/// levels may still be walked below) and reads the forest on each step.
pub struct Descendants {
    stack: Vec<(Node, usize, usize)>,
}

impl Descendants {
    /// The descendants that the cursor has still to yield from `f`.
    pub closed spec fn remaining(self, f: Forest) -> Seq<Node> {
        frames_rest(f, self.stack@)
    }

    /// The next descendant; the cursor moves past it.
    pub fn next(&mut self, f: &Forest) -> (r: Option<Node>)
        requires
            f.wf(),
        ensures
            r == if old(self).remaining(*f).len() > 0 { Some(old(self).remaining(*f)[0]) } else { None },
            final(self).remaining(*f) == if old(self).remaining(*f).len() > 0 {
                old(self).remaining(*f).drop_first()
            } else {
                old(self).remaining(*f)
            },
    {
        while self.stack.len() > 0
            invariant
                f.wf(),
                frames_rest(*f, self.stack@) == frames_rest(*f, old(self).stack@),
            decreases self.stack@.len(),
        {
            let ghost st = self.stack@;
            let k = self.stack.len() - 1;
            let (p, i, fuel) = self.stack[k];
            let next_child = match f.content(p) {
                Some(rec) => if i < rec.children.len() {
                    Some(rec.children[i])
                } else {
                    None
                },
                None => None,
            };
            match next_child {
                Some(c) => {
                    self.stack.set(k, (p, i + 1, fuel));
                    if fuel > 0 {
                        self.stack.push((c, 0, fuel - 1));
                    }
                    proof {
                        let cs = f.rec(p).children@;
                        let tail = cs.subrange(i as int, cs.len() as int);
                        lemma_children_desc_first(*f, tail, fuel as nat);
                        assert(tail[0] == c);
                        assert(tail.drop_first() =~= cs.subrange(i + 1, cs.len() as int));
                        let below = st.drop_last();
                        assert(self.stack@.subrange(0, k as int) =~= below);
                        let upd = below.push((p, (i + 1) as usize, fuel));
                        assert(upd.drop_last() =~= below);
                        assert(upd.last() == (p, (i + 1) as usize, fuel));
                        let rest_p = frame_rest(*f, p, i + 1, fuel as nat);
                        assert(rest_p == children_desc(*f, cs.subrange(i + 1, cs.len() as int), fuel as nat));
                        assert(frames_rest(*f, upd) == rest_p + frames_rest(*f, below));
                        assert(st.last() == (p, i, fuel));
                        assert(frames_rest(*f, st) == frame_rest(*f, p, i as int, fuel as nat) + frames_rest(*f, below));
                        assert(frame_rest(*f, p, i as int, fuel as nat) == children_desc(*f, tail, fuel as nat));
                        if fuel > 0 {
                            assert(self.stack@ =~= upd.push((c, 0usize, (fuel - 1) as usize)));
                            assert(self.stack@.drop_last() =~= upd);
                            if f.valid(c) {
                                let cc = f.rec(c).children@;
                                assert(cc.subrange(0, cc.len() as int) =~= cc);
                            }
                            assert(frame_rest(*f, c, 0, (fuel - 1) as nat) == desc_of(*f, c, fuel as nat));
                            assert(frames_rest(*f, self.stack@) == frame_rest(*f, c, 0, (fuel - 1) as nat) + frames_rest(*f, upd));
                        } else {
                            assert(self.stack@ =~= upd);
                            assert(desc_of(*f, c, 0) =~= Seq::<Node>::empty());
                        }
                        assert(frames_rest(*f, st) =~= seq![c] + frames_rest(*f, self.stack@));
                    }
                    return Some(c);
                },
                None => {
                    self.stack.pop();
                    proof {
                        assert(self.stack@ =~= st.drop_last());
                        let cs = f.rec(p).children@;
                        if f.valid(p) && i <= cs.len() {
                            assert(cs.subrange(i as int, cs.len() as int) =~= Seq::<Node>::empty());
                        }
                        assert(frame_rest(*f, p, i as int, fuel as nat) =~= Seq::<Node>::empty());
                        assert(frames_rest(*f, st) =~= frames_rest(*f, self.stack@));
                    }
                },
            }
        }
        None
    }
}

impl Node {
    /// A cursor over the descendants of this node in document order (the
    /// node itself excluded).
    pub fn descend_iter(&self, f: &Forest) -> (r: Descendants)
        requires
            f.wf(),
        ensures
            r.remaining(*f) == desc_of(*f, *self, f.tree(*self).nodes().len()),
    {
        let mut stack: Vec<(Node, usize, usize)> = Vec::new();
        match f.get_ref(self.tree) {
            Some(t) => {
                let fuel = t.node_count();
                if fuel > 0 && f.content(*self).is_some() {
                    stack.push((*self, 0, fuel - 1));
                    proof {
                        let cs = f.rec(*self).children@;
                        assert(cs.subrange(0, cs.len() as int) =~= cs);
                        assert(stack@.drop_last() =~= Seq::<(Node, usize, usize)>::empty());
                        assert(frames_rest(*f, stack@) == frame_rest(*f, *self, 0, (fuel - 1) as nat)
                            + frames_rest(*f, Seq::<(Node, usize, usize)>::empty()));
                        assert(frames_rest(*f, stack@) =~= desc_of(*f, *self, fuel as nat));
                    }
                }
            },
            None => {},
        }
        proof {
            if stack@.len() == 0 {
                assert(frames_rest(*f, stack@) =~= Seq::<Node>::empty());
                assert(desc_of(*f, *self, f.tree(*self).nodes().len()) =~= Seq::<Node>::empty());
            }
        }
        Descendants { stack }
    }
}

} // verus!
