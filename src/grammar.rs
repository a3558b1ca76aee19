//! The XML text that the reader accepts, and what it reads from it.
//!
//! `parse_xml` reads a text from left to right, one construct at a time:
//! comments, CDATA sections, processing instructions (an XML declaration is
//! skipped), start tags with their attributes, end tags, and character data
//! with the five predefined entity references; other `<!` declarations,
//! such as a document type declaration, are not accepted. It yields the
//! nodes read, in
//! document order, each with its kind, name, value, the position of its
//! parent (-1 for the document node) and its attributes; or the kind of
//! error that stops the reading.
//!
//! Namespace prefixes resolve through one flat list of declarations: a
//! declaration read stays in force for the rest of the text, also after its
//! element closes. An element prefix without a declaration is a namespace
//! error; an attribute prefix without one resolves to the empty URI.
use vstd::prelude::*;
use crate::error::ErrorKind;
use crate::forest::NodeType;

verus! {

/// A name as (namespace URI, prefix, local name).
pub type QView = (Option<Seq<char>>, Option<Seq<char>>, Seq<char>);

/// One node read from the text.
pub struct Entry {
    pub kind: NodeType,
    pub name: Option<QView>,
    pub value: Option<Seq<char>>,
    /// The position of the parent among the entries; -1 for the document node.
    pub parent: int,
    pub attrs: Seq<(QView, Seq<char>)>,
}

/// Where the reading stands: the entries so far, the open elements (their
/// positions and names as written), and the namespace declarations read.
pub struct ReadState {
    pub entries: Seq<Entry>,
    pub open: Seq<(int, Seq<char>)>,
    pub ns: Seq<(Seq<char>, Seq<char>)>,
}

pub open spec fn is_ws(c: char) -> bool {
    c == ' ' || c == '\t' || c == '\n' || c == '\r'
}

pub open spec fn ends_name(c: char) -> bool {
    is_ws(c) || c == '/' || c == '>' || c == '=' || c == '?'
}

/// Whether `lit` stands in `s` at `pos`.
pub open spec fn lit_at(s: Seq<char>, pos: int, lit: Seq<char>) -> bool {
    0 <= pos && pos + lit.len() <= s.len() && s.subrange(pos, pos + lit.len()) == lit
}

/// The first position at or after `pos` where `lit` stands.
pub open spec fn find_from(s: Seq<char>, pos: int, lit: Seq<char>) -> Option<int>
    decreases s.len() - pos,
{
    if pos < 0 || pos >= s.len() {
        None
    } else if lit_at(s, pos, lit) {
        Some(pos)
    } else {
        find_from(s, pos + 1, lit)
    }
}

/// The first position at or after `pos` that holds no white space.
pub open spec fn skip_ws(s: Seq<char>, pos: int) -> int
    decreases s.len() - pos,
{
    if pos < 0 || pos >= s.len() || !is_ws(s[pos]) {
        pos
    } else {
        skip_ws(s, pos + 1)
    }
}

/// The end of the name that starts at `pos`.
pub open spec fn name_end_at(s: Seq<char>, pos: int) -> int
    decreases s.len() - pos,
{
    if pos < 0 || pos >= s.len() || ends_name(s[pos]) {
        pos
    } else {
        name_end_at(s, pos + 1)
    }
}

/// Whether `s` holds white space alone from `from` to `to`.
pub open spec fn ws_only(s: Seq<char>, from: int, to: int) -> bool
    decreases to - from,
{
    if from >= to {
        true
    } else {
        is_ws(s[from]) && ws_only(s, from + 1, to)
    }
}

/// The first `:` between `from` and `to`.
pub open spec fn colon_in(s: Seq<char>, from: int, to: int) -> Option<int>
    decreases to - from,
{
    if from >= to {
        None
    } else if s[from] == ':' {
        Some(from)
    } else {
        colon_in(s, from + 1, to)
    }
}

/// The text from `from` to `to` with the predefined entity references
/// replaced; an `&` that starts none of them stands for itself.
pub open spec fn decoded(s: Seq<char>, from: int, to: int) -> Seq<char>
    decreases to - from,
{
    if from >= to {
        Seq::empty()
    } else if s[from] == '&' {
        if lit_at(s, from, "&lt;"@) && from + 4 <= to {
            "<"@ + decoded(s, from + 4, to)
        } else if lit_at(s, from, "&gt;"@) && from + 4 <= to {
            ">"@ + decoded(s, from + 4, to)
        } else if lit_at(s, from, "&amp;"@) && from + 5 <= to {
            "&"@ + decoded(s, from + 5, to)
        } else if lit_at(s, from, "&quot;"@) && from + 6 <= to {
            "\""@ + decoded(s, from + 6, to)
        } else if lit_at(s, from, "&apos;"@) && from + 6 <= to {
            "'"@ + decoded(s, from + 6, to)
        } else {
            "&"@ + decoded(s, from + 1, to)
        }
    } else {
        seq![s[from]] + decoded(s, from + 1, to)
    }
}

/// The URI of the latest declaration of `p` in `ns`.
pub open spec fn lookup_ns(ns: Seq<(Seq<char>, Seq<char>)>, p: Seq<char>) -> Option<Seq<char>>
    decreases ns.len(),
{
    if ns.len() == 0 {
        None
    } else if ns.last().0 == p {
        Some(ns.last().1)
    } else {
        lookup_ns(ns.drop_last(), p)
    }
}

/// The name written from `from` to `to`, its prefix resolved through `ns`;
/// `None` for a prefix without a declaration.
pub open spec fn name_view(s: Seq<char>, from: int, to: int, ns: Seq<(Seq<char>, Seq<char>)>) -> Option<QView> {
    match colon_in(s, from, to) {
        None => Some((None, None, s.subrange(from, to))),
        Some(c) => match lookup_ns(ns, s.subrange(from, c)) {
            Some(u) => Some((Some(u), Some(s.subrange(from, c)), s.subrange(c + 1, to))),
            None => None,
        },
    }
}

/// An attribute name: an undeclared prefix resolves to the empty URI.
pub open spec fn attr_name_view(s: Seq<char>, from: int, to: int, ns: Seq<(Seq<char>, Seq<char>)>) -> QView {
    match name_view(s, from, to, ns) {
        Some(q) => q,
        None => {
            let c = colon_in(s, from, to).unwrap();
            (Some(Seq::empty()), Some(s.subrange(from, c)), s.subrange(c + 1, to))
        },
    }
}

/// The attributes of a start tag from `k` on: the spans of their names and
/// their values, whether the tag closes itself, and the position after it.
pub open spec fn attrs_from(
    s: Seq<char>,
    k: int,
    spans: Seq<(int, int)>,
    values: Seq<Seq<char>>,
) -> Option<(Seq<(int, int)>, Seq<Seq<char>>, bool, int)>
    decreases s.len() - k,
{
    if k < 0 || k >= s.len() {
        None
    } else {
        let k1 = skip_ws(s, k);
        if lit_at(s, k1, "/>"@) {
            Some((spans, values, true, k1 + 2))
        } else if lit_at(s, k1, ">"@) {
            Some((spans, values, false, k1 + 1))
        } else {
            let e = name_end_at(s, k1);
            let v0 = skip_ws(s, e);
            let v = skip_ws(s, v0 + 1);
            let quote = if lit_at(s, v, "'"@) { "'"@ } else { "\""@ };
            if e == k1 || !lit_at(s, v0, "="@) || !(lit_at(s, v, "'"@) || lit_at(s, v, "\""@)) {
                None
            } else {
                match find_from(s, v + 1, quote) {
                    Some(close) => if k < close + 1 <= s.len() {
                        attrs_from(s, close + 1, spans.push((k1, e)), values.push(decoded(s, v + 1, close)))
                    } else {
                        None
                    },
                    None => None,
                }
            }
        }
    }
}

/// Whether the attribute spanning `sp` declares a namespace prefix.
pub open spec fn is_decl(s: Seq<char>, sp: (int, int)) -> bool {
    lit_at(s, sp.0, "xmlns:"@) && sp.0 + 6 <= sp.1
}

/// The namespace declarations among the first `j` attributes.
pub open spec fn decls(s: Seq<char>, spans: Seq<(int, int)>, values: Seq<Seq<char>>, j: int) -> Seq<(Seq<char>, Seq<char>)>
    decreases j,
{
    if j <= 0 {
        Seq::empty()
    } else {
        let sp = spans[j - 1];
        decls(s, spans, values, j - 1) + if is_decl(s, sp) {
            seq![(s.subrange(sp.0 + 6, sp.1), values[j - 1])]
        } else {
            Seq::empty()
        }
    }
}

/// Two names are the same when their URIs and local names are.
pub open spec fn same_view(a: QView, b: QView) -> bool {
    a.0 == b.0 && a.2 == b.2
}

/// The attributes (other than declarations) among the first `j`, in order;
/// an error where one has the name of an earlier one.
pub open spec fn attr_list(
    s: Seq<char>,
    spans: Seq<(int, int)>,
    values: Seq<Seq<char>>,
    ns: Seq<(Seq<char>, Seq<char>)>,
    j: int,
) -> Option<Seq<(QView, Seq<char>)>>
    decreases j,
{
    if j <= 0 {
        Some(Seq::empty())
    } else {
        match attr_list(s, spans, values, ns, j - 1) {
            None => None,
            Some(l) => {
                let sp = spans[j - 1];
                if is_decl(s, sp) {
                    Some(l)
                } else {
                    let q = attr_name_view(s, sp.0, sp.1, ns);
                    if exists|i: int| 0 <= i < l.len() && same_view(#[trigger] l[i].0, q) {
                        None
                    } else {
                        Some(l.push((q, values[j - 1])))
                    }
                }
            }
        }
    }
}

/// The position of the innermost open element; -1 where none is open.
pub open spec fn top(st: ReadState) -> int {
    if st.open.len() == 0 {
        -1
    } else {
        st.open.last().0
    }
}

/// `st` with a node without attributes added under the innermost open
/// element.
pub open spec fn add_leaf(st: ReadState, kind: NodeType, name: Option<QView>, value: Option<Seq<char>>) -> ReadState {
    ReadState {
        entries: st.entries.push(Entry { kind, name, value, parent: top(st), attrs: Seq::empty() }),
        ..st
    }
}

/// One construct read at `pos`: the position after it and the new state.
pub open spec fn read_step(s: Seq<char>, pos: int, st: ReadState) -> Result<(int, ReadState), ErrorKind> {
    if lit_at(s, pos, "<!--"@) {
        match find_from(s, pos + 4, "-->"@) {
            None => Err(ErrorKind::ParseError),
            Some(e) => Ok((e + 3, add_leaf(st, NodeType::Comment, None, Some(s.subrange(pos + 4, e))))),
        }
    } else if lit_at(s, pos, "<![CDATA["@) {
        match find_from(s, pos + 9, "]]>"@) {
            None => Err(ErrorKind::ParseError),
            Some(e) => if st.open.len() == 0 {
                Err(ErrorKind::ParseError)
            } else {
                Ok((e + 3, add_leaf(st, NodeType::Text, None, Some(s.subrange(pos + 9, e)))))
            },
        }
    } else if lit_at(s, pos, "<!"@) {
        Err(ErrorKind::ParseError)
    } else if lit_at(s, pos, "<?"@) {
        let e = name_end_at(s, pos + 2);
        match find_from(s, e, "?>"@) {
            None => Err(ErrorKind::ParseError),
            Some(end) => if e == pos + 2 {
                Err(ErrorKind::ParseError)
            } else if s.subrange(pos + 2, e) == "xml"@ {
                Ok((end + 2, st))
            } else {
                let v0 = skip_ws(s, e);
                let v = if v0 > end { end } else { v0 };
                Ok((end + 2, add_leaf(st, NodeType::ProcessingInstruction,
                    Some((None, None, s.subrange(pos + 2, e))), Some(s.subrange(v, end)))))
            },
        }
    } else if lit_at(s, pos, "</"@) {
        let e = name_end_at(s, pos + 2);
        let k = skip_ws(s, e);
        if !lit_at(s, k, ">"@) || st.open.len() == 0 || st.open.last().1 != s.subrange(pos + 2, e) {
            Err(ErrorKind::ParseError)
        } else {
            Ok((k + 1, ReadState { open: st.open.drop_last(), ..st }))
        }
    } else if lit_at(s, pos, "<"@) {
        let e = name_end_at(s, pos + 1);
        if e == pos + 1 {
            Err(ErrorKind::ParseError)
        } else {
            match attrs_from(s, e, Seq::empty(), Seq::empty()) {
                None => Err(ErrorKind::ParseError),
                Some((spans, values, empty, end)) => {
                    let ns = st.ns + decls(s, spans, values, spans.len() as int);
                    match name_view(s, pos + 1, e, ns) {
                        None => Err(ErrorKind::NamespaceError),
                        Some(q) => match attr_list(s, spans, values, ns, spans.len() as int) {
                            None => Err(ErrorKind::ParseError),
                            Some(attrs) => {
                                let idx = st.entries.len() as int;
                                let entry = Entry { kind: NodeType::Element, name: Some(q), value: None, parent: top(st), attrs };
                                Ok((end, ReadState {
                                    entries: st.entries.push(entry),
                                    open: if empty { st.open } else { st.open.push((idx, s.subrange(pos + 1, e))) },
                                    ns,
                                }))
                            },
                        },
                    }
                },
            }
        }
    } else {
        let end = match find_from(s, pos, "<"@) {
            Some(x) => x,
            None => s.len() as int,
        };
        let next = if end > pos { end } else { pos + 1 };
        if st.open.len() == 0 {
            if ws_only(s, pos, end) {
                Ok((next, st))
            } else {
                Err(ErrorKind::ParseError)
            }
        } else {
            Ok((next, add_leaf(st, NodeType::Text, None, Some(decoded(s, pos, end)))))
        }
    }
}

/// Reads the rest of `s` from `pos`.
pub open spec fn read_from(s: Seq<char>, pos: int, st: ReadState) -> Result<ReadState, ErrorKind>
    decreases s.len() - pos,
{
    if pos < 0 || pos >= s.len() {
        if st.open.len() > 0 {
            Err(ErrorKind::ParseError)
        } else {
            Ok(st)
        }
    } else {
        match read_step(s, pos, st) {
            Err(k) => Err(k),
            Ok((next, st2)) => if pos < next <= s.len() {
                read_from(s, next, st2)
            } else {
                Err(ErrorKind::ParseError)
            },
        }
    }
}

pub open spec fn empty_state() -> ReadState {
    ReadState { entries: Seq::empty(), open: Seq::empty(), ns: Seq::empty() }
}

/// The number of top-level nodes among `es`.
pub open spec fn top_level(es: Seq<Entry>) -> nat
    decreases es.len(),
{
    if es.len() == 0 {
        0
    } else {
        top_level(es.drop_last()) + if es.last().parent == -1 { 1nat } else { 0nat }
    }
}

/// What the text `s` holds: its nodes in document order, or why it is not
/// accepted. A text with no top-level node is not accepted.
pub open spec fn parse_xml(s: Seq<char>) -> Result<Seq<Entry>, ErrorKind> {
    match read_from(s, 0, empty_state()) {
        Err(k) => Err(k),
        Ok(st) => if top_level(st.entries) > 0 {
            Ok(st.entries)
        } else {
            Err(ErrorKind::ParseError)
        },
    }
}

} // verus!
