use xdm_forest::error::ErrorKind;
use xdm_forest::forest::{Forest, Node, NodeBuilder, NodeContent, NodeType, TreeIndex};
use xdm_forest::output::OutputDefinition;
use xdm_forest::qname::QualifiedName;
use xdm_forest::serialize::parse_int;
use xdm_forest::value::Value;

fn qn(s: &str) -> QualifiedName {
    QualifiedName::new(None, None, String::from(s))
}

fn sv(s: &str) -> Value {
    Value::String(String::from(s))
}

fn element(f: &mut Forest, ti: TreeIndex, name: &str) -> Node {
    f.get_ref_mut(ti).unwrap().new_element(qn(name)).unwrap()
}

fn text_node(f: &mut Forest, ti: TreeIndex, s: &str) -> Node {
    f.get_ref_mut(ti).unwrap().new_text(sv(s)).unwrap()
}

fn rooted(f: &mut Forest, name: &str) -> (TreeIndex, Node) {
    let ti = f.plant_tree();
    let e = element(f, ti, name);
    f.get_ref_mut(ti).unwrap().push_doc_node(e).unwrap();
    (ti, e)
}

fn children_of(f: &Forest, n: Node) -> Vec<Node> {
    let mut v = Vec::new();
    let mut it = n.child_iter();
    while let Some(c) = it.next(f) {
        v.push(c);
    }
    v
}

fn root_of(f: &Forest, ti: TreeIndex) -> Node {
    f.get_ref(ti).unwrap().get_doc_node().child_iter().next(f).unwrap()
}

#[test]
fn append_child_sets_parent_once_and_last() {
    let mut f = Forest::new();
    let (ti, e) = rooted(&mut f, "Test");
    let a = element(&mut f, ti, "a");
    let b = element(&mut f, ti, "b");
    e.append_child(&mut f, a).unwrap();
    e.append_child(&mut f, b).unwrap();
    e.append_child(&mut f, a).unwrap();
    assert_eq!(children_of(&f, e), vec![b, a]);
    assert_eq!(a.parent(&f), Some(e));
    assert_eq!(e.to_xml(&f), "<Test><b></b><a></a></Test>");
}

#[test]
fn append_child_moves_between_parents() {
    let mut f = Forest::new();
    let (ti, e) = rooted(&mut f, "Test");
    let a = element(&mut f, ti, "a");
    let b = element(&mut f, ti, "b");
    let t = text_node(&mut f, ti, "x");
    e.append_child(&mut f, a).unwrap();
    e.append_child(&mut f, b).unwrap();
    a.append_child(&mut f, t).unwrap();
    b.append_child(&mut f, t).unwrap();
    assert_eq!(e.to_xml(&f), "<Test><a></a><b>x</b></Test>");
    assert_eq!(t.parent(&f), Some(b));
}

#[test]
fn add_attribute_then_get_and_replace() {
    let mut f = Forest::new();
    let (ti, e) = rooted(&mut f, "Test");
    let a1 = f.get_ref_mut(ti).unwrap().new_attribute(qn("mode"), sv("one")).unwrap();
    e.add_attribute(&mut f, a1).unwrap();
    assert_eq!(e.get_attribute(&f, &qn("mode")), Some(a1));
    assert_eq!(e.get_attribute(&f, &qn("mode")).unwrap().to_string(&f), "one");
    let a2 = f.get_ref_mut(ti).unwrap().new_attribute(qn("mode"), sv("two")).unwrap();
    e.add_attribute(&mut f, a2).unwrap();
    assert_eq!(e.get_attribute(&f, &qn("mode")).unwrap().to_string(&f), "two");
    let mut it = e.attribute_iter();
    assert_eq!(it.next(&f), Some(a2));
    assert_eq!(it.next(&f), None);
    assert_eq!(a1.parent(&f), None);
    assert_eq!(e.to_xml(&f), "<Test mode='two'></Test>");
}

#[test]
fn remove_keeps_sibling_order() {
    let mut f = Forest::new();
    let (ti, e) = rooted(&mut f, "Test");
    let a = element(&mut f, ti, "a");
    let b = element(&mut f, ti, "b");
    let c = element(&mut f, ti, "c");
    e.append_child(&mut f, a).unwrap();
    e.append_child(&mut f, b).unwrap();
    e.append_child(&mut f, c).unwrap();
    b.remove(&mut f).unwrap();
    assert_eq!(children_of(&f, e), vec![a, c]);
    assert_eq!(b.parent(&f), None);
    assert_eq!(b.remove(&mut f).unwrap_err().kind, ErrorKind::NotFound);
}

#[test]
fn child_iter_yields_two_then_none() {
    let mut f = Forest::new();
    let (ti, e) = rooted(&mut f, "Test");
    let a = element(&mut f, ti, "a");
    let b = text_node(&mut f, ti, "b");
    e.append_child(&mut f, a).unwrap();
    e.append_child(&mut f, b).unwrap();
    let mut it = e.child_iter();
    assert_eq!(it.next(&f), Some(a));
    assert_eq!(it.next(&f), Some(b));
    assert_eq!(it.next(&f), None);
}

#[test]
fn descend_iter_over_parsed_document() {
    let mut f = Forest::new();
    let ti = f.grow_tree("<Test><L>one</L><L>two</L></Test>").unwrap();
    let t = root_of(&f, ti);
    let mut d = t.descend_iter(&f);
    let l1 = d.next(&f).unwrap();
    assert_eq!(l1.node_type(&f), NodeType::Element);
    assert_eq!(l1.to_name(&f).get_localname(), "L");
    let one = d.next(&f).unwrap();
    assert_eq!(one.node_type(&f), NodeType::Text);
    assert_eq!(one.to_string(&f), "one");
    let l2 = d.next(&f).unwrap();
    assert_eq!(l2.node_type(&f), NodeType::Element);
    assert_ne!(l1, l2);
    let two = d.next(&f).unwrap();
    assert_eq!(two.to_string(&f), "two");
    assert_eq!(d.next(&f), None);
}

#[test]
fn ingest_mixed_content() {
    let mut f = Forest::new();
    let ti = f.grow_tree("<Test><empty/><data mode='mixed'>This contains <i>mixed</i> content.</data></Test>").unwrap();
    assert_eq!(root_of(&f, ti).to_xml(&f),
        "<Test><empty></empty><data mode='mixed'>This contains <i>mixed</i> content.</data></Test>");
}

#[test]
fn remove_first_level_one() {
    let mut f = Forest::new();
    let (ti, e) = rooted(&mut f, "Test");
    let l1 = element(&mut f, ti, "Level-1");
    e.append_child(&mut f, l1).unwrap();
    let t1 = text_node(&mut f, ti, "one");
    l1.append_child(&mut f, t1).unwrap();
    let l2 = element(&mut f, ti, "Level-1");
    e.append_child(&mut f, l2).unwrap();
    let t2 = text_node(&mut f, ti, "two");
    l2.append_child(&mut f, t2).unwrap();
    l1.remove(&mut f).unwrap();
    assert_eq!(e.to_xml(&f), "<Test><Level-1>two</Level-1></Test>");
}

#[test]
fn xml_round_trip_is_stable() {
    let mut f = Forest::new();
    let (ti, e) = rooted(&mut f, "Test");
    let a = element(&mut f, ti, "a");
    e.append_child(&mut f, a).unwrap();
    let t = text_node(&mut f, ti, "1 < 2 & 3 > 2");
    a.append_child(&mut f, t).unwrap();
    let at = f.get_ref_mut(ti).unwrap().new_attribute(qn("k"), sv("it's")).unwrap();
    a.add_attribute(&mut f, at).unwrap();
    let b = element(&mut f, ti, "b");
    e.append_child(&mut f, b).unwrap();
    let x1 = e.to_xml(&f);
    let t2 = f.grow_tree(&x1).unwrap();
    let x2 = root_of(&f, t2).to_xml(&f);
    assert_eq!(x1, x2);
    assert_eq!(x1, "<Test><a k='it&apos;s'>1 &lt; 2 &amp; 3 &gt; 2</a><b></b></Test>");
}

#[test]
fn type_errors_on_append() {
    let mut f = Forest::new();
    let (ti, e) = rooted(&mut f, "Test");
    let t = text_node(&mut f, ti, "x");
    let a = element(&mut f, ti, "a");
    assert_eq!(t.append_child(&mut f, a).unwrap_err().kind, ErrorKind::TypeError);
    let at = f.get_ref_mut(ti).unwrap().new_attribute(qn("k"), sv("v")).unwrap();
    assert_eq!(e.append_child(&mut f, at).unwrap_err().kind, ErrorKind::TypeError);
    assert_eq!(e.add_attribute(&mut f, a).unwrap_err().kind, ErrorKind::TypeError);
    e.append_child(&mut f, a).unwrap();
    assert_eq!(a.append_child(&mut f, e).unwrap_err().kind, ErrorKind::TypeError);
    assert_eq!(e.append_child(&mut f, e).unwrap_err().kind, ErrorKind::TypeError);
    assert_eq!(e.to_xml(&f), "<Test><a></a></Test>");
}

#[test]
fn not_found_errors() {
    let mut f = Forest::new();
    let (ti, e) = rooted(&mut f, "Test");
    let d = f.get_ref(ti).unwrap().get_doc_node();
    assert_eq!(d.remove(&mut f).unwrap_err().kind, ErrorKind::NotFound);
    let bogus = Node { slot: 99, generation: 0, tree: ti };
    assert_eq!(e.append_child(&mut f, bogus).unwrap_err().kind, ErrorKind::NotFound);
    let other = Node { slot: 0, generation: 0, tree: 7 };
    assert_eq!(other.node_type(&f), NodeType::Unknown);
    assert_eq!(other.to_xml(&f), "");
}

#[test]
fn parse_errors() {
    let mut f = Forest::new();
    assert_eq!(f.grow_tree("<a>").unwrap_err().kind, ErrorKind::ParseError);
    assert_eq!(f.grow_tree("<a></b>").unwrap_err().kind, ErrorKind::ParseError);
    assert_eq!(f.grow_tree("").unwrap_err().kind, ErrorKind::ParseError);
    assert_eq!(f.grow_tree("<a x=1/>").unwrap_err().kind, ErrorKind::ParseError);
    assert_eq!(f.grow_tree("<p:a/>").unwrap_err().kind, ErrorKind::NamespaceError);
    assert_eq!(f.grow_tree("<a k='1' k='2'/>").unwrap_err().kind, ErrorKind::ParseError);
    assert_eq!(f.grow_tree("<!DOCTYPE a><a/>").unwrap_err().kind, ErrorKind::ParseError);
    assert_eq!(f.grow_tree("  ").unwrap_err().kind, ErrorKind::ParseError);
    assert!(f.get_ref(0).is_none());
}

#[test]
fn namespace_declarations_stay_in_force() {
    let mut f = Forest::new();
    let ti = f.grow_tree("<r><a xmlns:p='urn:x'/><p:b/></r>").unwrap();
    let r = root_of(&f, ti);
    let b = children_of(&f, r)[1];
    assert_eq!(b.to_name(&f).get_nsuri(), Some(String::from("urn:x")));
    assert_eq!(b.to_name(&f).to_string(), "p:b");
}

#[test]
fn comments_pis_and_declarations_in_input() {
    let mut f = Forest::new();
    let ti = f.grow_tree("<?xml version='1.0'?>\n<r><!--c--><?pi data?><![CDATA[<x>]]></r>").unwrap();
    assert_eq!(root_of(&f, ti).to_xml(&f), "<r><!--c--><?pi data?>&lt;x&gt;</r>");
}

#[test]
fn append_from_another_tree_copies() {
    let mut f = Forest::new();
    let (t1, e1) = rooted(&mut f, "One");
    let (t2, e2) = rooted(&mut f, "Two");
    let a = element(&mut f, t2, "a");
    e2.append_child(&mut f, a).unwrap();
    let x = text_node(&mut f, t2, "x");
    a.append_child(&mut f, x).unwrap();
    let at = f.get_ref_mut(t2).unwrap().new_attribute(qn("k"), sv("v")).unwrap();
    a.add_attribute(&mut f, at).unwrap();
    e1.append_child(&mut f, a).unwrap();
    assert_eq!(e1.to_xml(&f), "<One><a k='v'>x</a></One>");
    assert_eq!(e2.to_xml(&f), "<Two><a k='v'>x</a></Two>");
    let copy = e1.child_iter().next(&f).unwrap();
    assert_eq!(copy.tree, t1);
    assert_ne!(copy, a);
}

#[test]
fn attribute_from_another_tree_is_copied() {
    let mut f = Forest::new();
    let (_t1, e1) = rooted(&mut f, "One");
    let (t2, _e2) = rooted(&mut f, "Two");
    let at = f.get_ref_mut(t2).unwrap().new_attribute(qn("k"), sv("v")).unwrap();
    e1.add_attribute(&mut f, at).unwrap();
    assert_eq!(e1.to_xml(&f), "<One k='v'></One>");
    assert_eq!(at.parent(&f), None);
}

#[test]
fn insert_before_places_node() {
    let mut f = Forest::new();
    let (ti, e) = rooted(&mut f, "Test");
    let a = element(&mut f, ti, "a");
    let c = element(&mut f, ti, "c");
    e.append_child(&mut f, a).unwrap();
    e.append_child(&mut f, c).unwrap();
    let b = element(&mut f, ti, "b");
    c.insert_before(&mut f, b).unwrap();
    assert_eq!(e.to_xml(&f), "<Test><a></a><b></b><c></c></Test>");
    c.insert_before(&mut f, a).unwrap();
    assert_eq!(e.to_xml(&f), "<Test><b></b><a></a><c></c></Test>");
    let mut pre = c.prev_iter(&f);
    assert_eq!(pre.next(&f), Some(a));
    assert_eq!(pre.next(&f), Some(b));
    assert_eq!(pre.next(&f), None);
    assert_eq!(c.insert_before(&mut f, e).unwrap_err().kind, ErrorKind::TypeError);
}

#[test]
fn string_value_and_integers() {
    let mut f = Forest::new();
    let ti = f.grow_tree("<n><a>4</a><b>2</b><!--c--></n>").unwrap();
    let r = root_of(&f, ti);
    assert_eq!(r.to_string(&f), "42");
    assert_eq!(r.to_int(&f).unwrap(), 42);
    let a = children_of(&f, r)[0];
    assert_eq!(a.to_int(&f).unwrap(), 4);
    let c = children_of(&f, r)[2];
    assert_eq!(c.to_string(&f), "c");
    assert_eq!(c.to_int(&f).unwrap_err().kind, ErrorKind::TypeError);
    assert_eq!(parse_int("-9223372036854775808"), Some(i64::MIN));
    assert_eq!(parse_int("9223372036854775808"), None);
    assert_eq!(parse_int("+17"), Some(17));
    assert_eq!(parse_int("-"), None);
    assert_eq!(parse_int("1x"), None);
}

#[test]
fn extension_points_report_not_implemented() {
    let mut f = Forest::new();
    let (_ti, e) = rooted(&mut f, "Test");
    assert_eq!(e.to_json(&f).unwrap_err().kind, ErrorKind::NotImplemented);
    let od = OutputDefinition::new();
    assert_eq!(e.to_xml_with_options(&f, &od).unwrap_err().kind, ErrorKind::NotImplemented);
}

#[test]
fn qualified_names_compare_by_uri_and_local_name() {
    let a = QualifiedName::new(Some(String::from("urn:x")), Some(String::from("p")), String::from("n"));
    let b = QualifiedName::new(Some(String::from("urn:x")), Some(String::from("q")), String::from("n"));
    let c = QualifiedName::new(None, None, String::from("n"));
    assert!(a == b);
    assert!(a != c);
    assert_eq!(a.to_string(), "p:n");
    assert_eq!(c.to_string(), "n");
}

#[test]
fn output_definition_settings() {
    let mut od = OutputDefinition::new();
    assert!(od.get_name().is_none());
    assert!(!od.get_indent());
    assert_eq!(od.to_string(), "do not indent output");
    od.set_indent(true);
    od.set_name(Some(qn("xml")));
    assert!(od.get_indent());
    assert_eq!(od.get_name().unwrap().get_localname(), "xml");
    assert_eq!(od.to_string(), "indent output");
    od.set_name(None);
    assert!(od.get_name().is_none());
}

#[test]
fn node_types_and_builders() {
    assert_eq!(NodeType::ProcessingInstruction.to_string(), "Processing-Instruction");
    assert_eq!(NodeType::default(), NodeType::Unknown);
    let c = NodeBuilder::new(NodeType::Attribute).name(qn("k")).value(Value::Boolean(true)).build();
    assert_eq!(c.node_type(), NodeType::Attribute);
    assert_eq!(c.name().as_ref().unwrap().get_localname(), "k");
    assert_eq!(c.value().as_ref().unwrap().to_string(), "true");
    let d = NodeContent::new(NodeType::Text);
    assert!(d.name().is_none());
}
