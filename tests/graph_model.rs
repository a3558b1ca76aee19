use xdm_forest::forest::{Forest, Node, TreeIndex};
use xdm_forest::qname::QualifiedName;
use xdm_forest::value::Value;

fn qn(s: &str) -> QualifiedName {
    QualifiedName::new(None, None, String::from(s))
}

fn element(f: &mut Forest, ti: TreeIndex, name: &str) -> Node {
    f.get_ref_mut(ti).unwrap().new_element(qn(name)).expect("unable to create element node")
}

fn text_node(f: &mut Forest, ti: TreeIndex, s: &str) -> Node {
    f.get_ref_mut(ti).unwrap().new_text(Value::String(String::from(s))).expect("unable to create text node")
}

fn doc(f: &Forest, ti: TreeIndex) -> Node {
    f.get_ref(ti).unwrap().get_doc_node()
}

fn count(f: &Forest, ti: TreeIndex) -> usize {
    f.get_ref(ti).unwrap().node_count()
}

fn first_child(f: &Forest, n: Node) -> Option<Node> {
    n.child_iter().next(f)
}

fn children_of(f: &Forest, n: Node) -> Vec<Node> {
    let mut v = Vec::new();
    let mut it = n.child_iter();
    while let Some(c) = it.next(f) {
        v.push(c);
    }
    v
}

/// Test > Data["one"], Data["two"]
fn two_data(f: &mut Forest) -> (TreeIndex, Node, Node, Node, Node) {
    let ti = f.plant_tree();
    let r = element(f, ti, "Test");
    f.get_ref_mut(ti).unwrap().push_doc_node(r).unwrap();
    let c1 = element(f, ti, "Data");
    let u1 = text_node(f, ti, "one");
    c1.append_child(f, u1).unwrap();
    r.append_child(f, c1).unwrap();
    let c2 = element(f, ti, "Data");
    let u2 = text_node(f, ti, "two");
    c2.append_child(f, u2).unwrap();
    r.append_child(f, c2).unwrap();
    (ti, r, c1, c2, u2)
}

fn parsed(input: &str) -> (Forest, Node) {
    let mut f = Forest::new();
    let ti = f.grow_tree(input).expect("unable to parse XML");
    let d = doc(&f, ti);
    (f, d)
}

#[test]
fn new_doc() {
    let mut f = Forest::new();
    let ti = f.plant_tree();
    assert_eq!(count(&f, ti), 1);
}

#[test]
fn new_element() {
    let mut f = Forest::new();
    let ti = f.plant_tree();
    let r = element(&mut f, ti, "Test");
    f.get_ref_mut(ti).unwrap().push_doc_node(r).unwrap();
    assert_eq!(count(&f, ti), 2);
    assert_eq!(doc(&f, ti).to_xml(&f), "<Test></Test>");
}

#[test]
fn new_value() {
    let mut f = Forest::new();
    let ti = f.plant_tree();
    let r = element(&mut f, ti, "Test");
    f.get_ref_mut(ti).unwrap().push_doc_node(r).unwrap();
    let u = text_node(&mut f, ti, "this is a test");
    r.append_child(&mut f, u).unwrap();
    assert_eq!(count(&f, ti), 3);
    assert_eq!(doc(&f, ti).to_xml(&f), "<Test>this is a test</Test>");
}

#[test]
fn multi_elements() {
    let mut f = Forest::new();
    let (ti, _r, _c1, _c2, _u2) = two_data(&mut f);
    assert_eq!(count(&f, ti), 6);
    assert_eq!(doc(&f, ti).to_xml(&f), "<Test><Data>one</Data><Data>two</Data></Test>");
}

#[test]
fn xdmgraph_children() {
    let mut f = Forest::new();
    let (_ti, r, _c1, _c2, _u2) = two_data(&mut f);
    assert_eq!(children_of(&f, r).len(), 2);
}

#[test]
fn descend() {
    let mut f = Forest::new();
    let ti = f.plant_tree();
    let r = element(&mut f, ti, "Test");
    f.get_ref_mut(ti).unwrap().push_doc_node(r).unwrap();
    let c1 = element(&mut f, ti, "Data");
    r.append_child(&mut f, c1).unwrap();
    let c2 = element(&mut f, ti, "Data");
    c1.append_child(&mut f, c2).unwrap();
    let c3 = element(&mut f, ti, "Data");
    c2.append_child(&mut f, c3).unwrap();
    assert_eq!(r.to_xml(&f), "<Test><Data><Data><Data></Data></Data></Data></Test>");
}

#[test]
fn siblings() {
    let mut f = Forest::new();
    let (_ti, _r, c1, _c2, _u2) = two_data(&mut f);
    let mut it = c1.next_iter(&f);
    let mut n = 0;
    while it.next(&f).is_some() {
        n += 1;
    }
    assert_eq!(n, 1);
}

#[test]
fn preceding_siblings() {
    let mut f = Forest::new();
    let (_ti, _r, _c1, c2, _u2) = two_data(&mut f);
    let mut it = c2.prev_iter(&f);
    let mut n = 0;
    while it.next(&f).is_some() {
        n += 1;
    }
    assert_eq!(n, 1);
}

#[test]
fn xdmgraph_ancestors() {
    let mut f = Forest::new();
    let (_ti, _r, _c1, _c2, u2) = two_data(&mut f);
    let mut it = u2.ancestor_iter();
    let mut n = 0;
    while it.next(&f).is_some() {
        n += 1;
    }
    assert_eq!(n, 2);
}

#[test]
fn attribute() {
    let mut f = Forest::new();
    let ti = f.plant_tree();
    let r = element(&mut f, ti, "Test");
    f.get_ref_mut(ti).unwrap().push_doc_node(r).unwrap();
    let a = f.get_ref_mut(ti).unwrap()
        .new_attribute(qn("status"), Value::String(String::from("testing")))
        .unwrap();
    r.add_attribute(&mut f, a).unwrap();
    assert_eq!(doc(&f, ti).to_xml(&f), "<Test status='testing'></Test>");
}

#[test]
fn get_attribute() {
    let mut f = Forest::new();
    let ti = f.plant_tree();
    let r = element(&mut f, ti, "Test");
    f.get_ref_mut(ti).unwrap().push_doc_node(r).unwrap();
    let a = f.get_ref_mut(ti).unwrap()
        .new_attribute(qn("status"), Value::String(String::from("testing")))
        .unwrap();
    r.add_attribute(&mut f, a).unwrap();
    let d = doc(&f, ti);
    assert_eq!(first_child(&f, d).unwrap().get_attribute(&f, &qn("status")).unwrap().to_string(&f), "testing");
}

#[test]
fn parse_empty() {
    let (f, r) = parsed("<Test/>");
    let c = children_of(&f, r);
    assert_eq!(c.len(), 1);
    assert_eq!(c[0].to_xml(&f), "<Test></Test>");
}

#[test]
fn parse_empty_qualified() {
    let (f, r) = parsed("<x:Test xmlns:x='urn:my-test'/>");
    let c = children_of(&f, r);
    assert_eq!(c.len(), 1);
    assert_eq!(c[0].to_xml(&f), "<x:Test xmlns:x='urn:my-test'></x:Test>");
}

#[test]
fn parse_text() {
    let (f, r) = parsed("<Test>foobar</Test>");
    let c = children_of(&f, r);
    assert_eq!(c.len(), 1);
    assert_eq!(c[0].to_xml(&f), "<Test>foobar</Test>");
}

#[test]
fn parse_element_children() {
    let (f, r) = parsed("<Test><a/><b/><c/></Test>");
    let c = children_of(&f, r);
    assert_eq!(c.len(), 1);
    assert!(c[0].to_xml(&f) == "<Test><a/><b/><c/></Test>" ||
        c[0].to_xml(&f) == "<Test><a></a><b></b><c></c></Test>"
    );
}

#[test]
fn parse_mixed() {
    let (f, r) = parsed("<Test>i1<child>one</child>i2<child>two</child>i3</Test>");
    let c = children_of(&f, r);
    assert_eq!(c.len(), 1);
    assert_eq!(c[0].to_xml(&f), "<Test>i1<child>one</child>i2<child>two</child>i3</Test>");
}

#[test]
fn remove_1() {
    let (mut f, r) = parsed("<Test><a><b/></a></Test>");
    let c = first_child(&f, first_child(&f, first_child(&f, r).unwrap()).unwrap()).unwrap();
    c.remove(&mut f).unwrap();
    assert_eq!(r.to_xml(&f), "<Test><a></a></Test>");
}

#[test]
fn remove_2() {
    let (mut f, r) = parsed("<Test><a><b att1='val1'/></a></Test>");
    let c = first_child(&f, first_child(&f, first_child(&f, r).unwrap()).unwrap()).unwrap();
    c.remove(&mut f).unwrap();
    assert_eq!(r.to_xml(&f), "<Test><a></a></Test>");
}

#[test]
fn remove_3() {
    let (mut f, r) = parsed("<Test><a><b><c/></b></a></Test>");
    let c = first_child(&f, first_child(&f, first_child(&f, r).unwrap()).unwrap()).unwrap();
    c.remove(&mut f).unwrap();
    assert_eq!(r.to_xml(&f), "<Test><a></a></Test>");
}

#[test]
fn remove_4() {
    let (mut f, r) = parsed("<Test><a><b/><c/></a></Test>");
    let c = first_child(&f, first_child(&f, first_child(&f, r).unwrap()).unwrap()).unwrap();
    c.remove(&mut f).unwrap();
    assert_eq!(r.to_xml(&f), "<Test><a><c></c></a></Test>");
}

#[test]
fn remove_5() {
    let (mut f, r) = parsed("<Test><a><p/><b/></a></Test>");
    let c = children_of(&f, first_child(&f, first_child(&f, r).unwrap()).unwrap())[1];
    c.remove(&mut f).unwrap();
    assert_eq!(r.to_xml(&f), "<Test><a><p></p></a></Test>");
}

#[test]
fn remove_6() {
    let (mut f, r) = parsed("<Test><a><p/><b/><c/></a></Test>");
    let c = children_of(&f, first_child(&f, first_child(&f, r).unwrap()).unwrap())[1];
    c.remove(&mut f).unwrap();
    assert_eq!(r.to_xml(&f), "<Test><a><p></p><c></c></a></Test>");
}
