use xdm_forest::forest::{Forest, Node, TreeIndex};
use xdm_forest::qname::QualifiedName;
use xdm_forest::value::Value;

fn qn(s: &str) -> QualifiedName {
    QualifiedName::new(None, None, String::from(s))
}

fn text(s: &str) -> Value {
    Value::String(String::from(s))
}

fn element(f: &mut Forest, ti: TreeIndex, name: &str) -> Node {
    f.get_ref_mut(ti).unwrap().new_element(qn(name)).expect("unable to create element node")
}

fn text_node(f: &mut Forest, ti: TreeIndex, s: &str) -> Node {
    f.get_ref_mut(ti).unwrap().new_text(text(s)).expect("unable to create text node")
}

/// Test > Level-1["one"], Level-1["two"]
fn two_levels(f: &mut Forest) -> (Node, Node, Node, Node, Node) {
    let ti = f.plant_tree();
    let e = element(f, ti, "Test");
    f.get_ref_mut(ti).unwrap().push_doc_node(e).expect("unable to add node to doc");
    let l1 = element(f, ti, "Level-1");
    e.append_child(f, l1).expect("unable to append node");
    let t1 = text_node(f, ti, "one");
    l1.append_child(f, t1).expect("unable to append node");
    let l2 = element(f, ti, "Level-1");
    e.append_child(f, l2).expect("unable to append node");
    let t2 = text_node(f, ti, "two");
    l2.append_child(f, t2).expect("unable to append node");
    (e, l1, t1, l2, t2)
}

#[test]
fn emptydoc() {
    let mut f = Forest::new();
    f.plant_tree();
    assert!(true)
}

#[test]
fn root_element() {
    let mut f = Forest::new();
    let ti = f.plant_tree();
    let e = element(&mut f, ti, "Test");
    f.get_ref_mut(ti).unwrap().push_doc_node(e).expect("unable to add node to doc");
    assert_eq!(e.to_xml(&f), "<Test></Test>")
}

#[test]
fn add_element() {
    let mut f = Forest::new();
    let ti = f.plant_tree();
    let e = element(&mut f, ti, "Test");
    f.get_ref_mut(ti).unwrap().push_doc_node(e).expect("unable to add node to doc");
    let l1 = element(&mut f, ti, "Level-1");
    e.append_child(&mut f, l1).expect("unable to append node");
    assert_eq!(e.to_xml(&f), "<Test><Level-1></Level-1></Test>")
}

#[test]
fn add_text() {
    let mut f = Forest::new();
    let ti = f.plant_tree();
    let e = element(&mut f, ti, "Test");
    f.get_ref_mut(ti).unwrap().push_doc_node(e).expect("unable to add node to doc");
    let l1 = element(&mut f, ti, "Level-1");
    e.append_child(&mut f, l1).expect("unable to append node");
    let txt = text_node(&mut f, ti, "this is a test");
    l1.append_child(&mut f, txt).expect("unable to append node");
    assert_eq!(e.to_xml(&f), "<Test><Level-1>this is a test</Level-1></Test>")
}

#[test]
fn add_attribute() {
    let mut f = Forest::new();
    let ti = f.plant_tree();
    let e = element(&mut f, ti, "Test");
    f.get_ref_mut(ti).unwrap().push_doc_node(e).expect("unable to add node to doc");
    let l1 = element(&mut f, ti, "Level-1");
    e.append_child(&mut f, l1).expect("unable to append node");
    let txt = f.get_ref_mut(ti).unwrap()
        .new_attribute(qn("data"), text("this is a test"))
        .expect("unable to create text node");
    l1.add_attribute(&mut f, txt).expect("unable to add attribute");
    assert_eq!(e.to_xml(&f), "<Test><Level-1 data='this is a test'></Level-1></Test>")
}

#[test]
fn add_comment() {
    let mut f = Forest::new();
    let ti = f.plant_tree();
    let e = element(&mut f, ti, "Test");
    f.get_ref_mut(ti).unwrap().push_doc_node(e).expect("unable to add node to doc");
    let l1 = element(&mut f, ti, "Level-1");
    e.append_child(&mut f, l1).expect("unable to append node");
    let c = f.get_ref_mut(ti).unwrap()
        .new_comment(text("this is a comment"))
        .expect("unable to create comment node");
    l1.append_child(&mut f, c).expect("unable to append node");
    assert_eq!(e.to_xml(&f), "<Test><Level-1><!--this is a comment--></Level-1></Test>")
}

#[test]
fn add_pi() {
    let mut f = Forest::new();
    let ti = f.plant_tree();
    let e = element(&mut f, ti, "Test");
    f.get_ref_mut(ti).unwrap().push_doc_node(e).expect("unable to add node to doc");
    let l1 = element(&mut f, ti, "Level-1");
    e.append_child(&mut f, l1).expect("unable to append node");
    let pi = f.get_ref_mut(ti).unwrap()
        .new_processing_instruction(qn("testPI"), text("this is a PI"))
        .expect("unable to create processing instruction node");
    l1.append_child(&mut f, pi).expect("unable to append node");
    assert_eq!(e.to_xml(&f), "<Test><Level-1><?testPI this is a PI?></Level-1></Test>")
}

#[test]
fn remove() {
    let mut f = Forest::new();
    let (e, l1, _t1, _l2, _t2) = two_levels(&mut f);
    assert_eq!(e.to_xml(&f), "<Test><Level-1>one</Level-1><Level-1>two</Level-1></Test>");
    l1.remove(&mut f).expect("unable to remove node");
    assert_eq!(e.to_xml(&f), "<Test><Level-1>two</Level-1></Test>");
}

#[test]
fn forest_children() {
    let mut f = Forest::new();
    let (e, l1, _t1, l2, _t2) = two_levels(&mut f);
    assert_eq!(e.to_xml(&f), "<Test><Level-1>one</Level-1><Level-1>two</Level-1></Test>");
    let mut children = e.child_iter();
    assert_eq!(children.next(&f), Some(l1));
    assert_eq!(children.next(&f), Some(l2));
    assert_eq!(children.next(&f), None)
}

#[test]
fn forest_ancestors() {
    let mut f = Forest::new();
    let (e, _l1, _t1, l2, t2) = two_levels(&mut f);
    assert_eq!(e.to_xml(&f), "<Test><Level-1>one</Level-1><Level-1>two</Level-1></Test>");
    let mut ancestors = t2.ancestor_iter();
    assert_eq!(ancestors.next(&f), Some(l2));
    assert_eq!(ancestors.next(&f), Some(e));
    assert_eq!(ancestors.next(&f), None)
}

#[test]
fn parent() {
    let mut f = Forest::new();
    let (e, _l1, _t1, l2, t2) = two_levels(&mut f);
    assert_eq!(e.to_xml(&f), "<Test><Level-1>one</Level-1><Level-1>two</Level-1></Test>");
    assert_eq!(t2.parent(&f), Some(l2));
}

#[test]
fn following_sibling() {
    let mut f = Forest::new();
    let (e, l1, _t1, l2, _t2) = two_levels(&mut f);
    assert_eq!(e.to_xml(&f), "<Test><Level-1>one</Level-1><Level-1>two</Level-1></Test>");
    let mut follow = l1.next_iter(&f);
    assert_eq!(follow.next(&f), Some(l2));
    assert_eq!(follow.next(&f), None)
}

#[test]
fn preceding_sibling() {
    let mut f = Forest::new();
    let (e, l1, _t1, l2, _t2) = two_levels(&mut f);
    assert_eq!(e.to_xml(&f), "<Test><Level-1>one</Level-1><Level-1>two</Level-1></Test>");
    let mut pre = l2.prev_iter(&f);
    assert_eq!(pre.next(&f), Some(l1));
    assert_eq!(pre.next(&f), None)
}

#[test]
fn descendants() {
    let mut f = Forest::new();
    let ti = f.plant_tree();
    let e = element(&mut f, ti, "Test");
    f.get_ref_mut(ti).unwrap().push_doc_node(e).expect("unable to add node to doc");
    let g = element(&mut f, ti, "Another");
    f.get_ref_mut(ti).unwrap().push_doc_node(g).expect("unable to add node to doc");
    let l1 = element(&mut f, ti, "Level-1");
    e.append_child(&mut f, l1).expect("unable to append node");
    let t1 = text_node(&mut f, ti, "one");
    l1.append_child(&mut f, t1).expect("unable to append node");
    let l2 = element(&mut f, ti, "Level-1");
    e.append_child(&mut f, l2).expect("unable to append node");
    let t2 = text_node(&mut f, ti, "two");
    l2.append_child(&mut f, t2).expect("unable to append node");
    assert_eq!(e.to_xml(&f), "<Test><Level-1>one</Level-1><Level-1>two</Level-1></Test>");
    let mut desc = e.descend_iter(&f);
    assert_eq!(desc.next(&f), Some(l1));
    assert_eq!(desc.next(&f), Some(t1));
    assert_eq!(desc.next(&f), Some(l2));
    assert_eq!(desc.next(&f), Some(t2));
    assert_eq!(desc.next(&f), None)
}

// Text is written escaped: `&`, `<` and `>` come out as entity references.
#[test]
fn parse() {
    let mut f = Forest::new();
    let ti = f.grow_tree("<Test><empty/>
<data mode='mixed'>This contains <i>mixed</i> content.</data>
<special>Some escaped chars &lt;&amp;&gt;</special>
</Test>")
        .expect("unable to parse");
    assert_eq!(f.get_ref(ti).unwrap().get_doc_node().child_iter().next(&f).unwrap().to_xml(&f), "<Test><empty></empty>
<data mode='mixed'>This contains <i>mixed</i> content.</data>
<special>Some escaped chars &lt;&amp;&gt;</special>
</Test>")
}
