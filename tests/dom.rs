use script_dom::document::{Document, Node, NodeId, TreeError, Window};
use script_dom::eventtarget::EventTarget;
use script_dom::htmlcollection::{CollectionFilter, HTMLCollection};
use script_dom::htmldatalistelement::HTMLDataListElement;
use script_dom::htmlelement::HTMLElement;
use script_dom::htmlframesetelement::HTMLFrameSetElement;
use script_dom::typeid::{
    html_type_id, ElementTypeId, EventTargetTypeId, HTMLElementTypeId, NodeTypeId,
};

fn doc() -> Document {
    Document::new(Window { id: 7 })
}

fn html(doc: &mut Document, kind: HTMLElementTypeId, name: &str) -> NodeId {
    let e = HTMLElement::new_inherited(kind, name.to_string(), None);
    doc.reflect_node(e.node)
}

fn text(doc: &mut Document) -> NodeId {
    let n = Node {
        target: EventTarget::new(EventTargetTypeId::Node(NodeTypeId::Text)),
        name: "#text".to_string(),
        prefix: None,
    };
    doc.reflect_node(n)
}

fn option(doc: &mut Document) -> NodeId {
    html(doc, HTMLElementTypeId::HTMLOptionElement, "option")
}

fn div(doc: &mut Document) -> NodeId {
    html(doc, HTMLElementTypeId::HTMLDivElement, "div")
}

const ALL_KINDS: [HTMLElementTypeId; 6] = [
    HTMLElementTypeId::HTMLDataListElement,
    HTMLElementTypeId::HTMLFrameSetElement,
    HTMLElementTypeId::HTMLOptionElement,
    HTMLElementTypeId::HTMLSelectElement,
    HTMLElementTypeId::HTMLDivElement,
    HTMLElementTypeId::HTMLElement,
];

#[test]
fn datalist_is_its_own_kind_only() {
    let mut d = doc();
    let id = HTMLDataListElement::new("datalist".to_string(), None, &mut d);
    let t = d.event_target(id).unwrap();
    assert!(t.is_htmldatalistelement());
    assert!(!t.is_htmlframesetelement());
    assert!(!t.is_htmloptionelement());
    for k in ALL_KINDS {
        assert_eq!(t.type_id().is_html_kind(k), k == HTMLElementTypeId::HTMLDataListElement);
    }
    assert_eq!(
        d.type_id(id),
        Some(EventTargetTypeId::Node(NodeTypeId::Element(ElementTypeId::HTMLElement(
            HTMLElementTypeId::HTMLDataListElement
        ))))
    );
}

#[test]
fn frameset_is_its_own_kind_only() {
    let mut d = doc();
    let id = HTMLFrameSetElement::new("frameset".to_string(), Some("h".to_string()), &mut d);
    let t = d.event_target(id).unwrap();
    assert!(t.is_htmlframesetelement());
    assert!(!t.is_htmldatalistelement());
    for k in ALL_KINDS {
        assert_eq!(t.type_id().is_html_kind(k), k == HTMLElementTypeId::HTMLFrameSetElement);
    }
}

#[test]
fn non_elements_are_no_html_kind() {
    let mut d = doc();
    let t = text(&mut d);
    let tag = d.type_id(t).unwrap();
    assert!(!tag.is_element());
    for k in ALL_KINDS {
        assert!(!tag.is_html_kind(k));
    }
    assert!(!EventTargetTypeId::Window.is_html_kind(HTMLElementTypeId::HTMLElement));
    let svg = EventTargetTypeId::Node(NodeTypeId::Element(ElementTypeId::Element));
    assert!(svg.is_element());
    assert!(!svg.is_html_kind(HTMLElementTypeId::HTMLElement));
}

#[test]
fn unknown_node_has_no_tag() {
    let d = doc();
    assert_eq!(d.type_id(0), None);
    assert!(d.event_target(3).is_none());
}

#[test]
fn tag_is_reflexive_and_survives_tree_changes() {
    let mut d = doc();
    let root = div(&mut d);
    let list = HTMLDataListElement::new("datalist".to_string(), None, &mut d);
    let before = d.type_id(list).unwrap();
    assert_eq!(before, before);
    assert_eq!(d.append_child(root, list), Ok(()));
    assert_eq!(d.type_id(list), Some(before));
    assert_eq!(d.detach(list), Ok(()));
    assert_eq!(d.type_id(list), Some(before));
    assert_eq!(before, html_type_id(HTMLElementTypeId::HTMLDataListElement));
}

#[test]
fn reading_twice_gives_the_same_members() {
    let mut d = doc();
    let root = div(&mut d);
    let a = option(&mut d);
    let b = div(&mut d);
    d.append_child(root, a).unwrap();
    d.append_child(root, b).unwrap();
    let c = HTMLCollection::create(d.window(), root, CollectionFilter::HTMLKind(HTMLElementTypeId::HTMLOptionElement));
    let first = c.elements(&d);
    let second = c.elements(&d);
    assert_eq!(first, second);
    assert_eq!(first, vec![a]);
}

#[test]
fn attached_matching_child_is_listed() {
    let mut d = doc();
    let root = div(&mut d);
    let c = HTMLCollection::create(d.window(), root, CollectionFilter::HTMLKind(HTMLElementTypeId::HTMLOptionElement));
    assert_eq!(c.length(&d), 0);
    let a = option(&mut d);
    assert_eq!(c.length(&d), 0);
    d.append_child(root, a).unwrap();
    assert_eq!(c.elements(&d), vec![a]);
    assert_eq!(c.length(&d), 1);
}

#[test]
fn detached_child_is_no_longer_listed() {
    let mut d = doc();
    let root = div(&mut d);
    let a = option(&mut d);
    let b = option(&mut d);
    d.append_child(root, a).unwrap();
    d.append_child(root, b).unwrap();
    let c = HTMLCollection::create(d.window(), root, CollectionFilter::HTMLKind(HTMLElementTypeId::HTMLOptionElement));
    assert_eq!(c.elements(&d), vec![a, b]);
    d.detach(a).unwrap();
    assert_eq!(c.elements(&d), vec![b]);
    assert!(d.traverse_preorder(a).is_empty());
}

#[test]
fn members_come_in_document_order() {
    let mut d = doc();
    let root = div(&mut d);
    let a = option(&mut d);
    let b = div(&mut d);
    let c = option(&mut d);
    d.append_child(root, a).unwrap();
    d.append_child(root, b).unwrap();
    d.append_child(root, c).unwrap();
    let coll = HTMLCollection::create(d.window(), root, CollectionFilter::HTMLKind(HTMLElementTypeId::HTMLOptionElement));
    assert_eq!(coll.elements(&d), vec![a, c]);
    assert_eq!(d.traverse_preorder(root), vec![a, b, c]);
}

#[test]
fn nested_members_come_depth_first() {
    let mut d = doc();
    let root = div(&mut d);
    let a = div(&mut d);
    let b = option(&mut d);
    let a1 = option(&mut d);
    let a2 = option(&mut d);
    d.append_child(root, a).unwrap();
    d.append_child(root, b).unwrap();
    d.append_child(a, a1).unwrap();
    d.append_child(a, a2).unwrap();
    assert_eq!(d.traverse_preorder(root), vec![a, a1, a2, b]);
    assert_eq!(d.traverse_preorder(a), vec![a1, a2]);
    let coll = HTMLCollection::create(d.window(), root, CollectionFilter::HTMLKind(HTMLElementTypeId::HTMLOptionElement));
    assert_eq!(coll.elements(&d), vec![a1, a2, b]);
    assert_eq!(coll.item(&d, 0), Some(a1));
    assert_eq!(coll.item(&d, 2), Some(b));
    assert_eq!(coll.item(&d, 3), None);
}

#[test]
fn moving_a_subtree_moves_its_members() {
    let mut d = doc();
    let root = div(&mut d);
    let left = div(&mut d);
    let right = div(&mut d);
    let x = option(&mut d);
    let y = option(&mut d);
    d.append_child(root, left).unwrap();
    d.append_child(root, right).unwrap();
    d.append_child(left, x).unwrap();
    d.append_child(x, y).unwrap();
    let in_left = HTMLCollection::create(d.window(), left, CollectionFilter::HTMLKind(HTMLElementTypeId::HTMLOptionElement));
    let in_right = HTMLCollection::create(d.window(), right, CollectionFilter::HTMLKind(HTMLElementTypeId::HTMLOptionElement));
    assert_eq!(in_left.elements(&d), vec![x, y]);
    d.append_child(right, x).unwrap();
    assert_eq!(in_left.length(&d), 0);
    assert_eq!(in_right.elements(&d), vec![x, y]);
    assert_eq!(d.traverse_preorder(root), vec![left, right, x, y]);
}

#[test]
fn empty_or_matchless_subtree_gives_no_members() {
    let mut d = doc();
    let root = div(&mut d);
    let filter = CollectionFilter::HTMLKind(HTMLElementTypeId::HTMLOptionElement);
    let c = HTMLCollection::create(d.window(), root, filter);
    assert_eq!(c.elements(&d), Vec::<NodeId>::new());
    let b = div(&mut d);
    let t = text(&mut d);
    d.append_child(root, b).unwrap();
    d.append_child(b, t).unwrap();
    assert_eq!(c.length(&d), 0);
    assert_eq!(c.item(&d, 0), None);
    let gone = HTMLCollection::create(d.window(), 99, filter);
    assert_eq!(gone.elements(&d), Vec::<NodeId>::new());
}

#[test]
fn elements_filter_skips_other_nodes() {
    let mut d = doc();
    let root = div(&mut d);
    let t = text(&mut d);
    let a = option(&mut d);
    d.append_child(root, t).unwrap();
    d.append_child(root, a).unwrap();
    let c = HTMLCollection::create(d.window(), root, CollectionFilter::Elements);
    assert_eq!(c.elements(&d), vec![a]);
    assert!(CollectionFilter::Elements.filter(d.event_target(a).unwrap(), root));
    assert!(!CollectionFilter::Elements.filter(d.event_target(t).unwrap(), root));
}

#[test]
fn datalist_options_are_live() {
    let mut d = doc();
    let list = HTMLDataListElement::new("datalist".to_string(), None, &mut d);
    let opts = HTMLDataListElement::options(&d, list);
    assert_eq!(opts.root, list);
    assert_eq!(opts.window, Window { id: 7 });
    assert_eq!(opts.filter, CollectionFilter::HTMLKind(HTMLElementTypeId::HTMLOptionElement));
    assert_eq!(opts.length(&d), 0);
    let o1 = option(&mut d);
    let other = div(&mut d);
    let o2 = option(&mut d);
    d.append_child(list, o1).unwrap();
    d.append_child(list, other).unwrap();
    d.append_child(other, o2).unwrap();
    assert_eq!(opts.elements(&d), vec![o1, o2]);
}

#[test]
fn append_reports_unknown_nodes() {
    let mut d = doc();
    let a = div(&mut d);
    assert_eq!(d.append_child(a, 5), Err(TreeError::NotFound));
    assert_eq!(d.append_child(5, a), Err(TreeError::NotFound));
    assert_eq!(d.detach(5), Err(TreeError::NotFound));
}

#[test]
fn append_refuses_cycles() {
    let mut d = doc();
    let a = div(&mut d);
    let b = div(&mut d);
    d.append_child(a, b).unwrap();
    assert_eq!(d.append_child(a, a), Err(TreeError::HierarchyRequest));
    assert_eq!(d.append_child(b, a), Err(TreeError::HierarchyRequest));
    assert_eq!(d.traverse_preorder(a), vec![b]);
}

#[test]
fn new_registers_names_and_ids() {
    let mut d = doc();
    assert_eq!(d.len(), 0);
    let a = HTMLDataListElement::new("datalist".to_string(), None, &mut d);
    let b = HTMLFrameSetElement::new("frameset".to_string(), None, &mut d);
    assert_eq!((a, b), (0, 1));
    assert_eq!(d.len(), 2);
    assert_eq!(d.window(), Window { id: 7 });
    let e = HTMLElement::new_inherited(HTMLElementTypeId::HTMLSelectElement, "select".to_string(), Some("x".to_string()));
    assert_eq!(e.node.name, "select");
    assert_eq!(e.node.prefix, Some("x".to_string()));
    assert!(e.node.target.type_id().is_html_kind(HTMLElementTypeId::HTMLSelectElement));
}

#[test]
fn registered_node_keeps_name_and_prefix() {
    let mut d = doc();
    let a = HTMLDataListElement::new("datalist".to_string(), Some("h".to_string()), &mut d);
    let b = HTMLFrameSetElement::new("frameset".to_string(), None, &mut d);
    assert_eq!(d.local_name(a), Some(&"datalist".to_string()));
    assert_eq!(d.prefix(a), Some(&Some("h".to_string())));
    assert_eq!(d.local_name(b), Some(&"frameset".to_string()));
    assert_eq!(d.prefix(b), Some(&None));
    assert_eq!(d.local_name(9), None);
    assert_eq!(d.prefix(9), None);
    d.append_child(b, a).unwrap();
    d.detach(a).unwrap();
    assert_eq!(d.local_name(a), Some(&"datalist".to_string()));
    assert_eq!(d.prefix(a), Some(&Some("h".to_string())));
}

#[test]
fn new_option_is_appended_after_existing_members() {
    let mut d = doc();
    let list = HTMLDataListElement::new("datalist".to_string(), None, &mut d);
    let o1 = option(&mut d);
    let g = div(&mut d);
    let o2 = option(&mut d);
    d.append_child(list, o1).unwrap();
    d.append_child(list, g).unwrap();
    d.append_child(g, o2).unwrap();
    let opts = HTMLDataListElement::options(&d, list);
    let before = opts.elements(&d);
    assert_eq!(before, vec![o1, o2]);
    let o3 = option(&mut d);
    d.append_child(list, o3).unwrap();
    let mut expected = before.clone();
    expected.push(o3);
    assert_eq!(opts.elements(&d), expected);
    assert_eq!(opts.length(&d), before.len() + 1);
}

#[test]
fn detaching_removes_the_whole_subtree_keeping_order() {
    let mut d = doc();
    let root = div(&mut d);
    let a = option(&mut d);
    let g = option(&mut d);
    let g1 = option(&mut d);
    let g2 = option(&mut d);
    let b = option(&mut d);
    d.append_child(root, a).unwrap();
    d.append_child(root, g).unwrap();
    d.append_child(g, g1).unwrap();
    d.append_child(g1, g2).unwrap();
    d.append_child(root, b).unwrap();
    let c = HTMLCollection::create(d.window(), root, CollectionFilter::HTMLKind(HTMLElementTypeId::HTMLOptionElement));
    assert_eq!(c.elements(&d), vec![a, g, g1, g2, b]);
    d.detach(g).unwrap();
    assert_eq!(c.elements(&d), vec![a, b]);
    assert_eq!(d.traverse_preorder(g), vec![g1, g2]);
}
