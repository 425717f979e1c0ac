use std::rc::Rc;

use abxml::element::{Element, ElementContainer, Tag};

fn element(name: &str) -> Element {
    Element::new(Tag::new(Rc::new(name.to_string()), Vec::new()), Vec::new())
}

#[test]
fn nested_events_build_a_tree() {
    let mut container = ElementContainer::new();
    container.start_element(element("A"));
    container.start_element(element("B"));
    assert!(container.end_element());
    assert!(container.get_root().is_none());
    assert!(container.end_element());

    let root = container.get_root().as_ref().unwrap();
    assert_eq!(*root.get_tag().get_name(), "A");
    assert_eq!(root.get_level(), 0);
    assert_eq!(root.get_children().len(), 1);
    let child = &root.get_children()[0];
    assert_eq!(*child.get_tag().get_name(), "B");
    assert_eq!(child.get_level(), 1);
    assert!(child.get_children().is_empty());
}

#[test]
fn extra_end_event_leaves_root_alone() {
    let mut container = ElementContainer::new();
    container.start_element(element("A"));
    container.start_element(element("B"));
    container.end_element();
    container.end_element();
    assert!(!container.end_element());

    let root = container.get_root().as_ref().unwrap();
    assert_eq!(*root.get_tag().get_name(), "A");
    assert_eq!(root.get_children().len(), 1);
}

#[test]
fn end_event_on_empty_builder_is_reported() {
    let mut container = ElementContainer::new();
    assert!(!container.end_element());
    assert!(container.get_root().is_none());
}

#[test]
fn tag_keeps_name_and_prefixes() {
    let tag = Tag::new(Rc::new("manifest".to_string()), vec![Rc::new("android".to_string())]);
    assert_eq!(*tag.get_name(), "manifest");
    assert_eq!(tag.get_prefixes().len(), 1);
    assert_eq!(*tag.get_prefixes()[0], "android");
}

#[test]
fn element_keeps_attributes() {
    let attrs = vec![("package".to_string(), "com.example".to_string())];
    let mut e = Element::new(Tag::new(Rc::new("manifest".to_string()), Vec::new()), attrs);
    e.set_level(3);
    assert_eq!(e.get_level(), 3);
    assert_eq!(e.get_attributes(), &vec![("package".to_string(), "com.example".to_string())]);
    e.append(element("child"));
    assert_eq!(e.get_children().len(), 1);
}
