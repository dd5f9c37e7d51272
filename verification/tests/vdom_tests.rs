//! The declarative builder API for virtual trees.

use review::component::NullComponent;
use review::tag::Tag;
use review::vdom::{VElement, VNode};

fn expect_element(v: &VNode<NullComponent>) -> &VElement<NullComponent> {
    match v {
        VNode::Element(e) => e,
        _ => panic!("expected an element"),
    }
}

fn expect_text(v: &VNode<NullComponent>) -> &str {
    match v {
        VNode::Text(t) => t,
        _ => panic!("expected a text node"),
    }
}

#[test]
fn create_element() {
    let div: VNode<NullComponent> =
        Tag::Div.with_child(VNode::Text("test".to_string())).node();

    let e = expect_element(&div);
    assert_eq!(e.tag, Tag::Div);
    assert_eq!(e.attributes.len(), 0);
    assert_eq!(e.events.len(), 0);
    assert_eq!(e.children.len(), 1);
    assert_eq!(expect_text(&e.children[0]), "test");
}

#[test]
fn create_element_with_attribute() {
    let div: VNode<NullComponent> =
        Tag::Div.with_attribute("name".to_string(), "test".to_string()).node();

    let e = expect_element(&div);
    assert_eq!(e.tag, Tag::Div);
    assert_eq!(e.attributes.len(), 1);
    assert_eq!(
        e.attributes.get(&"name".to_string()),
        Some(&"test".to_string())
    );
    assert_eq!(e.children.len(), 0);
}

#[test]
fn create_complex_vdom() {
    let vdom: VNode<NullComponent> = Tag::Div
        .with_attributes(vec![
            ("test".to_string(), "5".to_string()),
            ("test2".to_string(), "7".to_string()),
        ])
        .with_children(vec![
            VNode::Text("test".to_string()),
            Tag::Div.with_child(VNode::Text("test2".to_string())).node(),
        ])
        .node();

    let e = expect_element(&vdom);
    assert_eq!(e.tag, Tag::Div);
    assert_eq!(e.attributes.get(&"test".to_string()), Some(&"5".to_string()));
    assert_eq!(e.attributes.get(&"test2".to_string()), Some(&"7".to_string()));
    assert_eq!(e.children.len(), 2);
    assert_eq!(expect_text(&e.children[0]), "test");
    let inner = expect_element(&e.children[1]);
    assert_eq!(inner.tag, Tag::Div);
    assert_eq!(expect_text(&inner.children[0]), "test2");
}

#[test]
fn attribute_rebinding_replaces() {
    let e: VElement<NullComponent> = Tag::A
        .with_attribute("href".to_string(), "first".to_string())
        .with_attribute("href".to_string(), "second".to_string());
    assert_eq!(e.attributes.len(), 1);
    assert_eq!(e.attributes.get(&"href".to_string()), Some(&"second".to_string()));
}

#[test]
fn listener_identity_is_kept() {
    let e: VElement<NullComponent> =
        Tag::Button.with_event(review::EventType::OnClick, 41);
    assert_eq!(e.events.get(review::EventType::OnClick), Some(41));
    let e = e.with_event(review::EventType::OnClick, 42);
    assert_eq!(e.events.get(review::EventType::OnClick), Some(42));
    assert_eq!(e.events.len(), 1);
}
