//! The fiber arena: allocation, splicing, removal and navigation.

use review::component::NullComponent;
use review::fiber::{EffectTag, FiberTree, Node, State, Text};

fn create_test_node(string: &str) -> Node<NullComponent> {
    Node::Text(Text { dom: None, text: string.to_string() })
}

fn text_of(node: &Node<NullComponent>) -> String {
    match node {
        Node::Text(t) => t.text.clone(),
        _ => panic!("expected a text fiber"),
    }
}

fn is_placement(tag: &Option<EffectTag<NullComponent>>) -> bool {
    matches!(tag, Some(EffectTag::Placement))
}

#[test]
fn create_node() {
    let mut fiber_tree: FiberTree<NullComponent> = FiberTree::new();

    let id = fiber_tree.new_node(create_test_node("test"));

    assert_eq!(fiber_tree.nodes.len(), 1);
    let fiber = fiber_tree.get(id).unwrap();
    assert_eq!(text_of(&fiber.node), "test");
    assert_eq!(fiber.child, None);
    assert_eq!(fiber.sibling, None);
    assert_eq!(fiber.parent, None);
    assert_eq!(fiber.state, State::Valid);
    assert!(is_placement(&fiber.effect_tag));
    assert_eq!(fiber_tree.first_free_node, None);
}

#[test]
fn inser_child() {
    let mut fiber_tree: FiberTree<NullComponent> = FiberTree::new();

    let parent_id = fiber_tree.new_node(create_test_node("test"));
    let child_id = fiber_tree.new_node(create_test_node("test child"));

    fiber_tree.insert_child(child_id, parent_id, None);

    let parent = fiber_tree.get(parent_id).unwrap();
    assert_eq!(parent.child, Some(child_id));
    assert_eq!(parent.sibling, None);
    assert_eq!(parent.parent, None);
    let child = fiber_tree.get(child_id).unwrap();
    assert_eq!(text_of(&child.node), "test child");
    assert_eq!(child.child, None);
    assert_eq!(child.sibling, None);
    assert_eq!(child.parent, Some(parent_id));
}

#[test]
fn inser_child_after_sibling() {
    let mut fiber_tree: FiberTree<NullComponent> = FiberTree::new();

    let parent_id = fiber_tree.new_node(create_test_node("test"));
    let child_1_id = fiber_tree.new_node(create_test_node("test child 1"));
    let child_2_id = fiber_tree.new_node(create_test_node("test child 2"));

    fiber_tree.insert_child(child_1_id, parent_id, None);
    fiber_tree.insert_child(child_2_id, parent_id, Some(child_1_id));

    assert_eq!(fiber_tree.get(parent_id).unwrap().child, Some(child_1_id));
    let child_1 = fiber_tree.get(child_1_id).unwrap();
    assert_eq!(child_1.sibling, Some(child_2_id));
    assert_eq!(child_1.parent, Some(parent_id));
    let child_2 = fiber_tree.get(child_2_id).unwrap();
    assert_eq!(child_2.sibling, None);
    assert_eq!(child_2.parent, Some(parent_id));
}

#[test]
fn remove_node() {
    let mut fiber_tree: FiberTree<NullComponent> = FiberTree::new();

    let parent_id = fiber_tree.new_node(create_test_node("test"));
    let child_1_id = fiber_tree.new_node(create_test_node("test child 1"));
    let child_2_id = fiber_tree.new_node(create_test_node("test child 2"));
    let child_3_id = fiber_tree.new_node(create_test_node("test child 3"));

    fiber_tree.insert_child(child_1_id, parent_id, None);
    fiber_tree.insert_child(child_2_id, parent_id, Some(child_1_id));
    fiber_tree.insert_child(child_3_id, parent_id, Some(child_2_id));

    fiber_tree.remove(child_1_id);

    assert_eq!(fiber_tree.get(parent_id).unwrap().child, Some(child_2_id));
    let child_1 = fiber_tree.get(child_1_id).unwrap();
    assert_eq!(child_1.state, State::Removed);
    assert_eq!(child_1.sibling, Some(child_2_id));
    let child_2 = fiber_tree.get(child_2_id).unwrap();
    assert_eq!(child_2.state, State::Valid);
    assert_eq!(child_2.sibling, Some(child_3_id));
    let child_3 = fiber_tree.get(child_3_id).unwrap();
    assert_eq!(child_3.state, State::Valid);
    assert_eq!(child_3.sibling, None);
    assert_eq!(fiber_tree.first_free_node, Some(child_1_id));
}

#[test]
fn get_node() {
    let mut fiber_tree: FiberTree<NullComponent> = FiberTree::new();

    let parent_id = fiber_tree.new_node(create_test_node("test"));
    let child_id = fiber_tree.new_node(create_test_node("test child"));

    fiber_tree.insert_child(child_id, parent_id, None);

    let parent = fiber_tree.get(parent_id).unwrap();
    assert_eq!(text_of(&parent.node), "test");
    assert_eq!(parent.child, Some(child_id));
    let child = fiber_tree.get(child_id).unwrap();
    assert_eq!(text_of(&child.node), "test child");
    assert_eq!(child.parent, Some(parent_id));
}

#[test]
fn get_first_child() {
    let mut fiber_tree: FiberTree<NullComponent> = FiberTree::new();

    let parent_id = fiber_tree.new_node(create_test_node("test"));
    let child_id = fiber_tree.new_node(create_test_node("test child"));

    fiber_tree.insert_child(child_id, parent_id, None);
    let node = fiber_tree.get(parent_id);

    let first_child = fiber_tree.get(node.unwrap().child.unwrap()).unwrap();
    assert_eq!(text_of(&first_child.node), "test child");
    assert_eq!(first_child.parent, Some(parent_id));
}

#[test]
fn get_sibling() {
    let mut fiber_tree: FiberTree<NullComponent> = FiberTree::new();

    let parent_id = fiber_tree.new_node(create_test_node("test"));
    let child_id = fiber_tree.new_node(create_test_node("test child"));
    let sibling_id = fiber_tree.new_node(create_test_node("test sibling"));

    fiber_tree.insert_child(sibling_id, parent_id, None);
    fiber_tree.insert_child(child_id, parent_id, None);
    let node = fiber_tree.get(child_id);

    let sibling = fiber_tree.get(node.unwrap().sibling.unwrap()).unwrap();
    assert_eq!(text_of(&sibling.node), "test sibling");
    assert_eq!(sibling.parent, Some(parent_id));
}

#[test]
fn get_parent() {
    let mut fiber_tree: FiberTree<NullComponent> = FiberTree::new();

    let parent_id = fiber_tree.new_node(create_test_node("test"));
    let child_id = fiber_tree.new_node(create_test_node("test child"));

    fiber_tree.insert_child(child_id, parent_id, None);
    let node = fiber_tree.get(child_id);

    let parent = fiber_tree.get(node.unwrap().parent.unwrap()).unwrap();
    assert_eq!(text_of(&parent.node), "test");
    assert_eq!(parent.child, Some(child_id));
}

#[test]
fn tombstone_is_recycled() {
    let mut fiber_tree: FiberTree<NullComponent> = FiberTree::new();

    let parent_id = fiber_tree.new_node(create_test_node("test"));
    let child_id = fiber_tree.new_node(create_test_node("test child"));
    fiber_tree.insert_child(child_id, parent_id, None);

    fiber_tree.remove(child_id);
    assert_eq!(fiber_tree.first_free_node, Some(child_id));

    let recycled = fiber_tree.new_node(create_test_node("again"));
    assert_eq!(recycled, child_id);
    assert_eq!(fiber_tree.nodes.len(), 2);
    assert_eq!(fiber_tree.get(recycled).unwrap().state, State::Valid);
    assert_eq!(fiber_tree.first_free_node, None);
}
