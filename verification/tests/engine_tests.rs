//! The engine end to end: mounting, re-rendering, positional
//! reconciliation, deletion cascades and the commit phase.

use review::app::App;
use review::attrs::AttrMap;
use review::component::NullComponent;
use review::fiber::{EffectTag, Element, FiberTree, Node, State};
use review::host::HostNode;
use review::reconciliation::{reconcile_children, ChildOutcome};
use review::tag::Tag;
use review::vdom::{Events, VNode};

type N = NullComponent;

fn create_app(vdom: VNode<N>) -> App<N> {
    App::new(vdom)
}

fn work_on_dom(app: &mut App<N>) {
    app.work_loop(u64::MAX);
}

fn commit(app: &mut App<N>) -> review::reconciliation::CommitStats {
    app.commit_work(true).expect("a completed sweep must commit")
}

fn rerender(app: &mut App<N>, vdom: VNode<N>) {
    app.wip_root = Some(app.root);
    app.next_unit_of_work = Some(app.root);
    if let Node::Element(e) = &mut app.fiber_tree.nodes[app.root].node {
        e.unprocessed_children = vec![vdom];
    }
}

fn live_children(app: &App<N>, parent: usize) -> Vec<usize> {
    let mut out = Vec::new();
    let mut cur = app.fiber_tree.get(parent).unwrap().child;
    while let Some(c) = cur {
        let f = app.fiber_tree.get(c).unwrap();
        if f.state == State::Valid {
            out.push(c);
        }
        cur = f.sibling;
    }
    out
}

fn assert_matches_tree(app: &App<N>, fiber_id: usize, vnode: &VNode<N>) {
    let fiber = app.fiber_tree.get(fiber_id).unwrap();
    match (vnode, &fiber.node) {
        (VNode::Element(ve), Node::Element(e)) => {
            assert_eq!(ve.tag, e.tag);
            assert!(e.attributes.same_entries(&ve.attributes));
            assert!(e.events.same_entries(&ve.events));
            let kids = live_children(app, fiber_id);
            assert_eq!(kids.len(), ve.children.len());
            for (i, k) in kids.iter().enumerate() {
                assert_matches_tree(app, *k, &ve.children[i]);
            }
        },
        (VNode::Text(s), Node::Text(t)) => {
            assert_eq!(&t.text, s);
        },
        _ => panic!("fiber and virtual node differ in kind"),
    }
}

fn compare_vdom_with_dom(vdom: &VNode<N>, app: &App<N>) {
    let roots = live_children(app, app.root);
    assert_eq!(roots.len(), 1);
    assert_matches_tree(app, roots[0], vdom);
}

fn text(s: &str) -> VNode<N> {
    VNode::Text(s.to_string())
}

#[test]
fn simple_vdom_creation() {
    let vdom = || Tag::Div.with_child(text("hello world")).node();
    let mut app = create_app(vdom());

    work_on_dom(&mut app);
    commit(&mut app);

    compare_vdom_with_dom(&vdom(), &app);
}

#[test]
fn complex_vdom_creation() {
    let vdom = || {
        Tag::Div
            .with_attribute("id".to_string(), "foo".to_string())
            .with_child(
                Tag::A
                    .with_child(Tag::Div.with_child(Tag::Div.with_child(text("bar")).node()).node())
                    .node(),
            )
            .with_child(Tag::B.node())
            .node()
    };
    let mut app = create_app(vdom());

    work_on_dom(&mut app);
    commit(&mut app);

    compare_vdom_with_dom(&vdom(), &app);
}

#[test]
fn change_text() {
    let vdom = || text("hello world");
    let mut app = create_app(vdom());

    work_on_dom(&mut app);
    commit(&mut app);
    compare_vdom_with_dom(&vdom(), &app);

    let vdom = || text("hello world 2");
    rerender(&mut app, vdom());

    work_on_dom(&mut app);
    commit(&mut app);
    compare_vdom_with_dom(&vdom(), &app);
}

#[test]
fn remove_last_element() {
    let vdom = || {
        Tag::Div
            .with_attribute("id".to_string(), "foo".to_string())
            .with_child(Tag::A.with_child(Tag::Div.node()).node())
            .node()
    };
    let mut app = create_app(vdom());

    work_on_dom(&mut app);
    commit(&mut app);
    compare_vdom_with_dom(&vdom(), &app);

    let vdom = || {
        Tag::Div
            .with_attribute("id".to_string(), "foo".to_string())
            .with_child(Tag::A.node())
            .node()
    };
    rerender(&mut app, vdom());

    work_on_dom(&mut app);
    commit(&mut app);
    compare_vdom_with_dom(&vdom(), &app);
}

#[test]
fn insert_in_the_middle() {
    let vdom = || {
        Tag::Div
            .with_child(Tag::Div.node())
            .with_child(Tag::Div.node())
            .with_child(Tag::Div.node())
            .with_child(Tag::Div.node())
            .node()
    };
    let mut app = create_app(vdom());

    work_on_dom(&mut app);
    commit(&mut app);
    compare_vdom_with_dom(&vdom(), &app);

    let vdom = || {
        Tag::Div
            .with_child(Tag::Div.node())
            .with_child(Tag::Button.node())
            .with_child(Tag::Div.node())
            .with_child(Tag::Div.node())
            .with_child(Tag::Div.node())
            .node()
    };
    rerender(&mut app, vdom());

    work_on_dom(&mut app);
    commit(&mut app);
    compare_vdom_with_dom(&vdom(), &app);
}

#[test]
fn drop_remaining() {
    let vdom = || {
        Tag::Div
            .with_child(Tag::Div.node())
            .with_child(Tag::Div.node())
            .with_child(Tag::Div.node())
            .with_child(Tag::Div.node())
            .node()
    };
    let mut app = create_app(vdom());

    work_on_dom(&mut app);
    commit(&mut app);
    compare_vdom_with_dom(&vdom(), &app);

    let vdom = || Tag::Div.with_child(Tag::Div.node()).with_child(Tag::Div.node()).node();
    rerender(&mut app, vdom());

    work_on_dom(&mut app);
    commit(&mut app);
    compare_vdom_with_dom(&vdom(), &app);
}

#[test]
fn no_changes() {
    // Idempotence: re-rendering an unchanged tree leaves no fiber with a
    // pending effect (only the container, whose placement is never
    // committed, keeps its mount tag) and the commit applies zero effects.
    let vdom = || {
        Tag::Div
            .with_attribute("id".to_string(), "foo".to_string())
            .with_child(text("foo"))
            .node()
    };
    let mut app = create_app(vdom());
    work_on_dom(&mut app);
    commit(&mut app);

    rerender(&mut app, vdom());
    work_on_dom(&mut app);

    for (j, fiber) in app.fiber_tree.nodes.iter().enumerate() {
        if j != app.root {
            assert!(fiber.effect_tag.is_none());
        }
    }
    let stats = commit(&mut app);
    assert_eq!(stats.placements, 0);
    assert_eq!(stats.updates, 0);
    assert_eq!(stats.deletions, 0);
}

fn bare_element_tree() -> (FiberTree<N>, usize) {
    let mut tree: FiberTree<N> = FiberTree::new();
    let root = tree.new_node(Node::Element(Element {
        dom: None,
        tag: Tag::Div,
        attributes: AttrMap::new(),
        events: Events::new(),
        unprocessed_children: Vec::new(),
    }));
    (tree, root)
}

#[test]
fn positional_mismatch_cascade() {
    // `Div[Div,Div,Div,Div]` re-rendered as `Div[Div,Button,Div,Div,Div]`:
    // position 0 is reused; position 1 replaces (Deletion of the old,
    // Placement of the Button); the same-tagged Divs after it match
    // positionally again and are reused; the 5th child is a pure
    // Placement. Strictly positional, not a minimal-edit diff.
    let (mut tree, root) = bare_element_tree();
    let first = reconcile_children(
        &mut tree,
        root,
        vec![Tag::Div.node(), Tag::Div.node(), Tag::Div.node(), Tag::Div.node()],
    );
    let ids: Vec<usize> = first
        .outcomes
        .iter()
        .map(|o| match o {
            ChildOutcome::Placed { new_id } => *new_id,
            _ => panic!("initial mount must place every child"),
        })
        .collect();

    let second = reconcile_children(
        &mut tree,
        root,
        vec![
            Tag::Div.node(),
            Tag::Button.node(),
            Tag::Div.node(),
            Tag::Div.node(),
            Tag::Div.node(),
        ],
    );
    assert_eq!(second.outcomes.len(), 5);
    match second.outcomes[0] {
        ChildOutcome::Reused { id, changed } => {
            assert_eq!(id, ids[0]);
            assert!(!changed);
        },
        _ => panic!("position 0 must reuse the existing fiber"),
    }
    match second.outcomes[1] {
        ChildOutcome::Replaced { old_id, new_id } => {
            assert_eq!(old_id, ids[1]);
            assert!(matches!(
                tree.get(old_id).unwrap().effect_tag,
                Some(EffectTag::Deletion)
            ));
            assert!(matches!(
                tree.get(new_id).unwrap().effect_tag,
                Some(EffectTag::Placement)
            ));
        },
        _ => panic!("position 1 must be replaced"),
    }
    assert!(matches!(second.outcomes[2], ChildOutcome::Reused { id, .. } if id == ids[2]));
    assert!(matches!(second.outcomes[3], ChildOutcome::Reused { id, .. } if id == ids[3]));
    assert!(matches!(second.outcomes[4], ChildOutcome::Placed { .. }));
    assert!(second.deleted.is_empty());
}

#[test]
fn deletion_cascade() {
    // `Div[Div,Div,Div,Div]` re-rendered as `Div[Div,Div]` tags the 3rd
    // and 4th fibers for deletion; after commit their host nodes are
    // detached and their arena slots become reusable.
    let vdom = || {
        Tag::Div
            .with_child(Tag::Div.node())
            .with_child(Tag::Div.node())
            .with_child(Tag::Div.node())
            .with_child(Tag::Div.node())
            .node()
    };
    let mut app = create_app(vdom());
    work_on_dom(&mut app);
    commit(&mut app);

    let outer = live_children(&app, app.root)[0];
    let before = live_children(&app, outer);
    assert_eq!(before.len(), 4);
    let outer_host = match &app.fiber_tree.get(outer).unwrap().node {
        Node::Element(e) => e.dom.unwrap(),
        _ => panic!("outer fiber must be an element"),
    };

    let vdom = || Tag::Div.with_child(Tag::Div.node()).with_child(Tag::Div.node()).node();
    rerender(&mut app, vdom());
    work_on_dom(&mut app);

    assert!(matches!(
        app.fiber_tree.get(before[2]).unwrap().effect_tag,
        Some(EffectTag::Deletion)
    ));
    assert!(matches!(
        app.fiber_tree.get(before[3]).unwrap().effect_tag,
        Some(EffectTag::Deletion)
    ));

    let stats = commit(&mut app);
    assert_eq!(stats.deletions, 2);
    assert_eq!(app.fiber_tree.get(before[2]).unwrap().state, State::Removed);
    assert_eq!(app.fiber_tree.get(before[3]).unwrap().state, State::Removed);
    assert_eq!(live_children(&app, outer).len(), 2);

    // their host nodes are gone from the parent's child list
    let host_children = match &app.host.nodes[outer_host] {
        HostNode::Element { children, .. } => children.clone(),
        _ => panic!("outer host node must be an element"),
    };
    assert_eq!(host_children.len(), 2);

    // and the arena slots are reusable: the next allocation consumes one
    assert!(app.fiber_tree.first_free_node.is_some());
    let recycled = app.fiber_tree.new_node(Node::Text(review::fiber::Text {
        dom: None,
        text: "recycled".to_string(),
    }));
    assert!(recycled == before[2] || recycled == before[3]);
}

#[test]
fn end_to_end_mount_and_rerender() {
    // Mounting `Div{id:"foo"}[A[Div]]` applies exactly 3 placements and
    // builds a host tree three levels deep under the container;
    // re-rendering the identical tree applies zero patches.
    let vdom = || {
        Tag::Div
            .with_attribute("id".to_string(), "foo".to_string())
            .with_child(Tag::A.with_child(Tag::Div.node()).node())
            .node()
    };
    let mut app = create_app(vdom());
    work_on_dom(&mut app);
    let stats = commit(&mut app);
    assert_eq!(stats.placements, 3);
    assert_eq!(stats.deletions, 0);

    // depth 3 below the container in the host tree
    let level1 = match &app.host.nodes[0] {
        HostNode::Element { children, .. } => {
            assert_eq!(children.len(), 1);
            children[0]
        },
        _ => panic!("container must be an element"),
    };
    let level2 = match &app.host.nodes[level1] {
        HostNode::Element { tag, children, .. } => {
            assert_eq!(*tag, Tag::Div);
            assert_eq!(children.len(), 1);
            children[0]
        },
        _ => panic!("level one must be an element"),
    };
    let level3 = match &app.host.nodes[level2] {
        HostNode::Element { tag, children, .. } => {
            assert_eq!(*tag, Tag::A);
            assert_eq!(children.len(), 1);
            children[0]
        },
        _ => panic!("level two must be an element"),
    };
    match &app.host.nodes[level3] {
        HostNode::Element { tag, children, .. } => {
            assert_eq!(*tag, Tag::Div);
            assert_eq!(children.len(), 0);
        },
        _ => panic!("level three must be an element"),
    }

    // drain the journal, re-render the identical tree: zero patches
    let _ = app.host.take_ops();
    rerender(&mut app, vdom());
    work_on_dom(&mut app);
    let stats = commit(&mut app);
    assert_eq!(stats.placements, 0);
    assert_eq!(stats.updates, 0);
    assert_eq!(stats.deletions, 0);
    assert_eq!(app.host.take_ops().len(), 0);
}

#[test]
fn attribute_update_reaches_host() {
    let vdom = |v: &str| {
        Tag::Div
            .with_attribute("id".to_string(), v.to_string())
            .node()
    };
    let mut app = create_app(vdom("foo"));
    work_on_dom(&mut app);
    commit(&mut app);

    rerender(&mut app, vdom("bar"));
    work_on_dom(&mut app);
    let stats = commit(&mut app);
    assert_eq!(stats.updates, 1);

    let inner = live_children(&app, app.root)[0];
    let host_handle = match &app.fiber_tree.get(inner).unwrap().node {
        Node::Element(e) => {
            assert_eq!(e.attributes.get(&"id".to_string()), Some(&"bar".to_string()));
            e.dom.unwrap()
        },
        _ => panic!("must be an element"),
    };
    match &app.host.nodes[host_handle] {
        HostNode::Element { attributes, .. } => {
            assert_eq!(attributes.get(&"id".to_string()), Some(&"bar".to_string()));
        },
        _ => panic!("host node must be an element"),
    }
}

#[test]
fn journal_carries_exactly_the_applied_mutations() {
    // The journal an embedding replays holds exactly the mutations the
    // commits applied, in order: the mount's creations and placements,
    // then one attribute write for the one changed name.
    let vdom = |v: &str| {
        Tag::Div
            .with_attribute("id".to_string(), v.to_string())
            .node()
    };
    let mut app = create_app(vdom("foo"));
    work_on_dom(&mut app);
    commit(&mut app);

    let mount_ops = app.host.take_ops();
    // container creation, one element creation, one placement
    assert_eq!(mount_ops.len(), 3);
    assert!(matches!(mount_ops[0], review::HostOp::CreateElement { node: 0, .. }));
    match &mount_ops[1] {
        review::HostOp::CreateElement { node, tag, attributes, .. } => {
            assert_eq!(*node, 1);
            assert_eq!(*tag, Tag::Div);
            assert_eq!(
                attributes,
                &vec![("id".to_string(), "foo".to_string())]
            );
        },
        other => panic!("expected the element creation, got {:?}", other),
    }
    assert!(matches!(
        mount_ops[2],
        review::HostOp::AppendChild { parent: 0, child: 1 }
    ));

    rerender(&mut app, vdom("bar"));
    work_on_dom(&mut app);
    commit(&mut app);
    let update_ops = app.host.take_ops();
    assert_eq!(update_ops.len(), 1);
    match &update_ops[0] {
        review::HostOp::SetAttribute { node, name, value } => {
            assert_eq!(*node, 1);
            assert_eq!(name, "id");
            assert_eq!(value, "bar");
        },
        other => panic!("expected one attribute write, got {:?}", other),
    }
}
