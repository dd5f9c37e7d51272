//! Components driven through the whole engine: rendering through the
//! instance, state setters rescheduling the owning fiber, and post-render
//! effects running through the instance's effect runner.

use review::app::App;
use review::component::AnyComponent;
use review::fiber::Node;
use review::hooks::{use_effect, use_state, HookContext, HookValue, State};
use review::vdom::VNode;
use std::sync::atomic::{AtomicUsize, Ordering};

#[derive(Debug, Clone, Copy, PartialEq)]
struct Label;

impl AnyComponent for Label {
    fn kind_id(&self) -> u64 {
        7
    }

    fn get_type(&self) -> u64 {
        7
    }

    fn render(&self, fiber_id: usize, context: &mut HookContext) -> VNode<Label> {
        let state = use_state(HookValue::Int(7))
            .build(fiber_id, context)
            .expect("the label's hook sequence never changes");
        let value = match state.value {
            HookValue::Int(i) => i,
            _ => 0,
        };
        VNode::Text(format!("{}", value))
    }

    fn run_effect(&self, _slot: usize, _run_cleanup: bool) -> bool {
        false
    }
}

fn text_of(app: &App<Label>, id: usize) -> String {
    match &app.fiber_tree.get(id).unwrap().node {
        Node::Text(t) => t.text.clone(),
        _ => panic!("expected a text fiber"),
    }
}

#[test]
fn state_setter_rerenders_component() {
    // `useState(7)`, then the setter with 9: the next render's `useState(7)`
    // at the same position yields 9, and the committed text follows.
    let mut app: App<Label> = App::new(VNode::Component(Label));
    app.work_loop(u64::MAX);
    app.commit_work(true).unwrap();

    let comp_id = app.fiber_tree.get(app.root).unwrap().child.unwrap();
    let text_id = app.fiber_tree.get(comp_id).unwrap().child.unwrap();
    assert_eq!(text_of(&app, text_id), "7");

    let handle = State { value: HookValue::Int(7), fiber_id: comp_id, slot: 0 };
    app.set_state(&handle, HookValue::Int(9)).unwrap();
    assert_eq!(app.next_unit_of_work, Some(comp_id));

    app.work_loop(u64::MAX);
    app.commit_work(true).unwrap();
    let text_id = app.fiber_tree.get(comp_id).unwrap().child.unwrap();
    assert_eq!(text_of(&app, text_id), "9");
}

static EFFECT_RUNS: AtomicUsize = AtomicUsize::new(0);

#[derive(Debug, Clone, Copy, PartialEq)]
struct Effectful;

impl AnyComponent for Effectful {
    fn kind_id(&self) -> u64 {
        8
    }

    fn get_type(&self) -> u64 {
        8
    }

    fn render(&self, fiber_id: usize, context: &mut HookContext) -> VNode<Effectful> {
        let state = use_state(HookValue::Int(0))
            .build(fiber_id, context)
            .expect("the hook sequence never changes");
        use_effect(None)
            .build(context)
            .expect("the hook sequence never changes");
        let value = match state.value {
            HookValue::Int(i) => i,
            _ => 0,
        };
        VNode::Text(format!("{}", value))
    }

    fn run_effect(&self, _slot: usize, _run_cleanup: bool) -> bool {
        EFFECT_RUNS.fetch_add(1, Ordering::SeqCst);
        false
    }
}

#[test]
fn effects_run_after_each_render() {
    let mut app: App<Effectful> = App::new(VNode::Component(Effectful));
    app.work_loop(u64::MAX);
    app.commit_work(true).unwrap();
    assert_eq!(EFFECT_RUNS.load(Ordering::SeqCst), 1);

    let comp_id = app.fiber_tree.get(app.root).unwrap().child.unwrap();
    let handle = State { value: HookValue::Int(0), fiber_id: comp_id, slot: 0 };
    app.set_state(&handle, HookValue::Int(1)).unwrap();
    app.work_loop(u64::MAX);
    app.commit_work(true).unwrap();
    assert_eq!(EFFECT_RUNS.load(Ordering::SeqCst), 2);
}
