//! The capability that a component kind supplies to the engine.

use crate::hooks::HookContext;
use crate::vdom::VNode;
use vstd::prelude::*;

verus! {

/// One component instance: stable kind identity, a render entry point and a
/// post-render effect runner. Embedders implement this for each component
/// kind they define; the engine only ever calls through it.
///
/// Nothing is assumed of `render` or `run_effect`: the reconciler is
/// verified for every virtual tree a render may hand back, and the effect
/// runner's side effects live wholly outside the engine.
pub trait AnyComponent: Sized {
    /// The kind identity in specifications.
    spec fn kind_id(&self) -> u64;

    /// A stable identity of the component's kind. Two instances reconcile
    /// onto the same fiber exactly when these agree; props are never
    /// inspected.
    fn get_type(&self) -> (r: u64)
        ensures
            r == self.kind_id(),
    ;

    /// Produces this render pass's virtual node from the instance and the
    /// fiber's hook context.
    fn render(&self, fiber_id: usize, context: &mut HookContext) -> VNode<Self>;

    /// Runs the effect stored at hook slot `slot`, after running its pending
    /// cleanup when `run_cleanup` holds; reports whether the effect left a
    /// new cleanup behind.
    fn run_effect(&self, slot: usize, run_cleanup: bool) -> bool;
}

/// The component kind of an application that defines no components: it
/// cannot meaningfully render, and exists so element-and-text-only trees
/// have a concrete kind to instantiate the engine with.
#[derive(Debug, Clone, Copy, PartialEq, Eq, Structural)]
pub struct NullComponent;

impl AnyComponent for NullComponent {
    open spec fn kind_id(&self) -> u64 {
        0
    }

    fn get_type(&self) -> (r: u64) {
        0
    }

    fn render(&self, fiber_id: usize, context: &mut HookContext) -> VNode<NullComponent> {
        VNode::Text(String::new())
    }

    fn run_effect(&self, slot: usize, run_cleanup: bool) -> bool {
        false
    }
}

} // verus!
