//! An incremental UI-rendering engine.
//!
//! A declarative description of the desired UI — a tree of [`vdom::VNode`]
//! values, produced afresh each render — is reconciled against the
//! previously committed fiber tree ([`fiber::FiberTree`]), strictly by
//! position, producing effect tags that a dedicated commit phase applies
//! to a host document ([`host::HostDoc`]). Components keep per-fiber state
//! in call-order hook slots ([`hooks`]); rendering is cooperative, driven
//! one fiber at a time by the scheduler ([`app::App`]) under a
//! caller-supplied budget and resumable across host callbacks.

pub mod app;
pub mod attrs;
pub mod component;
pub mod events;
pub mod fiber;
pub mod game;
pub mod hooks;
pub mod host;
pub mod reconciliation;
pub mod tag;
pub mod vdom;

pub use app::App;
pub use attrs::AttrMap;
pub use component::{AnyComponent, NullComponent};
pub use events::EventType;
pub use fiber::FiberId;
pub use game::{calculate_winner, next_board, x_is_next, GameState, SquareValue};
pub use hooks::{use_effect, use_state, EffectRun, Hook, HookContext, HookError, HookValue, State,
    UseEffectBuilder, UseStateBuilder};
pub use host::{HostDoc, HostNode, HostOp};
pub use reconciliation::{commit, commit_one, perform_unit_of_work, reconcile_children,
    update_component_node, update_element_dom, update_node, ChildOutcome, CommitStats,
    CommittedKind, ReconcileReport};
pub use tag::Tag;
pub use vdom::{Events, VElement, VNode};
