//! Hooks: per-component state slots identified by call order.
//!
//! A component's fiber carries a [`HookContext`]: an ordered list of slots
//! plus a counter that is reset to zero at the start of every render of that
//! component. Each hook call reads the slot at the current counter position
//! and advances the counter, so call order is slot identity; a slot that is
//! re-read at a different type is a detectable error, never a silent
//! reinterpretation.

use vstd::prelude::*;

verus! {

/// A value held in a state slot or compared as an effect dependency.
#[derive(Debug, PartialEq)]
pub enum HookValue {
    Unit,
    Bool(bool),
    Int(i64),
    Str(String),
}

/// Whether two hook values are the same value.
pub open spec fn hook_value_eq(a: HookValue, b: HookValue) -> bool {
    match (a, b) {
        (HookValue::Unit, HookValue::Unit) => true,
        (HookValue::Bool(x), HookValue::Bool(y)) => x == y,
        (HookValue::Int(x), HookValue::Int(y)) => x == y,
        (HookValue::Str(x), HookValue::Str(y)) => x@ == y@,
        _ => false,
    }
}

/// Whether two optional hook values are the same.
pub open spec fn opt_value_eq(a: Option<HookValue>, b: Option<HookValue>) -> bool {
    match (a, b) {
        (Option::None, Option::None) => true,
        (Option::Some(x), Option::Some(y)) => hook_value_eq(x, y),
        _ => false,
    }
}

impl Clone for HookValue {
    /// An equal value.
    fn clone(&self) -> (r: HookValue)
        ensures
            r == *self,
    {
        match self {
            HookValue::Unit => HookValue::Unit,
            HookValue::Bool(b) => HookValue::Bool(*b),
            HookValue::Int(i) => HookValue::Int(*i),
            HookValue::Str(s) => HookValue::Str(s.clone()),
        }
    }
}

impl HookValue {
    /// Whether `self` and `other` are the same value.
    pub fn same(&self, other: &HookValue) -> (r: bool)
        ensures
            r == hook_value_eq(*self, *other),
    {
        match (self, other) {
            (HookValue::Unit, HookValue::Unit) => true,
            (HookValue::Bool(x), HookValue::Bool(y)) => x == y,
            (HookValue::Int(x), HookValue::Int(y)) => x == y,
            (HookValue::Str(x), HookValue::Str(y)) => x.eq(y),
            _ => false,
        }
    }
}

/// Whether two optional hook values are the same, executably.
fn opt_same(a: &Option<HookValue>, b: &Option<HookValue>) -> (r: bool)
    ensures
        r == opt_value_eq(*a, *b),
{
    match (a, b) {
        (Option::None, Option::None) => true,
        (Option::Some(x), Option::Some(y)) => x.same(y),
        _ => false,
    }
}

/// One hook slot: either a state cell or an effect record.
///
/// This is the closed set of hook capabilities; a slot's variant is its
/// type, and reading it back as the other variant is a [`HookError`].
#[derive(Debug, PartialEq)]
pub enum Hook {
    /// A state cell holding the component-visible value.
    State(HookValue),
    /// An effect record: the dependency snapshot handed to the current
    /// render, the snapshot the effect last fired with, and whether the last
    /// firing left a cleanup behind.
    Effect { current_deps: Option<HookValue>, last_deps: Option<HookValue>, has_cleanup: bool },
}

/// The error a hook call reports when the slot at its call-order position
/// was built by a different kind of hook call in an earlier render — the
/// hook sequence changed between renders — or when the call-order position
/// skipped past the end of the slot list.
#[derive(Debug, Clone, Copy, PartialEq, Eq, Structural)]
pub enum HookError {
    TypeMismatch,
}

/// Whether the effect must fire: it has no dependency snapshot, or its
/// snapshot is unset or changed since it last fired.
pub open spec fn effect_due(current: Option<HookValue>, last: Option<HookValue>) -> bool {
    current is None || !opt_value_eq(current, last)
}

/// An instruction to run the effect in `slot`, running its pending cleanup
/// first when `run_cleanup` holds.
#[derive(Debug, Clone, Copy, PartialEq, Eq, Structural)]
pub struct EffectRun {
    pub slot: usize,
    pub run_cleanup: bool,
}

/// The effect slots of `s` that must fire, in slot order.
pub open spec fn due_runs(s: Seq<Hook>) -> Seq<EffectRun>
    decreases s.len(),
{
    if s.len() == 0 {
        Seq::empty()
    } else {
        let rest = due_runs(s.drop_last());
        match s.last() {
            Hook::Effect { current_deps, last_deps, has_cleanup } => {
                if effect_due(current_deps, last_deps) {
                    rest.push(
                        EffectRun { slot: (s.len() - 1) as usize, run_cleanup: has_cleanup },
                    )
                } else {
                    rest
                }
            },
            _ => rest,
        }
    }
}

/// A component's ordered hook slots and the call-order counter of the
/// render currently in progress.
#[derive(Debug, PartialEq)]
pub struct HookContext {
    pub hooks: Vec<Hook>,
    pub counter: usize,
}

impl Default for HookContext {
    /// An empty context.
    fn default() -> (r: HookContext)
        ensures
            r.hooks@.len() == 0,
            r.counter == 0,
    {
        HookContext { hooks: Vec::new(), counter: 0 }
    }
}

impl HookContext {
    /// An empty context: no slots, counter at zero.
    pub fn new() -> (r: HookContext)
        ensures
            r.hooks@.len() == 0,
            r.counter == 0,
    {
        HookContext { hooks: Vec::new(), counter: 0 }
    }

    /// Resets the call-order counter for a new render of the owning
    /// component.
    pub fn reset(&mut self)
        ensures
            final(self).counter == 0,
            final(self).hooks == old(self).hooks,
    {
        self.counter = 0;
    }

    /// The number of slots.
    pub fn len(&self) -> (r: usize)
        ensures
            r == self.hooks@.len(),
    {
        self.hooks.len()
    }

    /// Decides which effects must fire after a render of the owning
    /// component, in slot order, and archives each firing slot's dependency
    /// snapshot as the one it last fired with. State slots and effects whose
    /// snapshot is unchanged are left exactly as they were.
    pub fn post_render(&mut self) -> (r: Vec<EffectRun>)
        ensures
            r@ == due_runs(old(self).hooks@),
            final(self).counter == old(self).counter,
            final(self).hooks@.len() == old(self).hooks@.len(),
            forall|i: int|
                0 <= i < old(self).hooks@.len() ==> final(self).hooks@[i] == (match old(
                    self,
                ).hooks@[i] {
                    Hook::Effect { current_deps, last_deps, has_cleanup } => {
                        if effect_due(current_deps, last_deps) {
                            Hook::Effect {
                                current_deps: None,
                                last_deps: current_deps,
                                has_cleanup,
                            }
                        } else {
                            old(self).hooks@[i]
                        }
                    },
                    _ => old(self).hooks@[i],
                }),
    {
        let ghost h0 = old(self).hooks@;
        let n = self.hooks.len();
        let mut runs: Vec<EffectRun> = Vec::new();
        let mut i: usize = 0;
        #[verifier::loop_isolation(false)]
        while i < n
            invariant
                i <= n,
                self.counter == old(self).counter,
                self.hooks@.len() == n,
                runs@ == due_runs(h0.take(i as int)),
                forall|j: int| i <= j < n ==> self.hooks@[j] == h0[j],
                forall|j: int|
                    0 <= j < i ==> self.hooks@[j] == (match h0[j] {
                        Hook::Effect { current_deps, last_deps, has_cleanup } => {
                            if effect_due(current_deps, last_deps) {
                                Hook::Effect {
                                    current_deps: None,
                                    last_deps: current_deps,
                                    has_cleanup,
                                }
                            } else {
                                h0[j]
                            }
                        },
                        _ => h0[j],
                    }),
            decreases n - i,
        {
            proof {
                assert(h0.take(i + 1int).drop_last() =~= h0.take(i as int));
                assert(h0.take(i + 1int).last() == h0[i as int]);
            }
            let due = match &self.hooks[i] {
                Hook::Effect { current_deps, last_deps, .. } => {
                    match current_deps {
                        Option::None => true,
                        Option::Some(_) => !opt_same(current_deps, last_deps),
                    }
                },
                _ => false,
            };
            if due {
                if let Hook::Effect { current_deps, last_deps, has_cleanup } = &mut self.hooks[i] {
                    let mut taken: Option<HookValue> = None;
                    core::mem::swap(&mut taken, current_deps);
                    *last_deps = taken;
                    runs.push(EffectRun { slot: i, run_cleanup: *has_cleanup });
                }
            }
            i = i + 1;
        }
        proof {
            assert(h0.take(n as int) =~= h0);
        }
        runs
    }

    /// Records whether the effect in `slot` left a cleanup behind when it
    /// was run; reports an error when `slot` does not hold an effect.
    pub fn note_effect_result(&mut self, slot: usize, has_cleanup: bool) -> (r: Result<
        (),
        HookError,
    >)
        ensures
            match r {
                Ok(_) => slot < old(self).hooks@.len() && old(self).hooks@[slot as int] is Effect
                    && final(self).hooks@ == old(self).hooks@.update(
                    slot as int,
                    (match old(self).hooks@[slot as int] {
                        Hook::Effect { current_deps, last_deps, .. } => Hook::Effect {
                            current_deps,
                            last_deps,
                            has_cleanup,
                        },
                        _ => old(self).hooks@[slot as int],
                    }),
                ),
                Err(_) => final(self).hooks@ == old(self).hooks@ && !(slot < old(
                    self,
                ).hooks@.len() && old(self).hooks@[slot as int] is Effect),
            },
            final(self).counter == old(self).counter,
    {
        if slot < self.hooks.len() {
            if let Hook::Effect { has_cleanup: hc, .. } = &mut self.hooks[slot] {
                *hc = has_cleanup;
                return Ok(());
            }
        }
        Err(HookError::TypeMismatch)
    }
}

/// The value/setter pair that a [`use_state`] call hands back: the value the
/// slot held at this render, and the coordinates a setter needs to replace
/// it and schedule the owning fiber anew.
#[derive(Debug, PartialEq)]
pub struct State {
    /// The value stored in the slot when the hook was read.
    pub value: HookValue,
    /// The fiber owning the hook context.
    pub fiber_id: usize,
    /// The slot's position in the context.
    pub slot: usize,
}

impl State {
    /// Replaces the slot's stored value in the owning component's context.
    ///
    /// This is the storage half of a setter; scheduling the owning fiber as
    /// the next render root is the scheduler's half
    /// ([`crate::app::App::set_state`]).
    pub fn set(&self, context: &mut HookContext, new_value: HookValue) -> (r: Result<
        (),
        HookError,
    >)
        ensures
            match r {
                Ok(_) => self.slot < old(context).hooks@.len() && old(
                    context,
                ).hooks@[self.slot as int] is State && final(context).hooks@ == old(
                    context,
                ).hooks@.update(self.slot as int, Hook::State(new_value)),
                Err(_) => final(context).hooks@ == old(context).hooks@ && !(self.slot < old(
                    context,
                ).hooks@.len() && old(context).hooks@[self.slot as int] is State),
            },
            final(context).counter == old(context).counter,
    {
        if self.slot < context.hooks.len() {
            let is_state = match &context.hooks[self.slot] {
                Hook::State(_) => true,
                _ => false,
            };
            if is_state {
                context.hooks[self.slot] = Hook::State(new_value);
                return Ok(());
            }
        }
        Err(HookError::TypeMismatch)
    }
}

/// A pending [`use_state`] call: the initial value the slot gets if this is
/// the render that creates it.
pub struct UseStateBuilder {
    pub initial_value: HookValue,
}

/// Begins a state hook: the returned builder reads or creates the slot at
/// the current call-order position when built against a hook context.
pub fn use_state(initial_value: HookValue) -> (r: UseStateBuilder)
    ensures
        r.initial_value == initial_value,
{
    UseStateBuilder { initial_value }
}

impl UseStateBuilder {
    /// Reads the state slot at the current call-order position, creating it
    /// with the initial value when this render is the first to reach this
    /// position. The counter always advances by one. The call fails exactly
    /// when the position holds a slot of another kind, or lies beyond the
    /// next free position — the hook sequence changed between renders.
    pub fn build(self, fiber_id: usize, context: &mut HookContext) -> (r: Result<
        State,
        HookError,
    >)
        requires
            old(context).counter < usize::MAX,
        ensures
            final(context).counter == old(context).counter + 1,
            match r {
                Ok(st) => {
                    &&& st.fiber_id == fiber_id
                    &&& st.slot == old(context).counter
                    &&& if old(context).counter < old(context).hooks@.len() {
                        &&& old(context).hooks@[old(context).counter as int] matches Hook::State(v)
                            && hook_value_eq(st.value, v)
                        &&& final(context).hooks@ == old(context).hooks@
                    } else {
                        &&& old(context).counter == old(context).hooks@.len()
                        &&& hook_value_eq(st.value, self.initial_value)
                        &&& final(context).hooks@ == old(context).hooks@.push(
                            Hook::State(self.initial_value),
                        )
                    }
                },
                Err(_) => {
                    &&& final(context).hooks@ == old(context).hooks@
                    &&& (if old(context).counter < old(context).hooks@.len() {
                        !(old(context).hooks@[old(context).counter as int] is State)
                    } else {
                        old(context).counter > old(context).hooks@.len()
                    })
                },
            },
    {
        let position = context.counter;
        context.counter = context.counter + 1;
        if position == context.hooks.len() {
            let stored = self.initial_value.clone();
            let value = self.initial_value;
            context.hooks.push(Hook::State(stored));
            Ok(State { value, fiber_id, slot: position })
        } else if position < context.hooks.len() {
            match &context.hooks[position] {
                Hook::State(v) => Ok(State { value: v.clone(), fiber_id, slot: position }),
                _ => Err(HookError::TypeMismatch),
            }
        } else {
            Err(HookError::TypeMismatch)
        }
    }
}

/// A pending [`use_effect`] call: the dependency snapshot handed to this
/// render.
pub struct UseEffectBuilder {
    pub dependencies: Option<HookValue>,
}

/// Begins an effect hook. `None` means the effect runs after every render;
/// `Some(d)` means it runs after the render where `d` first appears and
/// after any render whose `d` differs from the snapshot it last fired with.
pub fn use_effect(dependencies: Option<HookValue>) -> (r: UseEffectBuilder)
    ensures
        r.dependencies == dependencies,
{
    UseEffectBuilder { dependencies }
}

impl UseEffectBuilder {
    /// Stores this render's dependency snapshot in the effect slot at the
    /// current call-order position, creating the slot when this render is
    /// the first to reach this position. The counter always advances by
    /// one. The call fails exactly when the position holds a slot of
    /// another kind, or lies beyond the next free position.
    pub fn build(self, context: &mut HookContext) -> (r: Result<(), HookError>)
        requires
            old(context).counter < usize::MAX,
        ensures
            final(context).counter == old(context).counter + 1,
            match r {
                Ok(_) => {
                    if old(context).counter < old(context).hooks@.len() {
                        &&& old(context).hooks@[old(context).counter as int] is Effect
                        &&& final(context).hooks@ == old(context).hooks@.update(
                            old(context).counter as int,
                            (match old(context).hooks@[old(context).counter as int] {
                                Hook::Effect { last_deps, has_cleanup, .. } => Hook::Effect {
                                    current_deps: self.dependencies,
                                    last_deps,
                                    has_cleanup,
                                },
                                _ => old(context).hooks@[old(context).counter as int],
                            }),
                        )
                    } else {
                        &&& old(context).counter == old(context).hooks@.len()
                        &&& final(context).hooks@ == old(context).hooks@.push(
                            Hook::Effect {
                                current_deps: self.dependencies,
                                last_deps: None,
                                has_cleanup: false,
                            },
                        )
                    }
                },
                Err(_) => {
                    &&& final(context).hooks@ == old(context).hooks@
                    &&& (if old(context).counter < old(context).hooks@.len() {
                        !(old(context).hooks@[old(context).counter as int] is Effect)
                    } else {
                        old(context).counter > old(context).hooks@.len()
                    })
                },
            },
    {
        let position = context.counter;
        context.counter = context.counter + 1;
        if position == context.hooks.len() {
            context.hooks.push(
                Hook::Effect {
                    current_deps: self.dependencies,
                    last_deps: None,
                    has_cleanup: false,
                },
            );
            Ok(())
        } else if position < context.hooks.len() {
            let is_effect = match &context.hooks[position] {
                Hook::Effect { .. } => true,
                _ => false,
            };
            if is_effect {
                if let Hook::Effect { current_deps, .. } = &mut context.hooks[position] {
                    *current_deps = self.dependencies;
                }
                Ok(())
            } else {
                Err(HookError::TypeMismatch)
            }
        } else {
            Err(HookError::TypeMismatch)
        }
    }
}

/// The effect dependency law, stated over the firing predicate that
/// [`HookContext::post_render`] decides with: an effect fires when its
/// dependency first appears (no archived snapshot yet), fires on every
/// render when it has no dependencies, and re-fires against an archived
/// snapshot exactly when the new dependency differs from it.
pub proof fn lemma_effect_dependency(d: HookValue, last: Option<HookValue>)
    ensures
        effect_due(Some(d), None),
        effect_due(None, last),
        forall|d2: HookValue| effect_due(Some(d2), Some(d)) == !hook_value_eq(d2, d),
{
}

} // verus!
