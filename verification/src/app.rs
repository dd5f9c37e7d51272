//! The application instance and its cooperative scheduler.
//!
//! A single [`App`] owns the fiber arena, the host document and the two
//! scheduler pointers: the root of the render sweep in progress and the
//! next unit of work. A host loop drives it by calling [`App::work_loop`]
//! with whatever budget remains of the current callback and then
//! [`App::commit_work`]; a state update redirects both pointers at the
//! dirtied fiber, abandoning the remainder of any in-flight pass.

use crate::attrs::AttrMap;
use crate::component::AnyComponent;
use crate::fiber::{Element, FiberId, FiberTree, Node};
use crate::hooks::{HookContext, HookError, HookValue, State};
use crate::host::HostDoc;
use crate::reconciliation::{commit, perform_unit_of_work, unit_post, CommitStats};
use crate::tag::Tag;
use crate::vdom::{Events, VNode};
use vstd::prelude::*;

verus! {

/// One live application: the fiber arena, the host document and the
/// scheduler state. `root` is the mounted container fiber; `wip_root` the
/// fiber the current sweep started at, if one is under way or awaiting
/// commit; `next_unit_of_work` where the sweep resumes.
#[derive(Debug)]
pub struct App<C> {
    pub fiber_tree: FiberTree<C>,
    pub root: FiberId,
    pub wip_root: Option<FiberId>,
    pub next_unit_of_work: Option<FiberId>,
    pub host: HostDoc,
}

impl<C: AnyComponent> App<C> {
    /// The scheduler's internal invariant: the arena's free pointer is
    /// sound and the container fiber exists.
    pub open spec fn wf(&self) -> bool {
        &&& self.fiber_tree.free_ok()
        &&& (self.root as int) < self.fiber_tree.nodes@.len()
    }

    /// Mounts `element`: creates the host container, a container fiber
    /// holding `element` as its one pending child, and schedules the
    /// container as the first render root.
    pub fn new(element: VNode<C>) -> (r: App<C>)
        ensures
            r.wf(),
            r.wip_root == Some(r.root),
            r.next_unit_of_work == Some(r.root),
            r.fiber_tree.nodes@.len() == 1,
            r.fiber_tree.nodes@[r.root as int].node matches Node::Element(e) && ({
                &&& e.dom == Some(0usize)
                &&& e.tag == Tag::Empty
                &&& e.unprocessed_children@.len() == 1
                &&& e.unprocessed_children@[0] == element
            }),
            r.host.nodes@.len() == 1,
    {
        let mut host = HostDoc::new();
        let container = host.create_element(Tag::Empty, AttrMap::new(), Events::new());
        let mut fiber_tree: FiberTree<C> = FiberTree::new();
        let mut pending: Vec<VNode<C>> = Vec::new();
        pending.push(element);
        let root = fiber_tree.new_node(
            Node::Element(
                Element {
                    dom: Some(container),
                    tag: Tag::Empty,
                    attributes: AttrMap::new(),
                    events: Events::new(),
                    unprocessed_children: pending,
                },
            ),
        );
        App { fiber_tree, root, wip_root: Some(root), next_unit_of_work: Some(root), host }
    }

    /// Whether the current sweep has no work left — commit may follow.
    pub fn working_complete(&self) -> (r: bool)
        ensures
            r == (self.next_unit_of_work is None),
    {
        self.next_unit_of_work.is_none()
    }

    /// One scheduler step: a unit of work was pending, it was performed
    /// and the next-unit pointer advanced exactly as
    /// [`crate::reconciliation::unit_post`] states, and the root and
    /// work-in-progress markers stayed put.
    pub open spec fn work_step(pre: App<C>, post: App<C>) -> bool {
        &&& pre.next_unit_of_work matches Some(id) && unit_post(
            pre.fiber_tree,
            post.fiber_tree,
            pre.host,
            post.host,
            id,
            post.next_unit_of_work,
        )
        &&& post.root == pre.root
        &&& post.wip_root == pre.wip_root
    }

    /// Drives the reconciler one fiber at a time while work remains and
    /// the budget lasts, handing back the budget left over: on return the
    /// sweep is complete (`next_unit_of_work` is `None`) or the whole
    /// budget was spent on units of work — an exhausted budget persists
    /// the next unit, so a later callback resumes exactly where this one
    /// stopped. Committed host nodes are never touched.
    pub fn work_loop(&mut self, budget: u64) -> (remaining: u64)
        requires
            old(self).wf(),
        ensures
            final(self).wf(),
            final(self).root == old(self).root,
            final(self).wip_root == old(self).wip_root,
            remaining <= budget,
            remaining == 0 || final(self).next_unit_of_work is None,
            remaining == budget ==> (budget == 0 || old(self).next_unit_of_work is None),
            final(self).host.nodes@.len() >= old(self).host.nodes@.len(),
            forall|j: int|
                0 <= j < old(self).host.nodes@.len() ==> final(self).host.nodes@[j] == old(
                    self,
                ).host.nodes@[j],
            exists|trace: Seq<App<C>>|
                {
                    &&& trace.len() == budget - remaining + 1
                    &&& trace[0] == *old(self)
                    &&& trace.last() == *final(self)
                    &&& (forall|i: int|
                        0 <= i < trace.len() - 1 ==> Self::work_step(
                            #[trigger] trace[i],
                            trace[i + 1],
                        ))
                },
    {
        let mut remaining = budget;
        let ghost mut trace: Seq<App<C>> = seq![*old(self)];
        #[verifier::loop_isolation(false)]
        while remaining > 0 && self.next_unit_of_work.is_some()
            invariant
                self.wf(),
                self.root == old(self).root,
                self.wip_root == old(self).wip_root,
                remaining <= budget,
                remaining == budget ==> (budget == 0 || self.next_unit_of_work == old(
                    self,
                ).next_unit_of_work),
                self.host.nodes@.len() >= old(self).host.nodes@.len(),
                forall|j: int|
                    0 <= j < old(self).host.nodes@.len() ==> self.host.nodes@[j] == old(
                        self,
                    ).host.nodes@[j],
                trace.len() == budget - remaining + 1,
                trace[0] == *old(self),
                trace.last() == *self,
                forall|i: int|
                    0 <= i < trace.len() - 1 ==> Self::work_step(#[trigger] trace[i], trace[i + 1]),
            decreases remaining,
        {
            let ghost before = *self;
            let current = self.next_unit_of_work.unwrap();
            self.next_unit_of_work = perform_unit_of_work(
                &mut self.fiber_tree,
                &mut self.host,
                current,
            );
            remaining = remaining - 1;
            proof {
                let ghost prior = trace;
                trace = trace.push(*self);
                assert(Self::work_step(before, *self));
                assert(trace.last() == *self);
                assert forall|i: int|
                    0 <= i < trace.len() - 1 implies Self::work_step(
                    #[trigger] trace[i],
                    trace[i + 1],
                ) by {
                    if i < prior.len() - 1 {
                        assert(trace[i] == prior[i] && trace[i + 1] == prior[i + 1]);
                    } else {
                        assert(trace[i] == before && trace[i + 1] == *self);
                    }
                }
            }
        }
        remaining
    }

    /// What a performed commit guarantees at the scheduler level: for the
    /// pass's log, the whole of [`crate::reconciliation::commit_post`]
    /// holds between the two scheduler states, starting at the
    /// work-in-progress root's first child.
    pub open spec fn commit_work_post(pre: App<C>, post: App<C>, stats: CommitStats) -> bool {
        exists|log: Seq<crate::reconciliation::CommitLogEntry>|
            #[trigger] crate::reconciliation::commit_post(
                pre.fiber_tree,
                post.fiber_tree,
                pre.host,
                post.host,
                pre.fiber_tree.nodes@[pre.wip_root->Some_0 as int].child,
                stats,
                log,
            )
    }

    /// Commits the completed sweep: once the sweep has no work left
    /// (`next_unit_of_work` is `None`), a work-in-progress root stands and
    /// the budget allows, every pending effect is applied from the root's
    /// first child downward per [`crate::reconciliation::commit`], and the
    /// root marker is cleared — one commit per completed sweep, never
    /// time-sliced. It commits exactly under those conditions (and when
    /// the root has a child at all); otherwise nothing changes.
    #[verifier::rlimit(100)]
    #[verifier::spinoff_prover]
    pub fn commit_work(&mut self, continue_working: bool) -> (r: Option<CommitStats>)
        requires
            old(self).wf(),
        ensures
            final(self).wf(),
            final(self).root == old(self).root,
            r is Some <==> (old(self).next_unit_of_work is None && continue_working && (old(
                self,
            ).wip_root matches Some(w) && w < old(self).fiber_tree.nodes@.len() && old(
                self,
            ).fiber_tree.nodes@[w as int].child is Some)),
            r is Some ==> final(self).wip_root is None && final(self).next_unit_of_work == old(
                self,
            ).next_unit_of_work,
            r is Some ==> Self::commit_work_post(*old(self), *final(self), r->Some_0),
            r is None ==> *final(self) == *old(self),
    {
        if self.next_unit_of_work.is_none() {
            if let Some(wip_root) = self.wip_root {
                if continue_working && wip_root < self.fiber_tree.nodes.len() {
                    if let Some(child_id) = self.fiber_tree.nodes[wip_root].child {
                        let (stats, log) = commit(
                            &mut self.fiber_tree,
                            &mut self.host,
                            Some(child_id),
                        );
                        self.wip_root = None;
                        proof {
                            assert(old(self).wip_root == Some(wip_root));
                            assert(old(self).fiber_tree.nodes@[wip_root as int].child == Some(
                                child_id,
                            ));
                            assert(crate::reconciliation::commit_post(
                                old(self).fiber_tree,
                                self.fiber_tree,
                                old(self).host,
                                self.host,
                                old(self).fiber_tree.nodes@[old(self).wip_root->Some_0 as int].child,
                                stats,
                                log@,
                            ));
                            assert(Self::commit_work_post(*old(self), *self, stats));
                        }
                        return Some(stats);
                    }
                }
            }
        }
        None
    }

    /// A setter's scheduling half: replaces the state slot's value in the
    /// owning component's hook context and redirects the scheduler at the
    /// owning fiber as the new render root. Safe to call between render
    /// passes (from an event handler); it never re-renders synchronously,
    /// the driving loop observes the pointers on its next tick. An
    /// in-flight pass's uncommitted work is simply abandoned.
    pub fn set_state(&mut self, handle: &State, new_value: HookValue) -> (r: Result<
        (),
        HookError,
    >)
        requires
            old(self).wf(),
        ensures
            final(self).wf(),
            final(self).root == old(self).root,
            r is Ok <==> (handle.fiber_id < old(self).fiber_tree.nodes@.len() && (old(
                self,
            ).fiber_tree.nodes@[handle.fiber_id as int].node matches Node::Component(comp)
                && handle.slot < comp.hook_context.hooks@.len()
                && comp.hook_context.hooks@[handle.slot as int] is State)),
            match r {
                Ok(_) => {
                    &&& final(self).wip_root == Some(handle.fiber_id)
                    &&& final(self).next_unit_of_work == Some(handle.fiber_id)
                    &&& final(self).host == old(self).host
                    &&& final(self).fiber_tree.nodes@.len() == old(self).fiber_tree.nodes@.len()
                    &&& final(self).fiber_tree.first_free_node == old(
                        self,
                    ).fiber_tree.first_free_node
                    &&& (forall|j: int|
                        0 <= j < old(self).fiber_tree.nodes@.len() && j != handle.fiber_id
                            ==> #[trigger] final(self).fiber_tree.nodes@[j] == old(
                            self,
                        ).fiber_tree.nodes@[j])
                    &&& ({
                        let fb = final(self).fiber_tree.nodes@[handle.fiber_id as int];
                        let ob = old(self).fiber_tree.nodes@[handle.fiber_id as int];
                        fb.child == ob.child && fb.sibling == ob.sibling && fb.parent == ob.parent
                            && fb.state == ob.state && fb.effect_tag == ob.effect_tag
                    })
                    &&& (old(self).fiber_tree.nodes@[handle.fiber_id as int].node matches
                        Node::Component(comp) ==> (final(self).fiber_tree.nodes@[handle.fiber_id as int].node matches Node::Component(c2)
                        && ({
                        &&& c2.function == comp.function
                        &&& c2.hook_context.counter == comp.hook_context.counter
                        &&& c2.hook_context.hooks@ == comp.hook_context.hooks@.update(
                            handle.slot as int,
                            crate::hooks::Hook::State(new_value),
                        )
                    })))
                },
                Err(_) => final(self).wip_root == old(self).wip_root
                    && final(self).next_unit_of_work == old(self).next_unit_of_work
                    && final(self).fiber_tree.nodes@.len() == old(self).fiber_tree.nodes@.len(),
            },
    {
        if handle.fiber_id < self.fiber_tree.nodes.len() {
            let applied: Result<(), HookError> = match &mut self.fiber_tree.nodes[
                handle.fiber_id
            ].node {
                Node::Component(comp) => handle.set(&mut comp.hook_context, new_value),
                _ => Err(HookError::TypeMismatch),
            };
            if applied.is_ok() {
                self.wip_root = Some(handle.fiber_id);
                self.next_unit_of_work = Some(handle.fiber_id);
                return Ok(());
            }
            return applied;
        }
        Err(HookError::TypeMismatch)
    }
}

} // verus!
