//! The fiber tree: an arena of mutable work-units mirroring the committed
//! tree, with integer-id parent/child/sibling links and tombstone recycling.

use crate::attrs::AttrMap;
use crate::hooks::HookContext;
use crate::tag::Tag;
use crate::vdom::{Events, VNode};
use vstd::prelude::*;

verus! {

/// A stable handle to a fiber, valid until its slot is recycled.
pub type FiberId = usize;

/// The materialized payload of an element fiber. `dom` is the handle of the
/// host element once one has been created for this fiber.
#[derive(Debug)]
pub struct Element<C> {
    pub dom: Option<usize>,
    pub tag: Tag,
    pub attributes: AttrMap,
    pub events: Events,
    pub unprocessed_children: Vec<VNode<C>>,
}

/// The materialized payload of a text fiber.
#[derive(Debug)]
pub struct Text {
    pub dom: Option<usize>,
    pub text: String,
}

/// The materialized payload of a component fiber: its hook slots and the
/// instance whose `render` produces its child.
#[derive(Debug)]
pub struct Component<C> {
    pub hook_context: HookContext,
    pub function: C,
}

/// A fiber's materialized payload.
#[derive(Debug)]
pub enum Node<C> {
    Element(Element<C>),
    Text(Text),
    Component(Component<C>),
}

/// The data an `Update` effect carries to commit.
#[derive(Debug)]
pub enum UpdateData<C> {
    Text(String),
    Element { attributes: AttrMap, events: Events },
    Component(C),
}

/// A pending instruction for the commit phase. A fiber holds at most one.
#[derive(Debug)]
pub enum EffectTag<C> {
    Placement,
    Deletion,
    Update(UpdateData<C>),
}

/// Whether a slot holds a live fiber or a tombstone awaiting reuse.
#[derive(Debug, Clone, Copy, PartialEq, Eq, Structural)]
pub enum State {
    Valid,
    Removed,
}

/// One arena slot: a payload, the tree links (owned solely by the arena),
/// the slot's liveness and the pending effect, if any.
#[derive(Debug)]
pub struct FiberNode<C> {
    pub node: Node<C>,
    pub child: Option<FiberId>,
    pub parent: Option<FiberId>,
    pub sibling: Option<FiberId>,
    pub effect_tag: Option<EffectTag<C>>,
    pub state: State,
}

/// The first `Removed` slot at or after position `i`, if any.
pub open spec fn first_removed_from<C>(s: Seq<FiberNode<C>>, i: int) -> Option<FiberId>
    decreases s.len() - i when 0 <= i <= s.len()
{
    if i >= s.len() {
        None
    } else if s[i].state is Removed {
        Some(i as usize)
    } else {
        first_removed_from(s, i + 1)
    }
}

/// The earliest `Removed` slot of the arena, if any.
pub open spec fn first_removed<C>(s: Seq<FiberNode<C>>) -> Option<FiberId> {
    first_removed_from(s, 0)
}

/// A prefix free of tombstones does not change which slot is found first.
proof fn lemma_first_removed_skip<C>(s: Seq<FiberNode<C>>, i: int)
    requires
        0 <= i <= s.len(),
        forall|j: int| 0 <= j < i ==> !(s[j].state is Removed),
    ensures
        first_removed(s) == first_removed_from(s, i),
    decreases i,
{
    if i > 0 {
        lemma_first_removed_skip(s, i - 1);
    }
}

/// How [`FiberTree::insert_child`] rewrites the arena: `post` is `pre` with
/// `child_id` spliced into `parent_id`'s child chain — as the new head when
/// `after_id` is `None`, else directly after `after_id` — a displaced
/// successor becoming the child's sibling, and nothing else changed.
pub open spec fn spliced<C>(
    pre: Seq<FiberNode<C>>,
    post: Seq<FiberNode<C>>,
    child_id: FiberId,
    parent_id: FiberId,
    after_id: Option<FiberId>,
) -> bool {
    let anchor: int = match after_id {
        Some(a) => a as int,
        None => parent_id as int,
    };
    let displaced = match after_id {
        Some(a) => pre[a as int].sibling,
        None => pre[parent_id as int].child,
    };
    let pre_anchor = pre[anchor];
    let pre_child = pre[child_id as int];
    &&& forall|j: int|
        0 <= j < pre.len() && j != anchor && j != child_id ==> post[j] == pre[j]
    &&& (match after_id {
        Some(_) => post[anchor] == (FiberNode { sibling: Some(child_id), ..pre_anchor }),
        None => post[anchor] == (FiberNode { child: Some(child_id), ..pre_anchor }),
    })
    &&& post[child_id as int] == (FiberNode {
        parent: Some(parent_id),
        sibling: match displaced {
            Some(d) => Some(d),
            None => pre_child.sibling,
        },
        ..pre_child
    })
}

/// The fiber standing just before `id` in the sibling walk from `head`:
/// the first whose sibling link names `id`, within `fuel` hops.
pub open spec fn prev_in_chain<C>(
    nodes: Seq<FiberNode<C>>,
    head: Option<FiberId>,
    id: FiberId,
    fuel: nat,
) -> Option<FiberId>
    decreases fuel,
{
    if fuel == 0 {
        None
    } else {
        match head {
            None => None,
            Some(q) => {
                if q >= nodes.len() {
                    None
                } else if nodes[q as int].sibling == Some(id) {
                    Some(q)
                } else {
                    prev_in_chain(nodes, nodes[q as int].sibling, id, (fuel - 1) as nat)
                }
            },
        }
    }
}

/// Where the removal walk goes after visiting `q`: its first child, else
/// its sibling, else — unless the parent is the removed fiber itself —
/// the parent's sibling.
pub open spec fn removal_step<C>(nodes: Seq<FiberNode<C>>, q: FiberId, id: FiberId) -> Option<
    FiberId,
> {
    if nodes[q as int].child is Some {
        nodes[q as int].child
    } else if nodes[q as int].sibling is Some {
        nodes[q as int].sibling
    } else {
        match nodes[q as int].parent {
            Some(pp) => {
                if pp != id && pp < nodes.len() {
                    nodes[pp as int].sibling
                } else {
                    None
                }
            },
            None => None,
        }
    }
}

/// The fibers the removal walk visits below `id`, following only the
/// arena's links, cut off at `fuel` hops.
pub open spec fn removal_marks<C>(
    nodes: Seq<FiberNode<C>>,
    cur: Option<FiberId>,
    id: FiberId,
    fuel: nat,
) -> Set<FiberId>
    decreases fuel,
{
    if fuel == 0 {
        Set::empty()
    } else {
        match cur {
            None => Set::empty(),
            Some(q) => {
                if q >= nodes.len() {
                    Set::empty()
                } else {
                    removal_marks(nodes, removal_step(nodes, q, id), id, (fuel - 1) as nat).insert(
                        q,
                    )
                }
            },
        }
    }
}

/// Both walks read only links, so arenas with equal links agree on them.
proof fn lemma_marks_depend_on_links<C>(
    a: Seq<FiberNode<C>>,
    b: Seq<FiberNode<C>>,
    cur: Option<FiberId>,
    id: FiberId,
    fuel: nat,
)
    requires
        a.len() == b.len(),
        forall|j: int|
            0 <= j < a.len() ==> (#[trigger] a[j]).child == b[j].child && a[j].sibling
                == b[j].sibling && a[j].parent == b[j].parent,
    ensures
        removal_marks(a, cur, id, fuel) == removal_marks(b, cur, id, fuel),
    decreases fuel,
{
    if fuel > 0 {
        match cur {
            None => {},
            Some(q) => {
                if q < a.len() {
                    assert(removal_step(a, q, id) == removal_step(b, q, id));
                    lemma_marks_depend_on_links(a, b, removal_step(a, q, id), id, (fuel - 1) as nat);
                }
            },
        }
    }
}

/// How [`FiberTree::remove`] rewrites the arena — exactly. Payloads,
/// effect tags and parent links are untouched everywhere. The removed
/// fiber is unlinked: if it was its parent's head child, the parent's
/// child link moves to its sibling; otherwise the first chain predecessor
/// whose sibling link names it (found from the parent's head child) is
/// redirected past it; no other link changes. A fiber ends `Removed`
/// exactly when it is `id`, is visited by the removal walk below `id`, or
/// already was `Removed`.
#[verifier::opaque]
pub open spec fn removed_rewrite<C>(pre: Seq<FiberNode<C>>, post: Seq<FiberNode<C>>, id: FiberId) -> bool {
    if id >= pre.len() {
        post == pre
    } else {
        let n = pre.len();
        let marked = removal_marks(post, post[id as int].child, id, n as nat);
        &&& post.len() == n
        &&& forall|j: int|
            0 <= j < n ==> (#[trigger] post[j]).node == pre[j].node && post[j].effect_tag
                == pre[j].effect_tag && post[j].parent == pre[j].parent
        &&& (match pre[id as int].parent {
            Some(p) => {
                if (p as int) < n && pre[p as int].child == Some(id) {
                    &&& post[p as int].child == pre[id as int].sibling
                    &&& forall|j: int|
                        0 <= j < n && j != p ==> (#[trigger] post[j]).child == pre[j].child
                    &&& forall|j: int| 0 <= j < n ==> (#[trigger] post[j]).sibling == pre[j].sibling
                } else if (p as int) < n {
                    &&& forall|j: int| 0 <= j < n ==> (#[trigger] post[j]).child == pre[j].child
                    &&& (match prev_in_chain(pre, pre[p as int].child, id, n as nat) {
                        Some(q) => {
                            &&& post[q as int].sibling == pre[id as int].sibling
                            &&& forall|j: int|
                                0 <= j < n && j != q ==> (#[trigger] post[j]).sibling
                                    == pre[j].sibling
                        },
                        None => forall|j: int|
                            0 <= j < n ==> (#[trigger] post[j]).sibling == pre[j].sibling,
                    })
                } else {
                    &&& forall|j: int| 0 <= j < n ==> (#[trigger] post[j]).child == pre[j].child
                    &&& forall|j: int| 0 <= j < n ==> (#[trigger] post[j]).sibling == pre[j].sibling
                }
            },
            None => {
                &&& forall|j: int| 0 <= j < n ==> (#[trigger] post[j]).child == pre[j].child
                &&& forall|j: int| 0 <= j < n ==> (#[trigger] post[j]).sibling == pre[j].sibling
            },
        })
        &&& forall|j: int|
            0 <= j < n ==> ((#[trigger] post[j]).state is Removed <==> (j == id || marked.contains(
                j as FiberId,
            ) || pre[j].state is Removed))
    }
}

/// The arena of fibers. Slot indices are the fiber ids; `first_free_node`
/// is the tombstone that the next allocation will consume, if one is known.
#[derive(Debug)]
pub struct FiberTree<C> {
    pub nodes: Vec<FiberNode<C>>,
    pub first_free_node: Option<FiberId>,
}

impl<C> FiberTree<C> {
    /// The arena's internal invariant: the free pointer, when set, names a
    /// tombstone inside the arena.
    pub open spec fn free_ok(&self) -> bool {
        match self.first_free_node {
            Some(f) => (f as int) < self.nodes@.len() && self.nodes@[f as int].state is Removed,
            None => true,
        }
    }

    /// Creates an empty arena.
    pub fn new() -> (r: FiberTree<C>)
        ensures
            r.nodes@.len() == 0,
            r.first_free_node is None,
            r.free_ok(),
    {
        FiberTree { nodes: Vec::new(), first_free_node: None }
    }

    /// The earliest tombstone, found by scanning the slots in order.
    fn scan_removed(&self) -> (r: Option<FiberId>)
        ensures
            r == first_removed(self.nodes@),
            r matches Some(f) ==> f < self.nodes@.len() && self.nodes@[f as int].state is Removed,
    {
        let n = self.nodes.len();
        let mut i: usize = 0;
        #[verifier::loop_isolation(false)]
        while i < n
            invariant
                i <= n,
                forall|j: int| 0 <= j < i ==> !(self.nodes@[j].state is Removed),
            decreases n - i,
        {
            if self.nodes[i].state == State::Removed {
                proof {
                    lemma_first_removed_skip(self.nodes@, i as int);
                }
                return Some(i);
            }
            i = i + 1;
        }
        proof {
            lemma_first_removed_skip(self.nodes@, n as int);
        }
        None
    }

    /// Allocates a slot for a new fiber: state `Valid`, tag `Placement`, no
    /// links. The earliest tombstone is consumed when one is known;
    /// otherwise the arena grows by one slot. The next free pointer is
    /// re-established by scanning for any remaining tombstone.
    pub fn new_node(&mut self, node: Node<C>) -> (id: FiberId)
        requires
            old(self).free_ok(),
        ensures
            final(self).free_ok(),
            id < final(self).nodes@.len(),
            final(self).nodes@[id as int] == (FiberNode {
                node,
                child: None,
                sibling: None,
                parent: None,
                effect_tag: Some(EffectTag::<C>::Placement),
                state: State::Valid,
            }),
            match old(self).first_free_node {
                Some(f) => {
                    &&& id == f
                    &&& final(self).nodes@.len() == old(self).nodes@.len()
                    &&& forall|j: int|
                        0 <= j < old(self).nodes@.len() && j != id ==> final(self).nodes@[j] == old(
                            self,
                        ).nodes@[j]
                    &&& final(self).first_free_node == first_removed(final(self).nodes@)
                },
                None => {
                    &&& id == old(self).nodes@.len()
                    &&& final(self).nodes@ == old(self).nodes@.push(final(self).nodes@[id as int])
                    &&& final(self).first_free_node is None
                },
            },
    {
        let new_fiber_node = FiberNode {
            node,
            child: None,
            sibling: None,
            parent: None,
            effect_tag: Some(EffectTag::Placement),
            state: State::Valid,
        };
        match self.first_free_node {
            Some(first_free) => {
                self.nodes[first_free] = new_fiber_node;
                self.first_free_node = self.scan_removed();
                first_free
            },
            None => {
                self.nodes.push(new_fiber_node);
                self.nodes.len() - 1
            },
        }
    }

    /// The fiber in slot `id`, or `None` when the id lies outside the arena.
    pub fn get(&self, id: FiberId) -> (r: Option<&FiberNode<C>>)
        ensures
            match r {
                Some(n) => id < self.nodes@.len() && *n == self.nodes@[id as int],
                None => id >= self.nodes@.len(),
            },
    {
        if id < self.nodes.len() {
            Some(&self.nodes[id])
        } else {
            None
        }
    }

    /// Splices `child_id` into `parent_id`'s child chain: as the new head
    /// when `after_id` is `None`, else directly after `after_id`. A
    /// displaced successor becomes the spliced child's sibling, and the
    /// child's parent link is set; no other slot changes.
    pub fn insert_child(&mut self, child_id: FiberId, parent_id: FiberId, after_id: Option<
        FiberId,
    >)
        requires
            child_id < old(self).nodes@.len(),
            parent_id < old(self).nodes@.len(),
            child_id != parent_id,
            after_id matches Some(a) ==> a < old(self).nodes@.len() && a != child_id,
        ensures
            final(self).nodes@.len() == old(self).nodes@.len(),
            final(self).first_free_node == old(self).first_free_node,
            old(self).free_ok() ==> final(self).free_ok(),
            spliced(old(self).nodes@, final(self).nodes@, child_id, parent_id, after_id),
    {
        match after_id {
            Some(after) => {
                let displaced = self.nodes[after].sibling;
                let anchor_node = &mut self.nodes[after];
                anchor_node.sibling = Some(child_id);
                if let Some(d) = displaced {
                    let child_node = &mut self.nodes[child_id];
                    child_node.sibling = Some(d);
                }
            },
            None => {
                let displaced = self.nodes[parent_id].child;
                let anchor_node = &mut self.nodes[parent_id];
                anchor_node.child = Some(child_id);
                if let Some(d) = displaced {
                    let child_node = &mut self.nodes[child_id];
                    child_node.sibling = Some(d);
                }
            },
        }
        let child_node = &mut self.nodes[child_id];
        child_node.parent = Some(parent_id);
    }

    /// The first fiber in the sibling walk from `head` whose sibling link
    /// names `id`, if the walk finds one within the arena's size.
    fn find_prev(&self, head: Option<FiberId>, id: FiberId) -> (r: Option<FiberId>)
        ensures
            r == prev_in_chain(self.nodes@, head, id, self.nodes@.len() as nat),
            r matches Some(q) ==> q < self.nodes@.len() && self.nodes@[q as int].sibling == Some(
                id,
            ),
    {
        let n = self.nodes.len();
        let mut cur = head;
        let mut steps: usize = 0;
        #[verifier::loop_isolation(false)]
        while steps < n
            invariant
                steps <= n,
                prev_in_chain(self.nodes@, head, id, n as nat) == prev_in_chain(
                    self.nodes@,
                    cur,
                    id,
                    (n - steps) as nat,
                ),
            decreases n - steps,
        {
            match cur {
                Some(q) => {
                    if q >= n {
                        return None;
                    }
                    if self.nodes[q].sibling == Some(id) {
                        return Some(q);
                    }
                    cur = self.nodes[q].sibling;
                },
                None => {
                    return None;
                },
            }
            steps = steps + 1;
        }
        None
    }

    /// Unlinks the fiber from its parent's child/sibling chain (the head
    /// child distinctly from a middle or tail sibling), marks it and every
    /// fiber the removal walk reaches below it `Removed`, and registers the
    /// slot for reuse; see [`removed_rewrite`] for the exact rewrite. An id
    /// outside the arena is ignored.
    #[verifier::rlimit(100)]
    #[verifier::spinoff_prover]
    pub fn remove(&mut self, id: FiberId)
        requires
            old(self).free_ok(),
        ensures
            final(self).free_ok(),
            final(self).nodes@.len() == old(self).nodes@.len(),
            id >= old(self).nodes@.len() ==> *final(self) == *old(self),
            removed_rewrite(old(self).nodes@, final(self).nodes@, id),
            id < old(self).nodes@.len() ==> final(self).first_free_node == (match old(
                self,
            ).first_free_node {
                Some(f) => Some(f),
                None => Some(id),
            }),
    {
        let ghost pre = old(self).nodes@;
        let n = self.nodes.len();
        if id >= n {
            proof {
                reveal(removed_rewrite);
            }
            return ;
        }
        let reference = (self.nodes[id].parent, self.nodes[id].sibling);
        if let (Some(parent_id), sibling_id) = reference {
            if parent_id < n {
                if self.nodes[parent_id].child == Some(id) {
                    let parent_node = &mut self.nodes[parent_id];
                    parent_node.child = sibling_id;
                } else {
                    let prev = self.find_prev(self.nodes[parent_id].child, id);
                    if let Some(prev) = prev {
                        let prev_node = &mut self.nodes[prev];
                        prev_node.sibling = sibling_id;
                    }
                }
            }
        }
        if self.first_free_node.is_none() {
            self.first_free_node = Some(id);
        }
        {
            let node_ref = &mut self.nodes[id];
            node_ref.state = State::Removed;
        }
        let ghost s1 = self.nodes@;
        self.mark_subtree(id);
        proof {
            let post = self.nodes@;
            assert(removed_rewrite(pre, post, id)) by {
                reveal(removed_rewrite);
                lemma_marks_depend_on_links(post, s1, s1[id as int].child, id, n as nat);
                assert(post[id as int].child == s1[id as int].child);
                assert(forall|j: int|
                    0 <= j < n && j != id ==> (#[trigger] pre[j]).state == s1[j].state);
                assert(post.len() == n);
                assert(forall|j: int|
                    0 <= j < n ==> (#[trigger] post[j]).node == pre[j].node && post[j].effect_tag
                        == pre[j].effect_tag && post[j].parent == pre[j].parent);
                assert(forall|j: int|
                    0 <= j < n ==> ((#[trigger] post[j]).state is Removed <==> (j == id
                        || removal_marks(s1, s1[id as int].child, id, n as nat).contains(
                        j as FiberId,
                    ) || pre[j].state is Removed)));
                assert(forall|j: int|
                    0 <= j < n ==> (#[trigger] post[j]).child == s1[j].child && post[j].sibling
                        == s1[j].sibling);
                match pre[id as int].parent {
                    Some(p) => {
                        if (p as int) < n && pre[p as int].child == Some(id) {
                            assert(post[p as int].child == pre[id as int].sibling);
                            assert(forall|j: int|
                                0 <= j < n && j != p ==> (#[trigger] post[j]).child
                                    == pre[j].child);
                            assert(forall|j: int|
                                0 <= j < n ==> (#[trigger] post[j]).sibling == pre[j].sibling);
                        } else if (p as int) < n {
                            assert(forall|j: int|
                                0 <= j < n ==> (#[trigger] post[j]).child == pre[j].child);
                            match prev_in_chain(pre, pre[p as int].child, id, n as nat) {
                                Some(q) => {
                                    assert(post[q as int].sibling == pre[id as int].sibling);
                                    assert(forall|j: int|
                                        0 <= j < n && j != q ==> (#[trigger] post[j]).sibling
                                            == pre[j].sibling);
                                },
                                None => {
                                    assert(forall|j: int|
                                        0 <= j < n ==> (#[trigger] post[j]).sibling
                                            == pre[j].sibling);
                                },
                            }
                        }
                    },
                    None => {},
                }
            }
        }
    }

    /// Marks every fiber the removal walk visits below `id` as `Removed`,
    /// touching nothing else.
    #[verifier::rlimit(60)]
    fn mark_subtree(&mut self, id: FiberId)
        requires
            id < old(self).nodes@.len(),
            match old(self).first_free_node {
                Some(f) => f < old(self).nodes@.len() && old(self).nodes@[f as int].state
                    is Removed,
                None => false,
            },
        ensures
            final(self).nodes@.len() == old(self).nodes@.len(),
            final(self).first_free_node == old(self).first_free_node,
            final(self).free_ok(),
            forall|j: int|
                0 <= j < old(self).nodes@.len() ==> {
                    let a = #[trigger] final(self).nodes@[j];
                    let b = old(self).nodes@[j];
                    a.node == b.node && a.effect_tag == b.effect_tag && a.parent == b.parent
                        && a.child == b.child && a.sibling == b.sibling
                },
            forall|j: int|
                0 <= j < old(self).nodes@.len() ==> ((#[trigger] final(self).nodes@[j]).state
                    is Removed <==> (removal_marks(
                    old(self).nodes@,
                    old(self).nodes@[id as int].child,
                    id,
                    old(self).nodes@.len() as nat,
                ).contains(j as FiberId) || old(self).nodes@[j].state is Removed)),
    {
        let ghost s1 = old(self).nodes@;
        let n = self.nodes.len();
        let ghost c0 = s1[id as int].child;
        let mut current_id = self.nodes[id].child;
        let ghost mut visited: Set<FiberId> = Set::empty();
        let mut steps: usize = 0;
        proof {
            assert(removal_marks(s1, c0, id, n as nat) =~= visited.union(
                removal_marks(s1, current_id, id, (n - steps) as nat),
            ));
        }
        #[verifier::loop_isolation(false)]
        while steps < n
            invariant
                steps <= n,
                n == self.nodes@.len(),
                self.first_free_node == old(self).first_free_node,
                forall|j: int|
                    0 <= j < n ==> {
                        let a = #[trigger] self.nodes@[j];
                        a.node == s1[j].node && a.effect_tag == s1[j].effect_tag && a.parent
                            == s1[j].parent && a.child == s1[j].child && a.sibling == s1[j].sibling
                    },
                forall|j: int|
                    0 <= j < n ==> ((#[trigger] self.nodes@[j]).state is Removed <==> (
                    visited.contains(j as FiberId) || s1[j].state is Removed)),
                removal_marks(s1, c0, id, n as nat) == visited.union(
                    removal_marks(s1, current_id, id, (n - steps) as nat),
                ),
            decreases n - steps,
        {
            match current_id {
                Some(some_current_id) if some_current_id < n => {
                    let ghost cur0 = current_id;
                    {
                        let node_ref = &mut self.nodes[some_current_id];
                        node_ref.state = State::Removed;
                    }
                    proof {
                        visited = visited.insert(some_current_id);
                    }
                    let node_ref = &self.nodes[some_current_id];
                    if node_ref.child.is_some() {
                        current_id = node_ref.child;
                    } else if node_ref.sibling.is_some() {
                        current_id = node_ref.sibling;
                    } else if let Some(parent) = node_ref.parent {
                        if parent != id && parent < n {
                            current_id = self.nodes[parent].sibling;
                        } else {
                            current_id = None;
                        }
                    } else {
                        current_id = None;
                    }
                    proof {
                        assert(current_id == removal_step(s1, some_current_id, id));
                        assert(removal_marks(s1, cur0, id, (n - steps) as nat) =~= removal_marks(
                            s1,
                            current_id,
                            id,
                            (n - (steps + 1)) as nat,
                        ).insert(some_current_id));
                        assert(removal_marks(s1, c0, id, n as nat) =~= visited.union(
                            removal_marks(s1, current_id, id, (n - (steps + 1)) as nat),
                        ));
                    }
                },
                _ => {
                    proof {
                        assert(removal_marks(s1, current_id, id, (n - steps) as nat)
                            =~= Set::<FiberId>::empty());
                        assert(removal_marks(s1, c0, id, n as nat) =~= visited);
                    }
                    break ;
                },
            }
            steps = steps + 1;
        }
        proof {
            if steps == n {
                assert(removal_marks(s1, current_id, id, 0nat) =~= Set::<FiberId>::empty());
                assert(removal_marks(s1, c0, id, n as nat) =~= visited);
            }
        }
    }
}

} // verus!
