//! The reconciler: matches a render pass's virtual nodes against the
//! existing fiber chain, strictly by position, and tags fibers with the
//! effects a later commit must apply.
//!
//! Matching is positional and never keyed: the new child list and the old
//! sibling chain are walked in lock step. A position where kind and
//! tag/identity agree reuses the existing fiber — an `Update` effect when
//! its data changed, no effect at all when it did not; a position where
//! they disagree tags the old fiber `Deletion` and places a fresh fiber;
//! positions beyond either list become pure placements or deletions.

use crate::component::AnyComponent;
use crate::attrs::AttrMap;
use crate::events::EventType;
use crate::fiber::{EffectTag, FiberId, FiberNode, FiberTree, Node, UpdateData};
use crate::host::{HostDoc, HostNode, HostOp};
use crate::fiber::{Component, Element, Text};
use crate::hooks::HookContext;
use crate::vdom::{attr_entries_equal, Events, VElement, VNode};
use vstd::prelude::*;

verus! {

/// Whether a fiber payload and a virtual node agree in kind and in
/// tag/component-identity — the positional reuse test.
pub open spec fn spec_matches<C: AnyComponent>(n: Node<C>, v: VNode<C>) -> bool {
    match (n, v) {
        (Node::Element(e), VNode::Element(ve)) => e.tag == ve.tag,
        (Node::Text(_), VNode::Text(_)) => true,
        (Node::Component(c), VNode::Component(vc)) => c.function.kind_id() == vc.kind_id(),
        _ => false,
    }
}

/// Whether a virtual node describes exactly what the fiber already shows,
/// so that reusing the fiber needs no effect at all. A component instance
/// is never "unchanged": its props cannot be inspected, so a matching
/// component fiber always takes an `Update`.
pub open spec fn spec_unchanged<C: AnyComponent>(n: Node<C>, v: VNode<C>) -> bool {
    match (n, v) {
        (Node::Element(e), VNode::Element(ve)) => e.tag == ve.tag && attr_entries_equal(
            e.attributes@,
            ve.attributes@,
        ) && e.events@ == ve.events@,
        (Node::Text(t), VNode::Text(s)) => t.text@ == s@,
        _ => false,
    }
}

/// Whether `u` is the update payload that reconciling `v` onto a matching
/// fiber attaches.
pub open spec fn update_data_matches<C: AnyComponent>(v: VNode<C>, u: UpdateData<C>) -> bool {
    match (v, u) {
        (VNode::Element(ve), UpdateData::Element { attributes, events }) => attributes
            == ve.attributes && events == ve.events,
        (VNode::Text(s), UpdateData::Text(t)) => t@ == s@,
        (VNode::Component(c), UpdateData::Component(c2)) => c2 == c,
        _ => false,
    }
}

/// Whether `n` is the freshly materialized payload of `v`: no host handle
/// yet, the virtual node's own data, and (for a component) an empty hook
/// context.
pub open spec fn materializes<C: AnyComponent>(v: VNode<C>, n: Node<C>) -> bool {
    match (v, n) {
        (VNode::Element(ve), Node::Element(e)) => e.dom is None && e.tag == ve.tag && e.attributes
            == ve.attributes && e.events == ve.events && e.unprocessed_children == ve.children,
        (VNode::Text(s), Node::Text(t)) => t.dom is None && t.text@ == s@,
        (VNode::Component(c), Node::Component(cn)) => cn.function == c
            && cn.hook_context.hooks@.len() == 0 && cn.hook_context.counter == 0,
        _ => false,
    }
}

/// How a reused fiber's payload changes: the host handle and materialized
/// data stay, and an element fiber stashes the virtual node's children for
/// later expansion.
pub open spec fn reused_payload_ok<C: AnyComponent>(pre_n: Node<C>, post_n: Node<C>, v: VNode<
    C,
>) -> bool {
    match (pre_n, post_n) {
        (Node::Element(e1), Node::Element(e2)) => {
            &&& e2.dom == e1.dom
            &&& e2.tag == e1.tag
            &&& e2.attributes == e1.attributes
            &&& e2.events == e1.events
            &&& (v matches VNode::Element(ve) && e2.unprocessed_children == ve.children)
        },
        (Node::Text(t1), Node::Text(t2)) => t2.text == t1.text && t2.dom == t1.dom,
        (Node::Component(c1), Node::Component(c2)) => c2.hook_context == c1.hook_context
            && c2.function == c1.function,
        _ => false,
    }
}

/// The sibling chain hanging from `head`: ids followed through `sibling`
/// links while they stay inside the arena and name live fibers, cut off at
/// `fuel` hops.
pub open spec fn chain_from<C>(nodes: Seq<FiberNode<C>>, head: Option<FiberId>, fuel: nat) -> Seq<
    FiberId,
>
    decreases fuel,
{
    if fuel == 0 {
        Seq::empty()
    } else {
        match head {
            None => Seq::empty(),
            Some(h) => {
                if h >= nodes.len() || !(nodes[h as int].state is Valid) {
                    Seq::empty()
                } else {
                    seq![h] + chain_from(nodes, nodes[h as int].sibling, (fuel - 1) as nat)
                }
            },
        }
    }
}

/// The chain of `parent`'s live children, in sibling order.
pub open spec fn child_chain_of<C>(nodes: Seq<FiberNode<C>>, parent: FiberId) -> Seq<FiberId> {
    chain_from(nodes, nodes[parent as int].child, nodes.len() as nat)
}

/// Every chain entry is a live fiber inside the arena.
pub proof fn lemma_chain_entries<C>(nodes: Seq<FiberNode<C>>, head: Option<FiberId>, fuel: nat)
    ensures
        forall|k: int|
            0 <= k < chain_from(nodes, head, fuel).len() ==> {
                let id = #[trigger] chain_from(nodes, head, fuel)[k];
                id < nodes.len() && nodes[id as int].state is Valid
            },
    decreases fuel,
{
    if fuel > 0 {
        match head {
            None => {},
            Some(h) => {
                if h < nodes.len() && nodes[h as int].state is Valid {
                    lemma_chain_entries(nodes, nodes[h as int].sibling, (fuel - 1) as nat);
                }
            },
        }
    }
}

/// Whether a collected chain can anchor a reconciliation: no fiber appears
/// twice, and the work-in-progress parent is not among its own children.
pub open spec fn chain_wf(c: Seq<FiberId>, wip_id: FiberId) -> bool {
    &&& forall|i: int, j: int| 0 <= i < j < c.len() ==> c[i] != c[j]
    &&& forall|i: int| 0 <= i < c.len() ==> c[i] != wip_id
}

/// Whether the fiber payload and the virtual node match positionally.
pub fn node_matches<C: AnyComponent>(n: &Node<C>, v: &VNode<C>) -> (r: bool)
    ensures
        r == spec_matches(*n, *v),
{
    match (n, v) {
        (Node::Element(e), VNode::Element(ve)) => e.tag == ve.tag,
        (Node::Text(_), VNode::Text(_)) => true,
        (Node::Component(c), VNode::Component(vc)) => c.function.get_type() == vc.get_type(),
        _ => false,
    }
}

/// Whether the virtual node describes exactly what the fiber shows.
pub fn node_unchanged<C: AnyComponent>(n: &Node<C>, v: &VNode<C>) -> (r: bool)
    ensures
        r == spec_unchanged(*n, *v),
{
    match (n, v) {
        (Node::Element(e), VNode::Element(ve)) => e.tag == ve.tag && e.attributes.same_entries(
            &ve.attributes,
        ) && e.events.same_entries(&ve.events),
        (Node::Text(t), VNode::Text(s)) => (&t.text).eq(s),
        _ => false,
    }
}

/// Materializes a virtual node into a fresh fiber payload.
pub fn to_node<C: AnyComponent>(v: VNode<C>) -> (r: Node<C>)
    ensures
        materializes(v, r),
{
    match v {
        VNode::Element(ve) => {
            let VElement { tag, attributes, events, children } = ve;
            Node::Element(
                Element { dom: None, tag, attributes, events, unprocessed_children: children },
            )
        },
        VNode::Text(text) => Node::Text(Text { dom: None, text }),
        VNode::Component(function) => Node::Component(
            Component { hook_context: HookContext::new(), function },
        ),
    }
}

/// Collects `parent`'s live child chain into a vector of fiber ids.
pub fn child_chain<C>(tree: &FiberTree<C>, parent: FiberId) -> (r: Vec<FiberId>)
    requires
        parent < tree.nodes@.len(),
    ensures
        r@ == child_chain_of(tree.nodes@, parent),
{
    let n = tree.nodes.len();
    let mut r: Vec<FiberId> = Vec::new();
    let mut cur: Option<FiberId> = tree.nodes[parent].child;
    let mut steps: usize = 0;
    #[verifier::loop_isolation(false)]
    while steps < n
        invariant
            steps <= n,
            child_chain_of(tree.nodes@, parent) == r@ + chain_from(
                tree.nodes@,
                cur,
                (n - steps) as nat,
            ),
        decreases n - steps,
    {
        match cur {
            Some(h) => {
                if h < n && tree.nodes[h].state == crate::fiber::State::Valid {
                    r.push(h);
                    cur = tree.nodes[h].sibling;
                    proof {
                        assert(child_chain_of(tree.nodes@, parent) =~= r@ + chain_from(
                            tree.nodes@,
                            cur,
                            (n - (steps + 1)) as nat,
                        ));
                    }
                } else {
                    proof {
                        assert(chain_from(tree.nodes@, cur, (n - steps) as nat)
                            =~= Seq::<FiberId>::empty());
                        assert(child_chain_of(tree.nodes@, parent) =~= r@);
                    }
                    return r;
                }
            },
            None => {
                proof {
                    assert(child_chain_of(tree.nodes@, parent) =~= r@);
                }
                return r;
            },
        }
        steps = steps + 1;
    }
    proof {
        assert(chain_from(tree.nodes@, cur, 0nat) =~= Seq::<FiberId>::empty());
        assert(child_chain_of(tree.nodes@, parent) =~= r@);
    }
    r
}

/// Checks that a collected chain is fit to anchor a reconciliation.
fn check_chain_wf(chain: &Vec<FiberId>, wip_id: FiberId) -> (r: bool)
    ensures
        r == chain_wf(chain@, wip_id),
{
    let n = chain.len();
    let mut i: usize = 0;
    #[verifier::loop_isolation(false)]
    while i < n
        invariant
            i <= n,
            forall|x: int, y: int| 0 <= x < y < n && x < i ==> chain@[x] != chain@[y],
            forall|x: int| 0 <= x < i ==> chain@[x] != wip_id,
        decreases n - i,
    {
        if chain[i] == wip_id {
            return false;
        }
        let mut j: usize = i + 1;
        #[verifier::loop_isolation(false)]
        while j < n
            invariant
                i < j <= n,
                forall|y: int| i < y < j ==> chain@[i as int] != chain@[y],
            decreases n - j,
        {
            if chain[i] == chain[j] {
                return false;
            }
            j = j + 1;
        }
        i = i + 1;
    }
    true
}

} // verus!

verus! {

/// What one position of a reconciliation did.
#[derive(Debug, Clone, Copy, PartialEq, Eq, Structural)]
pub enum ChildOutcome {
    /// The old fiber at this position was kept; `changed` says whether an
    /// `Update` effect was attached (or the data was already current).
    Reused { id: FiberId, changed: bool },
    /// The old fiber mismatched: it was tagged `Deletion` and a fresh fiber
    /// was placed at this position.
    Replaced { old_id: FiberId, new_id: FiberId },
    /// There was no old fiber at this position: a fresh fiber was placed.
    Placed { new_id: FiberId },
}

/// The fiber this outcome allocated, if any.
pub open spec fn outcome_new_id(oc: ChildOutcome) -> Option<FiberId> {
    match oc {
        ChildOutcome::Reused { .. } => None,
        ChildOutcome::Replaced { new_id, .. } => Some(new_id),
        ChildOutcome::Placed { new_id } => Some(new_id),
    }
}

/// Whether `id` is a fiber that one of `outcomes` allocated.
pub open spec fn is_new_of(outcomes: Seq<ChildOutcome>, id: FiberId) -> bool {
    exists|k: int| 0 <= k < outcomes.len() && outcome_new_id(#[trigger] outcomes[k]) == Some(id)
}

/// Whether slot `j` carries the same payload, effect tag, parent link and
/// state in `p1` and `p2` (its child and sibling links may differ).
pub open spec fn same_core<C: AnyComponent>(p1: Seq<FiberNode<C>>, p2: Seq<FiberNode<C>>, j: int) -> bool {
    &&& 0 <= j < p1.len()
    &&& j < p2.len()
    &&& p2[j].node == p1[j].node
    &&& p2[j].effect_tag == p1[j].effect_tag
    &&& p2[j].parent == p1[j].parent
    &&& p2[j].state == p1[j].state
}

/// What reconciling position `k` guarantees: against the old chain `c` and
/// the new child list `elems`, position `k` is reused exactly when kind and
/// tag/identity match there — with an `Update` effect if and only if the
/// data changed — and is otherwise replaced (old fiber tagged `Deletion`)
/// or, past the end of the chain, purely placed.
pub open spec fn outcome_ok<C: AnyComponent>(
    pre: Seq<FiberNode<C>>,
    post: Seq<FiberNode<C>>,
    c: Seq<FiberId>,
    elems: Seq<VNode<C>>,
    wip: FiberId,
    k: int,
    oc: ChildOutcome,
) -> bool {
    if k < c.len() {
        let old_id = c[k];
        if spec_matches(pre[old_id as int].node, elems[k]) {
            &&& oc == (ChildOutcome::Reused {
                id: old_id,
                changed: !spec_unchanged(pre[old_id as int].node, elems[k]),
            })
            &&& post[old_id as int].parent == Some(wip)
            &&& post[old_id as int].state == pre[old_id as int].state
            &&& reused_payload_ok(pre[old_id as int].node, post[old_id as int].node, elems[k])
            &&& if spec_unchanged(pre[old_id as int].node, elems[k]) {
                post[old_id as int].effect_tag is None
            } else {
                post[old_id as int].effect_tag matches Some(EffectTag::Update(u))
                    && update_data_matches(elems[k], u)
            }
        } else {
            &&& oc matches ChildOutcome::Replaced { old_id: o, new_id } && ({
                &&& o == old_id
                &&& new_id < post.len()
                &&& post[new_id as int].state is Valid
                &&& post[new_id as int].effect_tag matches Some(EffectTag::Placement)
                &&& post[new_id as int].parent == Some(wip)
                &&& materializes(elems[k], post[new_id as int].node)
            })
            &&& post[old_id as int].effect_tag matches Some(EffectTag::Deletion)
            &&& post[old_id as int].node == pre[old_id as int].node
            &&& post[old_id as int].state == pre[old_id as int].state
        }
    } else {
        oc matches ChildOutcome::Placed { new_id } && ({
            &&& new_id < post.len()
            &&& post[new_id as int].state is Valid
            &&& post[new_id as int].effect_tag matches Some(EffectTag::Placement)
            &&& post[new_id as int].parent == Some(wip)
            &&& materializes(elems[k], post[new_id as int].node)
        })
    }
}

/// A position's guarantees survive later work that leaves the two fibers it
/// speaks of untouched in payload, tag, parent and state.
proof fn lemma_outcome_stable<C: AnyComponent>(
    pre: Seq<FiberNode<C>>,
    p1: Seq<FiberNode<C>>,
    p2: Seq<FiberNode<C>>,
    c: Seq<FiberId>,
    elems: Seq<VNode<C>>,
    wip: FiberId,
    k: int,
    oc: ChildOutcome,
)
    requires
        outcome_ok(pre, p1, c, elems, wip, k, oc),
        p2.len() >= p1.len(),
        k < c.len() ==> same_core(p1, p2, c[k] as int),
        outcome_new_id(oc) matches Some(id) ==> same_core(p1, p2, id as int),
    ensures
        outcome_ok(pre, p2, c, elems, wip, k, oc),
{
}

/// What a reconciliation leaves untouched: every fiber that is neither the
/// work-in-progress parent, nor on the old chain, nor freshly allocated;
/// and of the parent itself everything but its head-child link.
pub open spec fn reconcile_frame<C: AnyComponent>(
    pre: Seq<FiberNode<C>>,
    post: Seq<FiberNode<C>>,
    c: Seq<FiberId>,
    outcomes: Seq<ChildOutcome>,
    wip: FiberId,
) -> bool {
    &&& post.len() >= pre.len()
    &&& forall|j: int|
        0 <= j < pre.len() && j != wip && !c.contains(j as FiberId) && !is_new_of(
            outcomes,
            j as FiberId,
        ) ==> post[j] == pre[j]
    &&& post[wip as int].node == pre[wip as int].node
    &&& post[wip as int].effect_tag == pre[wip as int].effect_tag
    &&& post[wip as int].state == pre[wip as int].state
    &&& post[wip as int].parent == pre[wip as int].parent
    &&& post[wip as int].sibling == pre[wip as int].sibling
}

/// Tags a mismatched old fiber for deletion; everything else stays.
fn mark_deletion<C: AnyComponent>(tree: &mut FiberTree<C>, old_id: FiberId)
    requires
        old(tree).free_ok(),
        old_id < old(tree).nodes@.len(),
    ensures
        final(tree).free_ok(),
        final(tree).nodes@.len() == old(tree).nodes@.len(),
        final(tree).first_free_node == old(tree).first_free_node,
        forall|j: int|
            0 <= j < old(tree).nodes@.len() && j != old_id ==> final(tree).nodes@[j] == old(
                tree,
            ).nodes@[j],
        final(tree).nodes@[old_id as int].effect_tag matches Some(EffectTag::Deletion),
        final(tree).nodes@[old_id as int].node == old(tree).nodes@[old_id as int].node,
        final(tree).nodes@[old_id as int].state == old(tree).nodes@[old_id as int].state,
        final(tree).nodes@[old_id as int].parent == old(tree).nodes@[old_id as int].parent,
        final(tree).nodes@[old_id as int].child == old(tree).nodes@[old_id as int].child,
        final(tree).nodes@[old_id as int].sibling == old(tree).nodes@[old_id as int].sibling,
{
    let f = &mut tree.nodes[old_id];
    f.effect_tag = Some(EffectTag::Deletion);
}

/// Updates a matching fiber in place: the element case stashes the new
/// children for later expansion, and an `Update` effect is attached exactly
/// when the virtual node's data differs from the fiber's.
fn reuse_position<C: AnyComponent>(
    tree: &mut FiberTree<C>,
    old_id: FiberId,
    wip_id: FiberId,
    element: VNode<C>,
) -> (changed: bool)
    requires
        old(tree).free_ok(),
        old_id < old(tree).nodes@.len(),
        spec_matches(old(tree).nodes@[old_id as int].node, element),
    ensures
        final(tree).free_ok(),
        final(tree).nodes@.len() == old(tree).nodes@.len(),
        final(tree).first_free_node == old(tree).first_free_node,
        forall|j: int|
            0 <= j < old(tree).nodes@.len() && j != old_id ==> final(tree).nodes@[j] == old(
                tree,
            ).nodes@[j],
        changed == !spec_unchanged(old(tree).nodes@[old_id as int].node, element),
        final(tree).nodes@[old_id as int].parent == Some(wip_id),
        final(tree).nodes@[old_id as int].state == old(tree).nodes@[old_id as int].state,
        final(tree).nodes@[old_id as int].child == old(tree).nodes@[old_id as int].child,
        final(tree).nodes@[old_id as int].sibling == old(tree).nodes@[old_id as int].sibling,
        reused_payload_ok(
            old(tree).nodes@[old_id as int].node,
            final(tree).nodes@[old_id as int].node,
            element,
        ),
        if spec_unchanged(old(tree).nodes@[old_id as int].node, element) {
            final(tree).nodes@[old_id as int].effect_tag is None
        } else {
            final(tree).nodes@[old_id as int].effect_tag matches Some(EffectTag::Update(u))
                && update_data_matches(element, u)
        },
{
    let changed = !node_unchanged(&tree.nodes[old_id].node, &element);
    match element {
        VNode::Element(ve) => {
            let VElement { tag: _, attributes, events, children } = ve;
            let f = &mut tree.nodes[old_id];
            if let Node::Element(e) = &mut f.node {
                e.unprocessed_children = children;
            }
            f.effect_tag = if changed {
                Some(EffectTag::Update(UpdateData::Element { attributes, events }))
            } else {
                None
            };
            f.parent = Some(wip_id);
        },
        VNode::Text(s) => {
            let f = &mut tree.nodes[old_id];
            f.effect_tag = if changed {
                Some(EffectTag::Update(UpdateData::Text(s)))
            } else {
                None
            };
            f.parent = Some(wip_id);
        },
        VNode::Component(instance) => {
            let f = &mut tree.nodes[old_id];
            f.effect_tag = Some(EffectTag::Update(UpdateData::Component(instance)));
            f.parent = Some(wip_id);
        },
    }
    changed
}

/// Allocates a fresh fiber for `element` (`Placement` by construction) and
/// splices it after the last resolved sibling, or as the parent's new head
/// child. The slot is either brand new or a recycled tombstone; nothing
/// else but the splice anchor's link changes.
fn place_position<C: AnyComponent>(
    tree: &mut FiberTree<C>,
    wip_id: FiberId,
    prev_sibling: Option<FiberId>,
    element: VNode<C>,
) -> (new_id: FiberId)
    requires
        old(tree).free_ok(),
        wip_id < old(tree).nodes@.len(),
        old(tree).nodes@[wip_id as int].state is Valid,
        prev_sibling matches Some(p) ==> p < old(tree).nodes@.len() && old(
            tree,
        ).nodes@[p as int].state is Valid && p != wip_id,
    ensures
        final(tree).free_ok(),
        final(tree).nodes@.len() >= old(tree).nodes@.len(),
        new_id < final(tree).nodes@.len(),
        new_id != wip_id,
        new_id < old(tree).nodes@.len() ==> (old(tree).nodes@[new_id as int].state is Removed
            && final(tree).nodes@.len() == old(tree).nodes@.len()),
        new_id >= old(tree).nodes@.len() ==> (new_id == old(tree).nodes@.len() && final(tree).nodes@.len() == old(tree).nodes@.len() + 1),
        final(tree).nodes@[new_id as int].state is Valid,
        final(tree).nodes@[new_id as int].effect_tag matches Some(EffectTag::Placement),
        final(tree).nodes@[new_id as int].parent == Some(wip_id),
        materializes(element, final(tree).nodes@[new_id as int].node),
        ({
            let anchor: int = match prev_sibling {
                Some(p) => p as int,
                None => wip_id as int,
            };
            &&& forall|j: int|
                0 <= j < old(tree).nodes@.len() && j != anchor && j != new_id ==> final(tree).nodes@[j] == old(tree).nodes@[j]
            &&& same_core(old(tree).nodes@, final(tree).nodes@, anchor)
            &&& forall|j: int|
                0 <= j < old(tree).nodes@.len() && j != new_id ==> same_core(
                    old(tree).nodes@,
                    final(tree).nodes@,
                    j,
                )
            &&& (prev_sibling matches Some(p) ==> final(tree).nodes@[anchor].child == old(
                tree,
            ).nodes@[anchor].child && final(tree).nodes@[anchor].sibling == Some(new_id))
            &&& (prev_sibling is None ==> final(tree).nodes@[anchor].sibling == old(
                tree,
            ).nodes@[anchor].sibling && final(tree).nodes@[anchor].child == Some(new_id))
            &&& final(tree).nodes@[new_id as int].sibling == (match prev_sibling {
                Some(p) => old(tree).nodes@[p as int].sibling,
                None => old(tree).nodes@[wip_id as int].child,
            })
        }),
{
    let payload = to_node(element);
    let ghost s0 = tree.nodes@;
    let new_id = tree.new_node(payload);
    proof {
        match old(tree).first_free_node {
            Some(f) => {
                assert(new_id == f);
                assert(s0[new_id as int].state is Removed);
                assert(new_id != wip_id);
                assert(match prev_sibling {
                    Some(p) => p != new_id,
                    None => true,
                });
            },
            None => {
                assert(new_id == s0.len());
            },
        }
    }
    tree.insert_child(new_id, wip_id, prev_sibling);
    new_id
}

/// Everything one reconciliation of `wip_id`'s children guarantees, over
/// the arena before (`pre`) and after (`post`), the new child list and the
/// reported outcomes: one outcome per position as [`outcome_ok`] states,
/// the excess chain tail — exactly `c.skip(elems.len())` — tagged
/// `Deletion` with payload and state untouched, the frame of
/// [`reconcile_frame`], and no arena growth when every position reused.
pub open spec fn reconcile_post<C: AnyComponent>(
    pre: Seq<FiberNode<C>>,
    post: Seq<FiberNode<C>>,
    wip_id: FiberId,
    elems: Seq<VNode<C>>,
    outcomes: Seq<ChildOutcome>,
    deleted: Seq<FiberId>,
) -> bool {
    let c0 = child_chain_of(pre, wip_id);
    let c = if chain_wf(c0, wip_id) {
        c0
    } else {
        Seq::<FiberId>::empty()
    };
    &&& outcomes.len() == elems.len()
    &&& forall|k: int|
        0 <= k < elems.len() ==> outcome_ok(pre, post, c, elems, wip_id, k, outcomes[k])
    &&& deleted == if c.len() > elems.len() {
        c.skip(elems.len() as int)
    } else {
        Seq::<FiberId>::empty()
    }
    &&& forall|k: int|
        0 <= k < deleted.len() ==> {
            let id = #[trigger] deleted[k];
            &&& post[id as int].effect_tag matches Some(EffectTag::Deletion)
            &&& post[id as int].node == pre[id as int].node
            &&& post[id as int].state == pre[id as int].state
        }
    &&& reconcile_frame(pre, post, c, outcomes, wip_id)
    &&& ((forall|k: int| 0 <= k < outcomes.len() ==> outcomes[k] is Reused) ==> post.len()
        == pre.len())
    &&& (chain_clean(pre, wip_id, c) ==> woven_ok(post, wip_id, outcomes, c, elems.len() as int))
}

/// Whether `post` is `pre` with `elems` reconciled onto `wip_id`'s
/// children — [`reconcile_post`] for some report.
pub open spec fn reconciled_onto<C: AnyComponent>(
    pre: Seq<FiberNode<C>>,
    post: Seq<FiberNode<C>>,
    wip_id: FiberId,
    elems: Seq<VNode<C>>,
) -> bool {
    exists|outcomes: Seq<ChildOutcome>, deleted: Seq<FiberId>| reconcile_post(
        pre,
        post,
        wip_id,
        elems,
        outcomes,
        deleted,
    )
}

/// What one call of [`reconcile_children`] did, position by position.
#[derive(Debug)]
pub struct ReconcileReport {
    /// One outcome per new child, in position order.
    pub outcomes: Vec<ChildOutcome>,
    /// The old fibers beyond the new list's length, tagged `Deletion`.
    pub deleted: Vec<FiberId>,
}


/// Whether the effective chain `c` is exactly `wip_id`'s cleanly
/// terminated child chain in `pre`: the head-child link points at its
/// first entry (or nowhere when it is empty), consecutive entries are
/// sibling-linked, and the last entry's sibling link is empty.
pub open spec fn chain_clean<C>(pre: Seq<FiberNode<C>>, wip_id: FiberId, c: Seq<FiberId>) -> bool {
    &&& (c.len() == 0 ==> pre[wip_id as int].child is None)
    &&& (c.len() > 0 ==> pre[wip_id as int].child == Some(c[0]))
    &&& (forall|i: int| 0 <= i < c.len() - 1 ==> pre[#[trigger] c[i] as int].sibling == Some(
        c[i + 1],
    ))
    &&& (c.len() > 0 ==> pre[c.last() as int].sibling is None)
}

/// The prefix of the post-reconciliation sibling chain that the first `k`
/// positions have settled into its final order: a reused position flushes
/// the replaced old fibers drifting behind it and keeps its own fiber; a
/// replaced or placed position appends its fresh fiber.
pub open spec fn woven_emitted(outcomes: Seq<ChildOutcome>, k: int) -> Seq<FiberId>
    decreases k when k >= 0
{
    if k <= 0 {
        Seq::empty()
    } else {
        let rest_e = woven_emitted(outcomes, k - 1);
        let rest_p = woven_pending(outcomes, k - 1);
        match outcomes[k - 1] {
            ChildOutcome::Reused { id, .. } => rest_e + rest_p + seq![id],
            ChildOutcome::Replaced { new_id, .. } => rest_e.push(new_id),
            ChildOutcome::Placed { new_id } => rest_e.push(new_id),
        }
    }
}

/// The replaced old fibers that drift, deletion-tagged, behind the fresh
/// fibers of the first `k` positions until the next reused position (or
/// the end of the walk) lets them settle.
pub open spec fn woven_pending(outcomes: Seq<ChildOutcome>, k: int) -> Seq<FiberId>
    decreases k when k >= 0
{
    if k <= 0 {
        Seq::empty()
    } else {
        let rest_p = woven_pending(outcomes, k - 1);
        match outcomes[k - 1] {
            ChildOutcome::Reused { .. } => Seq::empty(),
            ChildOutcome::Replaced { old_id, .. } => rest_p.push(old_id),
            ChildOutcome::Placed { .. } => rest_p,
        }
    }
}

/// The whole sibling chain a reconciliation leaves on `wip_id`: the
/// settled prefix, then the still-drifting replaced fibers, then the old
/// chain's excess tail.
pub open spec fn woven_full(
    outcomes: Seq<ChildOutcome>,
    c: Seq<FiberId>,
    k: int,
) -> Seq<FiberId> {
    woven_emitted(outcomes, k) + woven_pending(outcomes, k) + (if k <= c.len() {
        c.skip(k)
    } else {
        Seq::empty()
    })
}

/// The resulting-chain law: after reconciling `elems_len` positions, the
/// fibers of [`woven_full`] hang from `wip_id` in exactly that order —
/// head-child link to the first, each sibling-linked to the next, the
/// last one's sibling link empty — so every fresh fiber stands spliced
/// directly after the previously resolved position.
pub open spec fn woven_ok<C: AnyComponent>(
    post: Seq<FiberNode<C>>,
    wip_id: FiberId,
    outcomes: Seq<ChildOutcome>,
    c: Seq<FiberId>,
    elems_len: int,
) -> bool {
    let full = woven_full(outcomes, c, elems_len);
    &&& post[wip_id as int].child == (if full.len() > 0 {
        Some(full[0])
    } else {
        None
    })
    &&& (forall|i: int| 0 <= i < full.len() - 1 ==> post[#[trigger] full[i] as int].sibling
        == Some(full[i + 1]))
    &&& (full.len() > 0 ==> post[full.last() as int].sibling is None)
}

/// The weave facts the reconciliation loop maintains under a clean chain:
/// the fibers woven so far hang from `wip_id` in [`woven_full`] order,
/// live, distinct, in range, and the splice anchor is the last settled
/// fiber.
#[verifier::opaque]
pub open spec fn weave_inv<C: AnyComponent>(
    now: Seq<FiberNode<C>>,
    wip_id: FiberId,
    outcomes: Seq<ChildOutcome>,
    c: Seq<FiberId>,
    k: int,
    prev_sibling: Option<FiberId>,
) -> bool {
    let e = woven_emitted(outcomes, k);
    let full = woven_full(outcomes, c, k);
    &&& now[wip_id as int].child == (if full.len() > 0 {
        Some(full[0])
    } else {
        None
    })
    &&& (forall|i: int| 0 <= i < full.len() - 1 ==> now[#[trigger] full[i] as int].sibling
        == Some(full[i + 1]))
    &&& (full.len() > 0 ==> now[full.last() as int].sibling is None)
    &&& (forall|i: int| 0 <= i < full.len() ==> (#[trigger] full[i]) < now.len() && now[full[i] as int].state is Valid && full[i] != wip_id)
    &&& (forall|i: int, j: int| 0 <= i < j < full.len() ==> full[i] != full[j])
    &&& prev_sibling == (if e.len() > 0 {
        Some(e.last())
    } else {
        None
    })
}

/// The woven sequences read only the first `k` outcomes.
proof fn lemma_woven_prefix(a: Seq<ChildOutcome>, b: Seq<ChildOutcome>, k: int)
    requires
        0 <= k,
        forall|i: int| 0 <= i < k ==> a[i] == b[i],
    ensures
        woven_emitted(a, k) == woven_emitted(b, k),
        woven_pending(a, k) == woven_pending(b, k),
    decreases k,
{
    if k > 0 {
        lemma_woven_prefix(a, b, k - 1);
    }
}

/// A woven chain survives work that changes no link and no liveness.
proof fn lemma_weave_same_links<C: AnyComponent>(
    t0: Seq<FiberNode<C>>,
    t1: Seq<FiberNode<C>>,
    wip_id: FiberId,
    full: Seq<FiberId>,
)
    requires
        ({
            &&& t0[wip_id as int].child == (if full.len() > 0 {
                Some(full[0])
            } else {
                None
            })
            &&& (forall|i: int| 0 <= i < full.len() - 1 ==> t0[#[trigger] full[i] as int].sibling
                == Some(full[i + 1]))
            &&& (full.len() > 0 ==> t0[full.last() as int].sibling is None)
            &&& (forall|i: int| 0 <= i < full.len() ==> (#[trigger] full[i]) < t0.len()
                && t0[full[i] as int].state is Valid && full[i] != wip_id)
        }),
        t1.len() == t0.len(),
        forall|j: int|
            0 <= j < t0.len() ==> (#[trigger] t1[j]).child == t0[j].child && t1[j].sibling
                == t0[j].sibling && t1[j].state == t0[j].state,
        wip_id < t0.len(),
    ensures
        ({
            &&& t1[wip_id as int].child == (if full.len() > 0 {
                Some(full[0])
            } else {
                None
            })
            &&& (forall|i: int| 0 <= i < full.len() - 1 ==> t1[#[trigger] full[i] as int].sibling
                == Some(full[i + 1]))
            &&& (full.len() > 0 ==> t1[full.last() as int].sibling is None)
            &&& (forall|i: int| 0 <= i < full.len() ==> (#[trigger] full[i]) < t1.len()
                && t1[full[i] as int].state is Valid && full[i] != wip_id)
        }),
{
}

/// Splicing a fresh fiber directly after the last settled one: if
/// `e0 + rest` hung cleanly from `wip_id`, then after the splice
/// `e0 + [new_id] + rest` hangs cleanly, the fresh fiber living where the
/// anchor's old successor was.
proof fn lemma_weave_splice<C: AnyComponent>(
    t0: Seq<FiberNode<C>>,
    t1: Seq<FiberNode<C>>,
    wip_id: FiberId,
    e0: Seq<FiberId>,
    rest: Seq<FiberId>,
    new_id: FiberId,
    prev0: Option<FiberId>,
)
    requires
        ({
            let full0 = e0 + rest;
            &&& t0[wip_id as int].child == (if full0.len() > 0 {
                Some(full0[0])
            } else {
                None
            })
            &&& (forall|i: int| 0 <= i < full0.len() - 1 ==> t0[#[trigger] full0[i] as int].sibling
                == Some(full0[i + 1]))
            &&& (full0.len() > 0 ==> t0[full0.last() as int].sibling is None)
            &&& (forall|i: int| 0 <= i < full0.len() ==> (#[trigger] full0[i]) < t0.len()
                && t0[full0[i] as int].state is Valid && full0[i] != wip_id)
            &&& (forall|i: int, j: int| 0 <= i < j < full0.len() ==> full0[i] != full0[j])
        }),
        prev0 == (if e0.len() > 0 {
            Some(e0.last())
        } else {
            None
        }),
        wip_id < t0.len(),
        t1.len() >= t0.len(),
        new_id < t1.len(),
        new_id != wip_id,
        new_id < t0.len() ==> t0[new_id as int].state is Removed,
        new_id >= t0.len() ==> new_id == t0.len(),
        t1[new_id as int].state is Valid,
        ({
            let anchor: int = match prev0 {
                Some(p) => p as int,
                None => wip_id as int,
            };
            &&& (forall|j: int|
                0 <= j < t0.len() && j != anchor && j != new_id ==> (#[trigger] t1[j]).child
                    == t0[j].child && t1[j].sibling == t0[j].sibling)
            &&& (prev0 is Some ==> t1[anchor].sibling == Some(new_id) && t1[anchor].child
                == t0[anchor].child)
            &&& (prev0 is None ==> t1[anchor].child == Some(new_id) && t1[anchor].sibling
                == t0[anchor].sibling)
            &&& t1[new_id as int].sibling == (match prev0 {
                Some(p) => t0[p as int].sibling,
                None => t0[wip_id as int].child,
            })
        }),
        forall|j: int| 0 <= j < t0.len() && j != new_id ==> (#[trigger] t1[j]).state == t0[j].state,
    ensures
        ({
            let full1 = e0 + (seq![new_id] + rest);
            &&& t1[wip_id as int].child == (if full1.len() > 0 {
                Some(full1[0])
            } else {
                None
            })
            &&& (forall|i: int| 0 <= i < full1.len() - 1 ==> t1[#[trigger] full1[i] as int].sibling
                == Some(full1[i + 1]))
            &&& (full1.len() > 0 ==> t1[full1.last() as int].sibling is None)
            &&& (forall|i: int| 0 <= i < full1.len() ==> (#[trigger] full1[i]) < t1.len()
                && t1[full1[i] as int].state is Valid && full1[i] != wip_id)
            &&& (forall|i: int, j: int| 0 <= i < j < full1.len() ==> full1[i] != full1[j])
        }),
{
    let full0 = e0 + rest;
    let full1 = e0 + (seq![new_id] + rest);
    let anchor: int = match prev0 {
        Some(p) => p as int,
        None => wip_id as int,
    };
    assert(forall|i: int| 0 <= i < e0.len() ==> full1[i] == full0[i] && full0[i] == e0[i]);
    assert(full1[e0.len() as int] == new_id);
    assert(forall|i: int|
        e0.len() < i < full1.len() ==> full1[i] == full0[i - 1] && full0[i - 1] == rest[i - 1
            - e0.len()]);
    // the fresh fiber is none of the woven ones
    assert forall|i: int| 0 <= i < full0.len() implies full0[i] != new_id by {
        if new_id < t0.len() {
            assert(t0[full0[i] as int].state is Valid);
        } else {
            assert(full0[i] < t0.len());
        }
    }
    // head
    if e0.len() == 0 {
        assert(t1[wip_id as int].child == Some(new_id));
    } else {
        assert(full1[0] == full0[0]);
        assert(t1[wip_id as int].child == t0[wip_id as int].child) by {
            assert(anchor == e0.last());
            assert(wip_id as int != anchor);
        }
    }
    // links
    assert forall|i: int| 0 <= i < full1.len() - 1 implies t1[#[trigger] full1[i] as int].sibling
        == Some(full1[i + 1]) by {
        if i < e0.len() - 1 {
            assert(full1[i] == e0[i] && full1[i + 1] == e0[i + 1]);
            assert(full1[i] as int != anchor) by {
                if prev0 is Some {
                    assert(e0[i] != e0.last()) by {
                        assert(full0[i] == e0[i] && full0[e0.len() - 1] == e0.last());
                    }
                }
            }
            assert(t1[full1[i] as int].sibling == t0[full0[i] as int].sibling);
        } else if i == e0.len() - 1 {
            // the anchor now points at the fresh fiber
            assert(full1[i] == e0.last());
            assert(anchor == e0.last() as int);
            assert(t1[full1[i] as int].sibling == Some(new_id));
        } else if i == e0.len() {
            // the fresh fiber points where the anchor pointed
            assert(full1[i] == new_id);
            if e0.len() == 0 {
                assert(t1[new_id as int].sibling == t0[wip_id as int].child);
                assert(rest.len() > 0);
                assert(full0[0] == rest[0]);
                assert(full1[i + 1] == rest[0]);
            } else {
                assert(t1[new_id as int].sibling == t0[e0.last() as int].sibling);
                assert(full0[e0.len() - 1] == e0.last());
                assert(t0[e0.last() as int].sibling == Some(full0[e0.len() as int]));
                assert(full0[e0.len() as int] == rest[0]);
                assert(full1[i + 1] == rest[0]);
            }
        } else {
            assert(full1[i] == full0[i - 1] && full1[i + 1] == full0[i]);
            assert(full1[i] as int != anchor) by {
                if prev0 is Some {
                    assert(full1[i] == rest[i - 1 - e0.len()]);
                    assert(e0.last() == full0[e0.len() - 1]);
                    assert(full0[i - 1] != full0[e0.len() - 1]);
                }
            }
            assert(t1[full1[i] as int].sibling == t0[full0[i - 1] as int].sibling);
        }
    }
    // tail
    if full1.len() > 0 {
        assert(full1.last() == (if rest.len() > 0 {
            full0.last()
        } else {
            new_id
        }));
        if rest.len() > 0 {
            assert(full1.last() as int != anchor) by {
                if prev0 is Some {
                    assert(full0.last() == full0[full0.len() - 1]);
                    assert(e0.last() == full0[e0.len() - 1]);
                    assert(full0[full0.len() - 1] != full0[e0.len() - 1]);
                }
            }
            assert(t1[full1.last() as int].sibling == t0[full0.last() as int].sibling);
        } else {
            if e0.len() == 0 {
                assert(t1[new_id as int].sibling == t0[wip_id as int].child);
            } else {
                assert(t1[new_id as int].sibling == t0[e0.last() as int].sibling);
                assert(full0.last() == e0.last());
            }
        }
    }
    // members
    assert forall|i: int| 0 <= i < full1.len() implies (#[trigger] full1[i]) < t1.len()
        && t1[full1[i] as int].state is Valid && full1[i] != wip_id by {
        if i < e0.len() {
            assert(full1[i] == full0[i]);
        } else if i > e0.len() {
            assert(full1[i] == full0[i - 1]);
        }
        if full1[i] != new_id {
            assert(t1[full1[i] as int].state == t0[full1[i] as int].state);
        }
    }
    // distinctness
    assert forall|i: int, j: int| 0 <= i < j < full1.len() implies full1[i] != full1[j] by {
        if i != e0.len() && j != e0.len() {
            let i0: int = if i < e0.len() {
                i
            } else {
                i - 1
            };
            let j0: int = if j < e0.len() {
                j
            } else {
                j - 1
            };
            assert(full1[i] == full0[i0] && full1[j] == full0[j0]);
        }
    }
}

/// Opens the weave invariant into its chain clauses over an explicit
/// decomposition of the woven sequence.
proof fn lemma_weave_open<C: AnyComponent>(
    t: Seq<FiberNode<C>>,
    wip_id: FiberId,
    o0: Seq<ChildOutcome>,
    c: Seq<FiberId>,
    k: int,
    prev: Option<FiberId>,
    e0: Seq<FiberId>,
    rest: Seq<FiberId>,
)
    requires
        weave_inv(t, wip_id, o0, c, k, prev),
        e0 == woven_emitted(o0, k),
        woven_full(o0, c, k) == e0 + rest,
    ensures
        ({
            let full = e0 + rest;
            &&& t[wip_id as int].child == (if full.len() > 0 {
                Some(full[0])
            } else {
                None
            })
            &&& (forall|i: int| 0 <= i < full.len() - 1 ==> t[#[trigger] full[i] as int].sibling
                == Some(full[i + 1]))
            &&& (full.len() > 0 ==> t[full.last() as int].sibling is None)
            &&& (forall|i: int| 0 <= i < full.len() ==> (#[trigger] full[i]) < t.len()
                && t[full[i] as int].state is Valid && full[i] != wip_id)
            &&& (forall|i: int, j: int| 0 <= i < j < full.len() ==> full[i] != full[j])
            &&& prev == (if e0.len() > 0 {
                Some(e0.last())
            } else {
                None
            })
        }),
{
    reveal(weave_inv);
}

/// Closes the weave invariant from its chain clauses over an explicit
/// decomposition of the woven sequence.
proof fn lemma_weave_close<C: AnyComponent>(
    t: Seq<FiberNode<C>>,
    wip_id: FiberId,
    ocs: Seq<ChildOutcome>,
    c: Seq<FiberId>,
    k1: int,
    prev: Option<FiberId>,
    full: Seq<FiberId>,
)
    requires
        woven_full(ocs, c, k1) == full,
        t[wip_id as int].child == (if full.len() > 0 {
            Some(full[0])
        } else {
            None
        }),
        forall|i: int| 0 <= i < full.len() - 1 ==> t[#[trigger] full[i] as int].sibling == Some(
            full[i + 1],
        ),
        full.len() > 0 ==> t[full.last() as int].sibling is None,
        forall|i: int| 0 <= i < full.len() ==> (#[trigger] full[i]) < t.len() && t[full[i] as int].state is Valid && full[i] != wip_id,
        forall|i: int, j: int| 0 <= i < j < full.len() ==> full[i] != full[j],
        prev == (if woven_emitted(ocs, k1).len() > 0 {
            Some(woven_emitted(ocs, k1).last())
        } else {
            None
        }),
    ensures
        weave_inv(t, wip_id, ocs, c, k1, prev),
{
    reveal(weave_inv);
}

/// How the woven sequences advance over one replaced or placed position.
proof fn lemma_woven_step(
    o0: Seq<ChildOutcome>,
    ocs: Seq<ChildOutcome>,
    c: Seq<FiberId>,
    k: int,
    old_id: Option<FiberId>,
    new_id: FiberId,
)
    requires
        0 <= k,
        o0.len() == k,
        ocs.len() == k + 1,
        forall|i: int| 0 <= i < k ==> ocs[i] == o0[i],
        ocs[k] == (match old_id {
            Some(o) => ChildOutcome::Replaced { old_id: o, new_id },
            None => ChildOutcome::Placed { new_id },
        }),
        match old_id {
            Some(o) => k < c.len() && c[k] == o,
            None => k >= c.len(),
        },
    ensures
        woven_emitted(ocs, k + 1) == woven_emitted(o0, k).push(new_id),
        woven_full(o0, c, k) == woven_emitted(o0, k) + (match old_id {
            Some(_) => woven_pending(o0, k) + c.skip(k),
            None => woven_pending(o0, k),
        }),
        woven_full(ocs, c, k + 1) == woven_emitted(o0, k) + (seq![new_id] + (match old_id {
            Some(_) => woven_pending(o0, k) + c.skip(k),
            None => woven_pending(o0, k),
        })),
        woven_emitted(ocs, k + 1).len() > 0 && woven_emitted(ocs, k + 1).last() == new_id,
{
    lemma_woven_prefix(ocs, o0, k);
    let e0 = woven_emitted(o0, k);
    let p0 = woven_pending(o0, k);
    assert(woven_emitted(ocs, k + 1) =~= e0.push(new_id));
    match old_id {
        Some(o) => {
            assert(woven_full(o0, c, k) =~= e0 + (p0 + c.skip(k)));
            assert(woven_pending(ocs, k + 1) =~= p0.push(o));
            assert(c.skip(k) =~= seq![o] + c.skip(k + 1));
            assert(woven_full(ocs, c, k + 1) =~= e0 + (seq![new_id] + (p0 + c.skip(k))));
        },
        None => {
            assert(woven_full(o0, c, k) =~= e0 + p0);
            assert(woven_pending(ocs, k + 1) =~= p0);
            assert(woven_full(ocs, c, k + 1) =~= e0 + (seq![new_id] + p0));
        },
    }
}

/// One reused position's worth of weave maintenance: no link moves, the
/// woven sequence is only regrouped.
#[verifier::rlimit(100)]
#[verifier::spinoff_prover]
proof fn lemma_match_weave<C: AnyComponent>(
    s_start: Seq<FiberNode<C>>,
    now: Seq<FiberNode<C>>,
    wip_id: FiberId,
    c: Seq<FiberId>,
    o0: Seq<ChildOutcome>,
    ocs: Seq<ChildOutcome>,
    k: int,
    prev0: Option<FiberId>,
    old_id: FiberId,
)
    requires
        weave_inv(s_start, wip_id, o0, c, k, prev0),
        0 <= k,
        o0.len() == k,
        ocs.len() == k + 1,
        forall|i: int| 0 <= i < k ==> ocs[i] == o0[i],
        ocs[k] matches ChildOutcome::Reused { id, .. } && id == old_id,
        k < c.len(),
        c[k] == old_id,
        wip_id < s_start.len(),
        now.len() == s_start.len(),
        forall|j: int|
            0 <= j < s_start.len() && j != old_id ==> #[trigger] now[j] == s_start[j],
        now[old_id as int].state == s_start[old_id as int].state,
        now[old_id as int].child == s_start[old_id as int].child,
        now[old_id as int].sibling == s_start[old_id as int].sibling,
    ensures
        weave_inv(now, wip_id, ocs, c, k + 1, Some(old_id)),
{
    lemma_woven_prefix(ocs, o0, k);
    let e0 = woven_emitted(o0, k);
    let p0 = woven_pending(o0, k);
    let full0 = woven_full(o0, c, k);
    let e1 = woven_emitted(ocs, k + 1);
    let full1 = woven_full(ocs, c, k + 1);
    assert(e1 =~= e0 + p0 + seq![old_id]);
    assert(woven_pending(ocs, k + 1) =~= Seq::<FiberId>::empty());
    assert(c.skip(k) =~= seq![old_id] + c.skip(k + 1));
    assert(full1 =~= full0);
    assert(e1.len() > 0 && e1.last() == old_id);
    let tail: Seq<FiberId> = if k <= c.len() {
        c.skip(k)
    } else {
        Seq::<FiberId>::empty()
    };
    assert(woven_full(o0, c, k) =~= e0 + (p0 + tail));
    lemma_weave_open(s_start, wip_id, o0, c, k, prev0, e0, p0 + tail);
    assert(forall|j: int|
        0 <= j < s_start.len() ==> (#[trigger] now[j]).child == s_start[j].child && now[j].sibling
            == s_start[j].sibling && now[j].state == s_start[j].state);
    assert(weave_inv(now, wip_id, ocs, c, k + 1, Some(old_id))) by {
        reveal(weave_inv);
        lemma_weave_same_links(s_start, now, wip_id, full0);
    }
}

/// One placement's worth of weave maintenance: with the splice facts of
/// [`place_position`] at hand, the weave invariant advances one position.
#[verifier::rlimit(100)]
#[verifier::spinoff_prover]
proof fn lemma_place_weave<C: AnyComponent>(
    s_start: Seq<FiberNode<C>>,
    now: Seq<FiberNode<C>>,
    wip_id: FiberId,
    c: Seq<FiberId>,
    o0: Seq<ChildOutcome>,
    ocs: Seq<ChildOutcome>,
    k: int,
    prev_sibling: Option<FiberId>,
    old_id: Option<FiberId>,
    new_id: FiberId,
)
    requires
        weave_inv(s_start, wip_id, o0, c, k, prev_sibling),
        0 <= k,
        o0.len() == k,
        ocs.len() == k + 1,
        forall|i: int| 0 <= i < k ==> ocs[i] == o0[i],
        ocs[k] == (match old_id {
            Some(o) => ChildOutcome::Replaced { old_id: o, new_id },
            None => ChildOutcome::Placed { new_id },
        }),
        match old_id {
            Some(o) => k < c.len() && c[k] == o,
            None => k >= c.len(),
        },
        wip_id < s_start.len(),
        now.len() >= s_start.len(),
        new_id < now.len(),
        new_id != wip_id,
        new_id < s_start.len() ==> s_start[new_id as int].state is Removed,
        new_id >= s_start.len() ==> new_id == s_start.len(),
        now[new_id as int].state is Valid,
        ({
            let anchor: int = match prev_sibling {
                Some(p) => p as int,
                None => wip_id as int,
            };
            &&& (forall|j: int|
                0 <= j < s_start.len() && j != anchor && j != new_id ==> (#[trigger] now[j]).child
                    == s_start[j].child && now[j].sibling == s_start[j].sibling)
            &&& (prev_sibling is Some ==> now[anchor].sibling == Some(new_id) && now[anchor].child
                == s_start[anchor].child)
            &&& (prev_sibling is None ==> now[anchor].child == Some(new_id) && now[anchor].sibling
                == s_start[anchor].sibling)
            &&& now[new_id as int].sibling == (match prev_sibling {
                Some(p) => s_start[p as int].sibling,
                None => s_start[wip_id as int].child,
            })
        }),
        forall|j: int|
            0 <= j < s_start.len() && j != new_id ==> (#[trigger] now[j]).state
                == s_start[j].state,
    ensures
        weave_inv(now, wip_id, ocs, c, k + 1, Some(new_id)),
{
    lemma_woven_step(o0, ocs, c, k, old_id, new_id);
    let e0 = woven_emitted(o0, k);
    let rest: Seq<FiberId> = match old_id {
        Some(_) => woven_pending(o0, k) + c.skip(k),
        None => woven_pending(o0, k),
    };
    lemma_weave_open(s_start, wip_id, o0, c, k, prev_sibling, e0, rest);
    lemma_weave_splice(s_start, now, wip_id, e0, rest, new_id, prev_sibling);
    lemma_weave_close(now, wip_id, ocs, c, k + 1, Some(new_id), e0 + (seq![new_id] + rest));
}

/// A maintained weave is the resulting-chain law once the walk is done,
/// and survives the deletion-tagging pass, which changes no link and no
/// liveness.
proof fn lemma_weave_to_woven<C: AnyComponent>(
    t_mid: Seq<FiberNode<C>>,
    t_fin: Seq<FiberNode<C>>,
    wip_id: FiberId,
    ocs: Seq<ChildOutcome>,
    c: Seq<FiberId>,
    total: int,
    prev: Option<FiberId>,
)
    requires
        weave_inv(t_mid, wip_id, ocs, c, total, prev),
        t_fin.len() == t_mid.len(),
        forall|j: int|
            0 <= j < t_mid.len() ==> (#[trigger] t_fin[j]).child == t_mid[j].child
                && t_fin[j].sibling == t_mid[j].sibling && t_fin[j].state == t_mid[j].state,
        wip_id < t_mid.len(),
    ensures
        woven_ok(t_fin, wip_id, ocs, c, total),
{
    reveal(weave_inv);
    lemma_weave_same_links(t_mid, t_fin, wip_id, woven_full(ocs, c, total));
}

/// The facts the reconciliation loop carries from one position to the
/// next, over the arena as it was before the call (`pre`), as it stands
/// now (`now`), the effective old chain `c` and the work done so far.
pub open spec fn step_inv<C: AnyComponent>(
    pre: Seq<FiberNode<C>>,
    now: Seq<FiberNode<C>>,
    c: Seq<FiberId>,
    elems0: Seq<VNode<C>>,
    wip_id: FiberId,
    outcomes: Seq<ChildOutcome>,
    prev_sibling: Option<FiberId>,
    k: int,
    d: int,
) -> bool {
    let n0 = pre.len();
    &&& now.len() >= n0
    &&& chain_wf(c, wip_id)
    &&& wip_id < n0
    &&& pre[wip_id as int].state is Valid
    &&& forall|kk: int| 0 <= kk < c.len() ==> c[kk] < n0 && pre[c[kk] as int].state is Valid
    &&& forall|kk: int| 0 <= kk < c.len() ==> now[c[kk] as int].state is Valid
    &&& forall|kk: int| d <= kk < c.len() ==> now[c[kk] as int] == pre[c[kk] as int]
    &&& forall|k2: int| 0 <= k2 < k ==> outcome_ok(pre, now, c, elems0, wip_id, k2, outcomes[k2])
    &&& forall|k2: int|
        0 <= k2 < k ==> (outcome_new_id(#[trigger] outcomes[k2]) matches Some(id) ==> id
            < now.len() && now[id as int].state is Valid && !c.contains(id) && id != wip_id)
    &&& forall|j: int|
        0 <= j < n0 && j != wip_id && !c.contains(j as FiberId) && !is_new_of(
            outcomes,
            j as FiberId,
        ) ==> now[j] == pre[j]
    &&& now[wip_id as int].node == pre[wip_id as int].node
    &&& now[wip_id as int].effect_tag == pre[wip_id as int].effect_tag
    &&& now[wip_id as int].state == pre[wip_id as int].state
    &&& now[wip_id as int].parent == pre[wip_id as int].parent
    &&& now[wip_id as int].sibling == pre[wip_id as int].sibling
    &&& (match prev_sibling {
        Some(p) => p < now.len() && now[p as int].state is Valid && p != wip_id && ((exists|kp: int|
            0 <= kp < k && kp < c.len() && c[kp] == p) || is_new_of(outcomes, p)),
        None => true,
    })
    &&& ((forall|k2: int| 0 <= k2 < k ==> outcomes[k2] is Reused) ==> now.len() == n0)
    &&& forall|kk: int|
        k <= kk < d ==> {
            let id = #[trigger] c[kk];
            &&& now[id as int].effect_tag matches Some(EffectTag::Deletion)
            &&& now[id as int].node == pre[id as int].node
            &&& now[id as int].state == pre[id as int].state
        }
}

/// Reconciles one matching position: reuses the chain fiber.
#[verifier::rlimit(100)]
#[verifier::spinoff_prover]
fn step_match<C: AnyComponent>(
    tree: &mut FiberTree<C>,
    wip_id: FiberId,
    old_id: FiberId,
    element: VNode<C>,
    outcomes: &mut Vec<ChildOutcome>,
    Ghost(pre): Ghost<Seq<FiberNode<C>>>,
    Ghost(c): Ghost<Seq<FiberId>>,
    Ghost(elems0): Ghost<Seq<VNode<C>>>,
    Ghost(k): Ghost<int>,
    Ghost(clean): Ghost<bool>,
    Ghost(prev0): Ghost<Option<FiberId>>,
) -> (prev_out: Option<FiberId>)
    requires
        old(tree).free_ok(),
        step_inv(pre, old(tree).nodes@, c, elems0, wip_id, old(outcomes)@, None, k, k),
        old(outcomes)@.len() == k,
        0 <= k < elems0.len(),
        k < c.len(),
        c[k] == old_id,
        elems0[k] == element,
        spec_matches(pre[old_id as int].node, element),
        clean ==> weave_inv(old(tree).nodes@, wip_id, old(outcomes)@, c, k, prev0),
    ensures
        final(tree).free_ok(),
        final(outcomes)@.len() == k + 1,
        step_inv(
            pre,
            final(tree).nodes@,
            c,
            elems0,
            wip_id,
            final(outcomes)@,
            prev_out,
            k + 1,
            k + 1,
        ),
        final(tree).nodes@.len() == old(tree).nodes@.len(),
        final(outcomes)@ == old(outcomes)@.push(
            ChildOutcome::Reused {
                id: old_id,
                changed: !spec_unchanged(pre[old_id as int].node, elems0[k]),
            },
        ),
        forall|j: int|
            0 <= j < old(tree).nodes@.len() ==> (#[trigger] final(tree).nodes@[j]).child == old(
                tree,
            ).nodes@[j].child && final(tree).nodes@[j].sibling == old(tree).nodes@[j].sibling,
        forall|j: int|
            0 <= j < old(tree).nodes@.len() && j != old_id ==> #[trigger] final(tree).nodes@[j]
                == old(tree).nodes@[j],
        final(tree).nodes@[old_id as int].state == old(tree).nodes@[old_id as int].state,
        clean ==> weave_inv(final(tree).nodes@, wip_id, final(outcomes)@, c, k + 1, prev_out),
{
    let ghost s_start = tree.nodes@;
    let ghost o0 = old(outcomes)@;
    proof {
        assert(s_start[old_id as int] == pre[old_id as int]);
    }
    let changed = reuse_position(tree, old_id, wip_id, element);
    outcomes.push(ChildOutcome::Reused { id: old_id, changed });
    proof {
        let now = tree.nodes@;
        let ocs = outcomes@;
        assert(c.contains(old_id));
        assert(old_id != wip_id);
        assert(now[wip_id as int] == s_start[wip_id as int]);
        assert(exists|kp: int| 0 <= kp < k + 1 && kp < c.len() && c[kp] == old_id) by {
            assert(c[k] == old_id);
        }
        assert forall|k2: int| 0 <= k2 < k + 1 implies outcome_ok(
            pre,
            now,
            c,
            elems0,
            wip_id,
            k2,
            ocs[k2],
        ) by {
            if k2 < k {
                assert(ocs[k2] == old(outcomes)@[k2]);
                if k2 < c.len() {
                    assert(c[k2] != c[k]);
                    assert(same_core(s_start, now, c[k2] as int));
                }
                match outcome_new_id(ocs[k2]) {
                    Some(id) => {
                        assert(!c.contains(id));
                        assert(id != old_id);
                        assert(same_core(s_start, now, id as int));
                    },
                    None => {},
                }
                lemma_outcome_stable(pre, s_start, now, c, elems0, wip_id, k2, ocs[k2]);
            }
        }
        assert forall|k2: int|
            0 <= k2 < k + 1 implies (outcome_new_id(#[trigger] ocs[k2]) matches Some(id) ==> id
                < now.len() && now[id as int].state is Valid && !c.contains(id) && id
                != wip_id) by {
            if k2 < k {
                assert(ocs[k2] == old(outcomes)@[k2]);
                match outcome_new_id(ocs[k2]) {
                    Some(id) => {
                        assert(id != old_id);
                        assert(now[id as int] == s_start[id as int]);
                    },
                    None => {},
                }
            }
        }
        assert forall|j: int|
            0 <= j < pre.len() && j != wip_id && !c.contains(j as FiberId) && !is_new_of(
                ocs,
                j as FiberId,
            ) implies now[j] == pre[j] by {
            assert(!is_new_of(old(outcomes)@, j as FiberId)) by {
                if is_new_of(old(outcomes)@, j as FiberId) {
                    let kx = choose|kx: int|
                        0 <= kx < old(outcomes)@.len() && outcome_new_id(
                            #[trigger] old(outcomes)@[kx],
                        ) == Some(j as FiberId);
                    assert(ocs[kx] == old(outcomes)@[kx]);
                    assert(is_new_of(ocs, j as FiberId));
                }
            }
            assert(s_start[j] == pre[j]);
            assert(j != old_id);
        }
        assert forall|kk: int| 0 <= kk < c.len() implies now[c[kk] as int].state is Valid by {
            if c[kk] == old_id {
                assert(now[c[kk] as int].state == s_start[c[kk] as int].state);
            } else {
                assert(now[c[kk] as int] == s_start[c[kk] as int]);
            }
        }
        assert forall|kk: int| k + 1 <= kk < c.len() implies now[c[kk] as int] == pre[c[kk] as int] by {
            assert(c[kk] != c[k]);
            assert(now[c[kk] as int] == s_start[c[kk] as int]);
        }
        assert(now[old_id as int].state is Valid) by {
            assert(pre[old_id as int].state is Valid);
        }
        assert((forall|k2: int| 0 <= k2 < k + 1 ==> ocs[k2] is Reused) ==> now.len()
            == pre.len()) by {
            if forall|k2: int| 0 <= k2 < k + 1 ==> ocs[k2] is Reused {
                assert forall|k2: int| 0 <= k2 < k implies old(outcomes)@[k2] is Reused by {
                    assert(ocs[k2] == old(outcomes)@[k2]);
                    assert(ocs[k2] is Reused);
                }
                assert(s_start.len() == pre.len());
            }
        }
        if clean {
            lemma_match_weave(s_start, now, wip_id, c, o0, ocs, k, prev0, old_id);
        }
    }
    Some(old_id)
}

/// Reconciles one non-matching or past-the-chain position: places a fresh
/// fiber, after tagging the mismatched old fiber for deletion if there is
/// one.
#[verifier::rlimit(100)]
#[verifier::spinoff_prover]
fn step_place<C: AnyComponent>(
    tree: &mut FiberTree<C>,
    wip_id: FiberId,
    prev_sibling: Option<FiberId>,
    old_id: Option<FiberId>,
    element: VNode<C>,
    outcomes: &mut Vec<ChildOutcome>,
    Ghost(pre): Ghost<Seq<FiberNode<C>>>,
    Ghost(c): Ghost<Seq<FiberId>>,
    Ghost(elems0): Ghost<Seq<VNode<C>>>,
    Ghost(k): Ghost<int>,
    Ghost(clean): Ghost<bool>,
) -> (prev_out: Option<FiberId>)
    requires
        old(tree).free_ok(),
        step_inv(pre, old(tree).nodes@, c, elems0, wip_id, old(outcomes)@, prev_sibling, k, k),
        old(outcomes)@.len() == k,
        0 <= k < elems0.len(),
        elems0[k] == element,
        match old_id {
            Some(o) => k < c.len() && c[k] == o && !spec_matches(pre[o as int].node, element),
            None => k >= c.len(),
        },
        clean ==> weave_inv(old(tree).nodes@, wip_id, old(outcomes)@, c, k, prev_sibling),
    ensures
        final(tree).free_ok(),
        final(outcomes)@.len() == k + 1,
        step_inv(
            pre,
            final(tree).nodes@,
            c,
            elems0,
            wip_id,
            final(outcomes)@,
            prev_out,
            k + 1,
            k + 1,
        ),
        final(outcomes)@.len() > 0 && !(final(outcomes)@[k as int] is Reused),
        final(outcomes)@.drop_last() == old(outcomes)@,
        final(outcomes)@.last() == (match old_id {
            Some(o) => ChildOutcome::Replaced { old_id: o, new_id: prev_out.unwrap() },
            None => ChildOutcome::Placed { new_id: prev_out.unwrap() },
        }),
        prev_out matches Some(new_id) && ({
            let anchor: int = match prev_sibling {
                Some(p) => p as int,
                None => wip_id as int,
            };
            &&& (new_id < old(tree).nodes@.len() ==> old(tree).nodes@[new_id as int].state
                is Removed)
            &&& (new_id >= old(tree).nodes@.len() ==> new_id == old(tree).nodes@.len())
            &&& forall|j: int|
                0 <= j < old(tree).nodes@.len() && j != anchor && j != new_id ==> (#[trigger] final(tree).nodes@[j]).child == old(tree).nodes@[j].child && final(tree).nodes@[j].sibling
                    == old(tree).nodes@[j].sibling
            &&& (prev_sibling is Some ==> final(tree).nodes@[anchor].sibling == Some(new_id)
                && final(tree).nodes@[anchor].child == old(tree).nodes@[anchor].child)
            &&& (prev_sibling is None ==> final(tree).nodes@[anchor].child == Some(new_id)
                && final(tree).nodes@[anchor].sibling == old(tree).nodes@[anchor].sibling)
            &&& final(tree).nodes@[new_id as int].sibling == (match prev_sibling {
                Some(p) => old(tree).nodes@[p as int].sibling,
                None => old(tree).nodes@[wip_id as int].child,
            })
            &&& forall|j: int|
                0 <= j < old(tree).nodes@.len() && j != new_id ==> (#[trigger] final(tree).nodes@[j]).state == old(tree).nodes@[j].state
        }),
        clean ==> weave_inv(final(tree).nodes@, wip_id, final(outcomes)@, c, k + 1, prev_out),
{
    let ghost s_start = tree.nodes@;
    if let Some(o) = old_id {
        proof {
            assert(s_start[o as int] == pre[o as int]);
        }
        mark_deletion(tree, o);
    }
    let ghost s_marked = tree.nodes@;
    let new_id = place_position(tree, wip_id, prev_sibling, element);
    match old_id {
        Some(o) => outcomes.push(ChildOutcome::Replaced { old_id: o, new_id }),
        None => outcomes.push(ChildOutcome::Placed { new_id }),
    }
    proof {
        let now = tree.nodes@;
        let ocs = outcomes@;
        let n0 = pre.len();
        // the new slot was no live fiber beforehand
        assert(!c.contains(new_id)) by {
            if c.contains(new_id) {
                let kx = choose|kx: int| 0 <= kx < c.len() && c[kx] == new_id;
                assert(s_start[c[kx] as int].state is Valid);
                assert(s_marked[c[kx] as int].state is Valid) by {
                    match old_id {
                        Some(o) => {
                            if c[kx] != o {
                                assert(s_marked[c[kx] as int] == s_start[c[kx] as int]);
                            }
                        },
                        None => {},
                    }
                }
                if new_id < s_marked.len() {
                    assert(s_marked[new_id as int].state is Removed);
                } else {
                    assert(c[kx] < n0 && n0 <= s_marked.len());
                }
            }
        }
        assert(outcome_new_id(ocs[k as int]) == Some(new_id));
        assert(is_new_of(ocs, new_id));
        assert(new_id != wip_id);
        assert forall|k2: int| 0 <= k2 < k + 1 implies outcome_ok(
            pre,
            now,
            c,
            elems0,
            wip_id,
            k2,
            ocs[k2],
        ) by {
            if k2 < k {
                assert(ocs[k2] == old(outcomes)@[k2]);
                if k2 < c.len() {
                    assert(c[k2] != new_id);
                    assert(same_core(s_start, s_marked, c[k2] as int)) by {
                        match old_id {
                            Some(o) => {
                                if c[k2] != o {
                                    assert(s_marked[c[k2] as int] == s_start[c[k2] as int]);
                                }
                            },
                            None => {},
                        }
                    }
                    assert(same_core(s_marked, now, c[k2] as int));
                    assert(same_core(s_start, now, c[k2] as int));
                }
                match outcome_new_id(old(outcomes)@[k2]) {
                    Some(id) => {
                        assert(id != new_id) by {
                            assert(s_start[id as int].state is Valid);
                            assert(s_marked[id as int].state is Valid);
                            if new_id < s_marked.len() {
                                assert(s_marked[new_id as int].state is Removed);
                            }
                        }
                        assert(!c.contains(id));
                        assert(same_core(s_start, s_marked, id as int)) by {
                            match old_id {
                                Some(o) => {
                                    if id != o {
                                        assert(s_marked[id as int] == s_start[id as int]);
                                    } else {
                                        assert(c.contains(o));
                                    }
                                },
                                None => {},
                            }
                        }
                        assert(same_core(s_marked, now, id as int));
                        assert(same_core(s_start, now, id as int));
                    },
                    None => {},
                }
                lemma_outcome_stable(pre, s_start, now, c, elems0, wip_id, k2, ocs[k2]);
            } else {
                assert(outcome_ok(pre, now, c, elems0, wip_id, k2, ocs[k2])) by {
                    match old_id {
                        Some(o) => {
                            assert(now[o as int].effect_tag matches Some(EffectTag::Deletion))
                                by {
                                assert(o != new_id);
                                assert(same_core(s_marked, now, o as int));
                            }
                        },
                        None => {},
                    }
                }
            }
        }
        assert forall|k2: int|
            0 <= k2 < k + 1 implies (outcome_new_id(#[trigger] ocs[k2]) matches Some(id) ==> id
                < now.len() && now[id as int].state is Valid && !c.contains(id) && id
                != wip_id) by {
            if k2 < k {
                assert(ocs[k2] == old(outcomes)@[k2]);
                match outcome_new_id(ocs[k2]) {
                    Some(id) => {
                        assert(id != new_id) by {
                            assert(s_start[id as int].state is Valid);
                            assert(s_marked[id as int].state is Valid);
                            if new_id < s_marked.len() {
                                assert(s_marked[new_id as int].state is Removed);
                            }
                        }
                        assert(same_core(s_marked, now, id as int));
                        assert(same_core(s_start, s_marked, id as int)) by {
                            match old_id {
                                Some(o) => {
                                    if id != o {
                                        assert(s_marked[id as int] == s_start[id as int]);
                                    } else {
                                        assert(c.contains(o));
                                    }
                                },
                                None => {},
                            }
                        }
                    },
                    None => {},
                }
            }
        }
        assert forall|j: int|
            0 <= j < n0 && j != wip_id && !c.contains(j as FiberId) && !is_new_of(
                ocs,
                j as FiberId,
            ) implies now[j] == pre[j] by {
            assert(!is_new_of(old(outcomes)@, j as FiberId)) by {
                if is_new_of(old(outcomes)@, j as FiberId) {
                    let kx = choose|kx: int|
                        0 <= kx < old(outcomes)@.len() && outcome_new_id(
                            #[trigger] old(outcomes)@[kx],
                        ) == Some(j as FiberId);
                    assert(ocs[kx] == old(outcomes)@[kx]);
                    assert(is_new_of(ocs, j as FiberId));
                }
            }
            assert(j != new_id);
            assert(s_start[j] == pre[j]);
            assert(s_marked[j] == s_start[j]) by {
                match old_id {
                    Some(o) => {
                        assert(c.contains(o));
                        assert(j != o);
                    },
                    None => {},
                }
            }
            assert(now[j] == s_marked[j]) by {
                assert(j != new_id);
                match prev_sibling {
                    Some(p) => {
                        if exists|kp: int| 0 <= kp < k && kp < c.len() && c[kp] == p {
                            let kp = choose|kp: int| 0 <= kp < k && kp < c.len() && c[kp] == p;
                            assert(c.contains(p));
                            assert(j != p);
                        } else {
                            assert(is_new_of(old(outcomes)@, p));
                            let kx = choose|kx: int|
                                0 <= kx < old(outcomes)@.len() && outcome_new_id(
                                    #[trigger] old(outcomes)@[kx],
                                ) == Some(p);
                            assert(ocs[kx] == old(outcomes)@[kx]);
                            assert(is_new_of(ocs, p));
                            assert(j != p);
                        }
                    },
                    None => {},
                }
            }
        }
        assert forall|kk: int| 0 <= kk < c.len() implies now[c[kk] as int].state is Valid by {
            assert(c[kk] != new_id);
            assert(same_core(s_marked, now, c[kk] as int));
            assert(s_marked[c[kk] as int].state == s_start[c[kk] as int].state) by {
                match old_id {
                    Some(o) => {
                        if c[kk] != o {
                            assert(s_marked[c[kk] as int] == s_start[c[kk] as int]);
                        }
                    },
                    None => {},
                }
            }
        }
        assert forall|kk: int| k + 1 <= kk < c.len() implies now[c[kk] as int] == pre[
            c[kk] as int
        ] by {
            assert(c[kk] != new_id);
            match old_id {
                Some(o) => {
                    assert(c[kk] != o);
                },
                None => {},
            }
            assert(s_marked[c[kk] as int] == s_start[c[kk] as int]);
            assert(now[c[kk] as int] == s_marked[c[kk] as int]) by {
                match prev_sibling {
                    Some(p) => {
                        assert(p != wip_id);
                        if exists|kp: int| 0 <= kp < k && kp < c.len() && c[kp] == p {
                            let kp = choose|kp: int| 0 <= kp < k && kp < c.len() && c[kp] == p;
                            assert(c[kk] != c[kp]);
                        } else {
                            assert(is_new_of(old(outcomes)@, p));
                            assert(!c.contains(p));
                            assert(c[kk] != p) by {
                                if c[kk] == p {
                                    assert(c.contains(p));
                                }
                            }
                        }
                    },
                    None => {},
                }
            }
        }
        // the work-in-progress parent: only its head-child link may move
        assert(now[wip_id as int].node == pre[wip_id as int].node && now[
            wip_id as int
        ].effect_tag == pre[wip_id as int].effect_tag && now[wip_id as int].state == pre[
            wip_id as int
        ].state && now[wip_id as int].parent == pre[wip_id as int].parent) by {
            assert(same_core(s_marked, now, wip_id as int)) by {
                assert(wip_id != new_id);
            }
            assert(s_marked[wip_id as int] == s_start[wip_id as int]) by {
                match old_id {
                    Some(o) => {
                        assert(c.contains(o));
                    },
                    None => {},
                }
            }
        }
        assert(now[wip_id as int].sibling == pre[wip_id as int].sibling) by {
            match prev_sibling {
                Some(p) => {
                    assert(p != wip_id);
                },
                None => {},
            }
        }
        // the splice, exposed link by link
        let anchor: int = match prev_sibling {
            Some(p) => p as int,
            None => wip_id as int,
        };
        assert forall|j: int|
            0 <= j < old(tree).nodes@.len() && j != anchor && j != new_id implies (#[trigger] now[j]).child == old(tree).nodes@[j].child && now[j].sibling == old(tree).nodes@[j].sibling by {
            assert(s_marked[j].child == s_start[j].child && s_marked[j].sibling
                == s_start[j].sibling) by {
                match old_id {
                    Some(o) => {
                        if j != o {
                            assert(s_marked[j] == s_start[j]);
                        }
                    },
                    None => {},
                }
            }
        }
        assert(s_marked[anchor].sibling == s_start[anchor].sibling && s_marked[anchor].child
            == s_start[anchor].child) by {
            match old_id {
                Some(o) => {
                    if anchor != o {
                        assert(s_marked[anchor] == s_start[anchor]);
                    } else {
                        assert(c.contains(o));
                        match prev_sibling {
                            Some(p) => {
                                if exists|kp: int| 0 <= kp < k && kp < c.len() && c[kp] == p {
                                    let kp = choose|kp: int|
                                        0 <= kp < k && kp < c.len() && c[kp] == p;
                                    assert(c[kp] != c[k]);
                                } else {
                                    assert(is_new_of(old(outcomes)@, p));
                                    assert(!c.contains(p));
                                }
                            },
                            None => {},
                        }
                    }
                },
                None => {},
            }
        }
        assert(s_marked[new_id as int].sibling == s_start[new_id as int].sibling || new_id
            >= s_start.len()) by {
            match old_id {
                Some(o) => {
                    if new_id < s_start.len() && new_id != o {
                        assert(s_marked[new_id as int] == s_start[new_id as int]);
                    }
                },
                None => {},
            }
        }
        assert(new_id < s_start.len() ==> s_start[new_id as int].state is Removed) by {
            if new_id < s_start.len() {
                assert(s_marked[new_id as int].state is Removed);
                assert(s_marked[new_id as int].state == s_start[new_id as int].state) by {
                    match old_id {
                        Some(o) => {
                            if new_id != o {
                                assert(s_marked[new_id as int] == s_start[new_id as int]);
                            }
                        },
                        None => {},
                    }
                }
            }
        }
        assert(new_id >= s_start.len() ==> new_id == s_start.len());
        assert(prev_sibling is Some ==> now[anchor].sibling == Some(new_id) && now[anchor].child
            == s_start[anchor].child) by {
            match prev_sibling {
                Some(p) => {
                    assert(now[p as int].sibling == Some(new_id));
                    assert(now[p as int].child == s_marked[p as int].child);
                    assert(s_marked[p as int].child == s_start[p as int].child);
                },
                None => {},
            }
        }
        assert(prev_sibling is None ==> now[anchor].child == Some(new_id) && now[anchor].sibling
            == s_start[anchor].sibling) by {
            match prev_sibling {
                Some(_) => {},
                None => {
                    assert(now[wip_id as int].child == Some(new_id));
                    assert(now[wip_id as int].sibling == s_marked[wip_id as int].sibling);
                    assert(s_marked[wip_id as int].sibling == s_start[wip_id as int].sibling);
                },
            }
        }
        assert(now[new_id as int].sibling == (match prev_sibling {
            Some(p) => s_start[p as int].sibling,
            None => s_start[wip_id as int].child,
        })) by {
            match prev_sibling {
                Some(p) => {
                    assert(s_marked[p as int].sibling == s_start[p as int].sibling);
                },
                None => {
                    assert(s_marked[wip_id as int].child == s_start[wip_id as int].child);
                },
            }
        }
        if clean {
            lemma_place_weave(
                s_start,
                now,
                wip_id,
                c,
                old(outcomes)@,
                ocs,
                k,
                prev_sibling,
                old_id,
                new_id,
            );
        }
    }
    Some(new_id)
}

/// Reconciles the new child list `elements` against `wip_id`'s existing
/// child chain, in lock step and purely positionally; see [`outcome_ok`]
/// for what each position guarantees. Old chain fibers beyond the new
/// list's length are tagged `Deletion` (physical removal is deferred to
/// commit). A chain that names a fiber twice or names the parent itself is
/// treated as empty: every position is then a placement.
#[verifier::rlimit(100)]
#[verifier::spinoff_prover]
pub fn reconcile_children<C: AnyComponent>(
    tree: &mut FiberTree<C>,
    wip_id: FiberId,
    elements: Vec<VNode<C>>,
) -> (r: ReconcileReport)
    requires
        old(tree).free_ok(),
        wip_id < old(tree).nodes@.len(),
        old(tree).nodes@[wip_id as int].state is Valid,
    ensures
        final(tree).free_ok(),
        reconcile_post(
            old(tree).nodes@,
            final(tree).nodes@,
            wip_id,
            elements@,
            r.outcomes@,
            r.deleted@,
        ),
{
    let ghost pre = old(tree).nodes@;
    let chain: Vec<FiberId> = child_chain(tree, wip_id);
    let chain_ok = check_chain_wf(&chain, wip_id);
    let ghost c: Seq<FiberId> = if chain_ok {
        chain@
    } else {
        Seq::<FiberId>::empty()
    };
    let chain_len: usize = if chain_ok {
        chain.len()
    } else {
        0
    };
    proof {
        lemma_chain_entries(pre, pre[wip_id as int].child, pre.len() as nat);
    }
    let ghost elems0 = elements@;
    let mut elements = elements;
    let total = elements.len();
    let mut outcomes: Vec<ChildOutcome> = Vec::new();
    let mut prev_sibling: Option<FiberId> = None;
    let mut k: usize = 0;
    let ghost clean = chain_clean(pre, wip_id, c);
    proof {
        if clean {
            assert(weave_inv(tree.nodes@, wip_id, outcomes@, c, 0, None::<FiberId>)) by {
                reveal(weave_inv);
                assert(woven_full(outcomes@, c, 0) =~= c);
                assert(woven_emitted(outcomes@, 0) =~= Seq::<FiberId>::empty());
            }
        }
    }
    #[verifier::loop_isolation(false)]
    while k < total
        invariant
            k <= total,
            elements@ == elems0.skip(k as int),
            outcomes@.len() == k,
            tree.free_ok(),
            chain_len == c.len(),
            chain_ok ==> c == chain@,
            step_inv(pre, tree.nodes@, c, elems0, wip_id, outcomes@, prev_sibling, k as int, k as int),
            clean ==> weave_inv(tree.nodes@, wip_id, outcomes@, c, k as int, prev_sibling),
        decreases total - k,
    {
        proof {
            assert(elems0.skip(k as int).len() > 0);
        }
        let element = elements.remove(0);
        proof {
            assert(element == elems0[k as int]);
            assert(elements@ =~= elems0.skip(k + 1int));
        }
        let ghost t0 = tree.nodes@;
        let ghost o0 = outcomes@;
        let ghost prev0 = prev_sibling;
        if k < chain_len {
            let old_id = chain[k];
            proof {
                assert(c[k as int] == old_id);
                assert(tree.nodes@[old_id as int] == pre[old_id as int]);
            }
            let is_match = node_matches(&tree.nodes[old_id].node, &element);
            if is_match {
                prev_sibling = step_match(
                    tree,
                    wip_id,
                    old_id,
                    element,
                    &mut outcomes,
                    Ghost(pre),
                    Ghost(c),
                    Ghost(elems0),
                    Ghost(k as int),
                    Ghost(clean),
                    Ghost(prev0),
                );
            } else {
                prev_sibling = step_place(
                    tree,
                    wip_id,
                    prev_sibling,
                    Some(old_id),
                    element,
                    &mut outcomes,
                    Ghost(pre),
                    Ghost(c),
                    Ghost(elems0),
                    Ghost(k as int),
                    Ghost(clean),
                );
            }
        } else {
            prev_sibling = step_place(
                tree,
                wip_id,
                prev_sibling,
                None,
                element,
                &mut outcomes,
                Ghost(pre),
                Ghost(c),
                Ghost(elems0),
                Ghost(k as int),
                Ghost(clean),
            );
        }
        k = k + 1;
    }
    let ghost t_mid = tree.nodes@;
    let deleted = tag_excess(
        tree,
        &chain,
        total,
        wip_id,
        chain_ok,
        Ghost(pre),
        Ghost(c),
        Ghost(elems0),
        Ghost(outcomes@),
        Ghost(prev_sibling),
    );
    proof {
        if clean {
            lemma_weave_to_woven(
                t_mid,
                tree.nodes@,
                wip_id,
                outcomes@,
                c,
                total as int,
                prev_sibling,
            );
        }
    }
    proof {
        assert(pre == old(tree).nodes@);
        assert(child_chain_of(pre, wip_id) == chain@);
        assert(chain_wf(child_chain_of(pre, wip_id), wip_id) == chain_ok);
        let now = tree.nodes@;
        assert forall|kx: int| 0 <= kx < deleted@.len() implies {
            let id = #[trigger] deleted@[kx];
            &&& now[id as int].effect_tag matches Some(EffectTag::Deletion)
            &&& now[id as int].node == pre[id as int].node
            &&& now[id as int].state == pre[id as int].state
        } by {
            assert(deleted@[kx] == c[total + kx]);
        }
        assert(reconcile_frame(pre, now, c, outcomes@, wip_id));
    }
    ReconcileReport { outcomes, deleted }
}

/// Tags every old chain fiber beyond the new list's length `Deletion`.
fn tag_excess<C: AnyComponent>(
    tree: &mut FiberTree<C>,
    chain: &Vec<FiberId>,
    total: usize,
    wip_id: FiberId,
    chain_applies: bool,
    Ghost(pre): Ghost<Seq<FiberNode<C>>>,
    Ghost(c): Ghost<Seq<FiberId>>,
    Ghost(elems0): Ghost<Seq<VNode<C>>>,
    Ghost(ocs): Ghost<Seq<ChildOutcome>>,
    Ghost(prev): Ghost<Option<FiberId>>,
) -> (deleted: Vec<FiberId>)
    requires
        old(tree).free_ok(),
        chain_applies ==> c == chain@,
        !chain_applies ==> c == Seq::<FiberId>::empty(),
        total == elems0.len(),
        ocs.len() == total,
        step_inv(pre, old(tree).nodes@, c, elems0, wip_id, ocs, prev, total as int, total as int),
    ensures
        final(tree).free_ok(),
        step_inv(
            pre,
            final(tree).nodes@,
            c,
            elems0,
            wip_id,
            ocs,
            prev,
            total as int,
            c.len() as int,
        ),
        deleted@ == if c.len() > total {
            c.skip(total as int)
        } else {
            Seq::<FiberId>::empty()
        },
        final(tree).nodes@.len() == old(tree).nodes@.len(),
        forall|j: int|
            0 <= j < old(tree).nodes@.len() ==> (#[trigger] final(tree).nodes@[j]).child == old(
                tree,
            ).nodes@[j].child && final(tree).nodes@[j].sibling == old(tree).nodes@[j].sibling
                && final(tree).nodes@[j].state == old(tree).nodes@[j].state,
{
    let chain_len: usize = if chain_applies {
        chain.len()
    } else {
        0
    };
    let mut deleted: Vec<FiberId> = Vec::new();
    let mut d: usize = total;
    if chain_len <= total {
        d = chain_len;
    }
    #[verifier::loop_isolation(false)]
    while d < chain_len
        invariant
            total <= d <= chain_len || (chain_len <= total && d == chain_len),
            chain_len == c.len(),
            chain_applies ==> c == chain@,
            deleted@ == c.subrange(
                (if c.len() > total {
                    total as int
                } else {
                    c.len() as int
                }),
                d as int,
            ),
            tree.free_ok(),
            step_inv(pre, tree.nodes@, c, elems0, wip_id, ocs, prev, total as int, d as int),
            tree.nodes@.len() == old(tree).nodes@.len(),
            forall|j: int|
                0 <= j < old(tree).nodes@.len() ==> (#[trigger] tree.nodes@[j]).child == old(
                    tree,
                ).nodes@[j].child && tree.nodes@[j].sibling == old(tree).nodes@[j].sibling
                    && tree.nodes@[j].state == old(tree).nodes@[j].state,
        decreases chain_len - d,
    {
        let old_id = chain[d];
        let ghost s_start = tree.nodes@;
        mark_deletion(tree, old_id);
        deleted.push(old_id);
        proof {
            let now = tree.nodes@;
            assert(deleted@ =~= c.subrange(total as int, d + 1int));
            assert(c.contains(old_id));
            assert forall|k2: int| 0 <= k2 < total implies outcome_ok(
                pre,
                now,
                c,
                elems0,
                wip_id,
                k2,
                ocs[k2],
            ) by {
                if k2 < c.len() {
                    assert(c[k2] != c[d as int]);
                    assert(same_core(s_start, now, c[k2] as int));
                }
                match outcome_new_id(ocs[k2]) {
                    Some(id) => {
                        assert(!c.contains(id));
                        assert(id != old_id);
                        assert(same_core(s_start, now, id as int));
                    },
                    None => {},
                }
                lemma_outcome_stable(pre, s_start, now, c, elems0, wip_id, k2, ocs[k2]);
            }
            assert forall|j: int|
                0 <= j < pre.len() && j != wip_id && !c.contains(j as FiberId) && !is_new_of(
                    ocs,
                    j as FiberId,
                ) implies now[j] == pre[j] by {
                assert(j != old_id);
                assert(now[j] == s_start[j]);
            }
            assert forall|kk: int| 0 <= kk < c.len() implies now[c[kk] as int].state is Valid by {
                if c[kk] == old_id {
                    assert(now[c[kk] as int].state == s_start[c[kk] as int].state);
                } else {
                    assert(now[c[kk] as int] == s_start[c[kk] as int]);
                }
            }
            assert forall|kk: int| d + 1 <= kk < c.len() implies now[c[kk] as int] == pre[
                c[kk] as int
            ] by {
                assert(c[kk] != old_id);
                assert(now[c[kk] as int] == s_start[c[kk] as int]);
            }
            assert(old_id != wip_id);
            assert(now[wip_id as int] == s_start[wip_id as int]);
            assert(match prev {
                Some(p) => now[p as int].state is Valid,
                None => true,
            }) by {
                match prev {
                    Some(p) => {
                        if p != old_id {
                            assert(now[p as int] == s_start[p as int]);
                        } else {
                            assert(now[p as int].state == s_start[p as int].state);
                        }
                    },
                    None => {},
                }
            }
        }
        d = d + 1;
    }
    proof {
        if c.len() > total {
            assert(deleted@ =~= c.skip(total as int));
        } else {
            assert(deleted@ =~= Seq::<FiberId>::empty());
        }
    }
    deleted
}

} // verus!
verus! {

/// A virtual node that shows exactly a fiber's data in particular matches
/// it positionally.
pub proof fn lemma_unchanged_matches<C: AnyComponent>(n: Node<C>, v: VNode<C>)
    requires
        spec_unchanged(n, v),
    ensures
        spec_matches(n, v),
{
}

/// Idempotence: reconciling a level whose new description shows exactly
/// what its fibers already show — position for position, with no component
/// among them — reuses every fiber and leaves not a single pending effect
/// tag anywhere in an arena that had none.
pub proof fn lemma_rerender_idempotent<C: AnyComponent>(
    pre: Seq<FiberNode<C>>,
    post: Seq<FiberNode<C>>,
    c: Seq<FiberId>,
    elems: Seq<VNode<C>>,
    wip: FiberId,
    outcomes: Seq<ChildOutcome>,
)
    requires
        chain_wf(c, wip),
        wip < pre.len(),
        pre.len() <= usize::MAX,
        outcomes.len() == elems.len(),
        elems.len() == c.len(),
        forall|k: int| 0 <= k < c.len() ==> c[k] < pre.len(),
        forall|k: int|
            0 <= k < elems.len() ==> outcome_ok(pre, post, c, elems, wip, k, outcomes[k]),
        reconcile_frame(pre, post, c, outcomes, wip),
        (forall|k: int| 0 <= k < outcomes.len() ==> outcomes[k] is Reused) ==> post.len()
            == pre.len(),
        forall|k: int| 0 <= k < elems.len() ==> spec_unchanged(pre[c[k] as int].node, elems[k]),
        forall|j: int| 0 <= j < pre.len() ==> pre[j].effect_tag is None,
    ensures
        forall|k: int|
            0 <= k < outcomes.len() ==> outcomes[k] == (ChildOutcome::Reused {
                id: c[k],
                changed: false,
            }),
        forall|j: int| 0 <= j < post.len() ==> post[j].effect_tag is None,
{
    assert forall|k: int| 0 <= k < outcomes.len() implies outcomes[k] == (ChildOutcome::Reused {
        id: c[k],
        changed: false,
    }) by {
        lemma_unchanged_matches(pre[c[k] as int].node, elems[k]);
    }
    assert forall|k: int| 0 <= k < outcomes.len() implies outcomes[k] is Reused by {
        assert(outcomes[k] == (ChildOutcome::Reused { id: c[k], changed: false }));
    }
    assert(post.len() == pre.len());
    assert forall|j: int| 0 <= j < post.len() implies post[j].effect_tag is None by {
        if c.contains(j as FiberId) {
            let k = choose|k: int| 0 <= k < c.len() && c[k] == j as FiberId;
            assert(c[k] as int == j);
            lemma_unchanged_matches(pre[c[k] as int].node, elems[k]);
            assert(outcome_ok(pre, post, c, elems, wip, k, outcomes[k]));
            assert(spec_unchanged(pre[c[k] as int].node, elems[k]));
            assert(post[c[k] as int].effect_tag is None);
        } else if j == wip {
            assert(post[j].effect_tag == pre[j].effect_tag);
        } else {
            assert(!is_new_of(outcomes, j as FiberId)) by {
                if is_new_of(outcomes, j as FiberId) {
                    let k = choose|k: int|
                        0 <= k < outcomes.len() && outcome_new_id(#[trigger] outcomes[k]) == Some(
                            j as FiberId,
                        );
                    assert(outcomes[k] is Reused);
                }
            }
            assert(post[j] == pre[j]);
        }
    }
}

/// Reuse law: a position whose kind and tag/identity match keeps the
/// existing fiber id there, and only an `Update` — or nothing at all — is
/// emitted for it, never a `Placement` or a `Deletion`.
pub proof fn lemma_reuse_law<C: AnyComponent>(
    pre: Seq<FiberNode<C>>,
    post: Seq<FiberNode<C>>,
    c: Seq<FiberId>,
    elems: Seq<VNode<C>>,
    wip: FiberId,
    k: int,
    oc: ChildOutcome,
)
    requires
        outcome_ok(pre, post, c, elems, wip, k, oc),
        0 <= k < elems.len(),
        k < c.len(),
        spec_matches(pre[c[k] as int].node, elems[k]),
    ensures
        oc matches ChildOutcome::Reused { id, .. } && id == c[k],
        post[c[k] as int].effect_tag is None || (post[c[k] as int].effect_tag matches Some(
            EffectTag::Update(_),
        )),
{
}

/// Positional replacement: a position whose kind or tag/identity differs is
/// replaced outright — the old fiber tagged `Deletion`, a fresh `Placement`
/// fiber put in its position — and a position beyond the old chain's length
/// is a pure placement. The walk is strictly positional, never a
/// minimal-edit diff.
pub proof fn lemma_positional_replacement<C: AnyComponent>(
    pre: Seq<FiberNode<C>>,
    post: Seq<FiberNode<C>>,
    c: Seq<FiberId>,
    elems: Seq<VNode<C>>,
    wip: FiberId,
    k: int,
    oc: ChildOutcome,
)
    requires
        outcome_ok(pre, post, c, elems, wip, k, oc),
        0 <= k < elems.len(),
        k < c.len() ==> !spec_matches(pre[c[k] as int].node, elems[k]),
    ensures
        k < c.len() ==> (oc matches ChildOutcome::Replaced { old_id, new_id } && ({
            &&& old_id == c[k]
            &&& post[c[k] as int].effect_tag matches Some(EffectTag::Deletion)
            &&& post[new_id as int].effect_tag matches Some(EffectTag::Placement)
        })),
        k >= c.len() ==> (oc matches ChildOutcome::Placed { new_id } && ({
            &&& post[new_id as int].effect_tag matches Some(EffectTag::Placement)
        })),
{
}

/// The fiber where traversal resumes after `id`: its first child if it has
/// one, else the nearest ancestor's next sibling, else nothing; the ancestor
/// climb is cut off at `fuel` steps.
pub open spec fn next_unit_after<C>(
    nodes: Seq<FiberNode<C>>,
    id: FiberId,
    fuel: nat,
) -> Option<FiberId>
    decreases fuel,
{
    if id >= nodes.len() {
        None
    } else if nodes[id as int].child is Some {
        nodes[id as int].child
    } else if nodes[id as int].sibling is Some {
        nodes[id as int].sibling
    } else if fuel == 0 {
        None
    } else {
        match nodes[id as int].parent {
            Some(p) => next_sibling_up(nodes, p, (fuel - 1) as nat),
            None => None,
        }
    }
}

/// The nearest next sibling at or above `id`, climbing parents, cut off at
/// `fuel` steps.
pub open spec fn next_sibling_up<C>(nodes: Seq<FiberNode<C>>, id: FiberId, fuel: nat) -> Option<
    FiberId,
>
    decreases fuel,
{
    if id >= nodes.len() {
        None
    } else if nodes[id as int].sibling is Some {
        nodes[id as int].sibling
    } else if fuel == 0 {
        None
    } else {
        match nodes[id as int].parent {
            Some(p) => next_sibling_up(nodes, p, (fuel - 1) as nat),
            None => None,
        }
    }
}

/// The depth-first pre-order successor of `id`: its first child if it has
/// one, else the nearest ancestor's (or its own) next sibling.
pub fn next_fiber<C>(tree: &FiberTree<C>, id: FiberId) -> (r: Option<FiberId>)
    ensures
        r == next_unit_after(tree.nodes@, id, tree.nodes@.len() as nat),
{
    let n = tree.nodes.len();
    if id >= n {
        return None;
    }
    if let Some(child) = tree.nodes[id].child {
        return Some(child);
    }
    if let Some(sib) = tree.nodes[id].sibling {
        return Some(sib);
    }
    let mut fuel: usize = n;
    let mut cur: Option<FiberId> = tree.nodes[id].parent;
    proof {
        assert(next_unit_after(tree.nodes@, id, n as nat) == (match tree.nodes@[id as int].parent {
            Some(p) => next_sibling_up(tree.nodes@, p, (n - 1) as nat),
            None => None::<FiberId>,
        }));
    }
    if n >= 1 {
        fuel = n - 1;
    }
    #[verifier::loop_isolation(false)]
    while cur.is_some()
        invariant
            next_unit_after(tree.nodes@, id, tree.nodes@.len() as nat) == (match cur {
                Some(q) => next_sibling_up(tree.nodes@, q, fuel as nat),
                None => None::<FiberId>,
            }),
        decreases fuel,
    {
        let q = cur.unwrap();
        if q < n {
            if let Some(sib) = tree.nodes[q].sibling {
                return Some(sib);
            }
            if fuel == 0 {
                return None;
            }
            fuel = fuel - 1;
            cur = tree.nodes[q].parent;
        } else {
            return None;
        }
    }
    None
}

/// The nearest element fiber at or above `cur`, climbing parent links,
/// cut off at `fuel` hops.
pub open spec fn elem_ancestor<C>(nodes: Seq<FiberNode<C>>, cur: Option<FiberId>, fuel: nat) -> Option<
    FiberId,
>
    decreases fuel,
{
    if fuel == 0 {
        None
    } else {
        match cur {
            None => None,
            Some(q) => {
                if q >= nodes.len() {
                    None
                } else if nodes[q as int].node is Element {
                    Some(q)
                } else {
                    elem_ancestor(nodes, nodes[q as int].parent, (fuel - 1) as nat)
                }
            },
        }
    }
}

/// The nearest host-bearing (element or text) fiber at or below `cur`,
/// descending first-child links, cut off at `fuel` hops.
pub open spec fn dom_descendant<C>(nodes: Seq<FiberNode<C>>, cur: Option<FiberId>, fuel: nat) -> Option<
    FiberId,
>
    decreases fuel,
{
    if fuel == 0 {
        None
    } else {
        match cur {
            None => None,
            Some(q) => {
                if q >= nodes.len() {
                    None
                } else if nodes[q as int].node is Element || nodes[q as int].node is Text {
                    Some(q)
                } else {
                    dom_descendant(nodes, nodes[q as int].child, (fuel - 1) as nat)
                }
            },
        }
    }
}

/// The nearest ancestor of `id` whose payload is an element — the fiber
/// whose host node is the mutation parent at commit time. `None` exactly
/// when the bounded parent climb from `id` reaches no element fiber.
pub fn find_first_element_parent<C>(tree: &FiberTree<C>, id: FiberId) -> (r: Option<FiberId>)
    ensures
        r == (if id < tree.nodes@.len() {
            elem_ancestor(tree.nodes@, tree.nodes@[id as int].parent, tree.nodes@.len() as nat)
        } else {
            None
        }),
        r matches Some(p) ==> p < tree.nodes@.len() && tree.nodes@[p as int].node is Element,
    {
    let n = tree.nodes.len();
    if id >= n {
        return None;
    }
    let mut cur = tree.nodes[id].parent;
    let mut steps: usize = 0;
    #[verifier::loop_isolation(false)]
    while steps < n
        invariant
            steps <= n,
            elem_ancestor(tree.nodes@, tree.nodes@[id as int].parent, n as nat) == elem_ancestor(
                tree.nodes@,
                cur,
                (n - steps) as nat,
            ),
        decreases n - steps,
    {
        match cur {
            Some(q) => {
                if q >= n {
                    return None;
                }
                match &tree.nodes[q].node {
                    Node::Element(_) => {
                        return Some(q);
                    },
                    _ => {
                        cur = tree.nodes[q].parent;
                    },
                }
            },
            None => {
                return None;
            },
        }
        steps = steps + 1;
    }
    None
}

/// The nearest descendant of `id` that owns (or will own) a host node — an
/// element or text fiber — found by descending first children. `None`
/// exactly when the bounded descent from `id` reaches no such fiber.
pub fn find_first_dom_child<C>(tree: &FiberTree<C>, id: FiberId) -> (r: Option<FiberId>)
    ensures
        r == (if id < tree.nodes@.len() {
            dom_descendant(tree.nodes@, tree.nodes@[id as int].child, tree.nodes@.len() as nat)
        } else {
            None
        }),
        r matches Some(d) ==> d < tree.nodes@.len() && (tree.nodes@[d as int].node is Element
            || tree.nodes@[d as int].node is Text),
    {
    let n = tree.nodes.len();
    if id >= n {
        return None;
    }
    let mut cur = tree.nodes[id].child;
    let mut steps: usize = 0;
    #[verifier::loop_isolation(false)]
    while steps < n
        invariant
            steps <= n,
            dom_descendant(tree.nodes@, tree.nodes@[id as int].child, n as nat) == dom_descendant(
                tree.nodes@,
                cur,
                (n - steps) as nat,
            ),
        decreases n - steps,
    {
        match cur {
            Some(q) => {
                if q >= n {
                    return None;
                }
                match &tree.nodes[q].node {
                    Node::Element(_) => {
                        return Some(q);
                    },
                    Node::Text(_) => {
                        return Some(q);
                    },
                    _ => {
                        cur = tree.nodes[q].child;
                    },
                }
            },
            None => {
                return None;
            },
        }
        steps = steps + 1;
    }
    None
}

} // verus!

verus! {

/// What [`crate::attrs::set_diff`] collects: exactly the bindings of
/// `new_s` that `old_s` does not already carry, each carrying its value
/// from `new_s`, with pairwise-distinct names.
proof fn lemma_set_diff_props(new_s: Seq<(String, String)>, old_s: Seq<(String, String)>)
    requires
        crate::attrs::keys_distinct(new_s),
    ensures
        ({
            let sd = crate::attrs::set_diff(new_s, old_s);
            &&& forall|i: int|
                0 <= i < sd.len() ==> crate::attrs::lookup(new_s, (#[trigger] sd[i]).0@) == Some(
                    sd[i].1@,
                ) && crate::attrs::lookup(old_s, sd[i].0@) != Some(sd[i].1@)
            &&& forall|q: Seq<char>|
                crate::attrs::has_key(new_s, q) && crate::attrs::lookup(old_s, q)
                    != crate::attrs::lookup(new_s, q) ==> crate::attrs::has_key(sd, q)
            &&& crate::attrs::keys_distinct(sd)
        }),
    decreases new_s.len(),
{
    let sd = crate::attrs::set_diff(new_s, old_s);
    if new_s.len() > 0 {
        let prefix = new_s.drop_last();
        let p = new_s.last();
        assert(crate::attrs::keys_distinct(prefix)) by {
            assert(forall|i: int| 0 <= i < prefix.len() ==> prefix[i] == new_s[i]);
        }
        lemma_set_diff_props(prefix, old_s);
        let sdp = crate::attrs::set_diff(prefix, old_s);
        assert(forall|i: int| 0 <= i < prefix.len() ==> prefix[i] == new_s[i]);
        assert(!crate::attrs::has_key(prefix, p.0@)) by {
            if crate::attrs::has_key(prefix, p.0@) {
                let x = crate::attrs::key_index(prefix, p.0@);
                assert(new_s[x].0@ == p.0@ && x < new_s.len() - 1);
            }
        }
        // a key of the prefix looks up the same in the whole list
        assert forall|q: Seq<char>| crate::attrs::has_key(prefix, q) implies crate::attrs::lookup(
            new_s,
            q,
        ) == crate::attrs::lookup(prefix, q) by {
            let x = crate::attrs::key_index(prefix, q);
            crate::attrs::lemma_lookup_at(prefix, x);
            crate::attrs::lemma_lookup_at(new_s, x);
        }
        crate::attrs::lemma_lookup_at(new_s, new_s.len() - 1);
        assert forall|i: int| 0 <= i < sd.len() implies crate::attrs::lookup(
            new_s,
            (#[trigger] sd[i]).0@,
        ) == Some(sd[i].1@) && crate::attrs::lookup(old_s, sd[i].0@) != Some(sd[i].1@) by {
            if i < sdp.len() {
                assert(sd[i] == sdp[i]);
                assert(crate::attrs::lookup(prefix, sd[i].0@) == Some(sd[i].1@));
                assert(crate::attrs::has_key(prefix, sd[i].0@));
            } else {
                assert(sd[i] == p);
            }
        }
        assert forall|q: Seq<char>|
            crate::attrs::has_key(new_s, q) && crate::attrs::lookup(old_s, q)
                != crate::attrs::lookup(new_s, q) implies crate::attrs::has_key(sd, q) by {
            let x = crate::attrs::key_index(new_s, q);
            if x < new_s.len() - 1 {
                assert(prefix[x].0@ == q);
                assert(crate::attrs::has_key(prefix, q));
                assert(crate::attrs::lookup(prefix, q) == crate::attrs::lookup(new_s, q));
                assert(crate::attrs::has_key(sdp, q));
                let y = crate::attrs::key_index(sdp, q);
                assert(sd[y].0@ == q);
            } else {
                assert(new_s[x] == p);
                assert(crate::attrs::lookup(new_s, q) == Some(p.1@));
                if crate::attrs::lookup(old_s, p.0@) == Some(p.1@) {
                } else {
                    assert(sd.last().0@ == q);
                }
            }
        }
        assert forall|i: int, j: int| 0 <= i < j < sd.len() implies sd[i].0@ != sd[j].0@ by {
            if j < sdp.len() {
            } else if sd.len() > sdp.len() {
                if i < sdp.len() {
                    assert(sd[j] == p);
                    assert(crate::attrs::lookup(prefix, sd[i].0@) == Some(sd[i].1@));
                    assert(crate::attrs::has_key(prefix, sd[i].0@));
                }
            }
        }
    }
}

/// What [`crate::attrs::remove_diff`] collects: exactly the names bound in
/// `old_s` and absent from `new_s`, pairwise distinct.
proof fn lemma_remove_diff_props(old_s: Seq<(String, String)>, new_s: Seq<(String, String)>)
    requires
        crate::attrs::keys_distinct(old_s),
    ensures
        ({
            let rd = crate::attrs::remove_diff(old_s, new_s);
            &&& forall|i: int|
                0 <= i < rd.len() ==> crate::attrs::has_key(old_s, (#[trigger] rd[i])@)
                    && !crate::attrs::has_key(new_s, rd[i]@)
            &&& forall|q: Seq<char>|
                crate::attrs::has_key(old_s, q) && !crate::attrs::has_key(new_s, q) ==> (exists|
                    i: int,
                |
                    0 <= i < rd.len() && (#[trigger] rd[i])@ == q)
        }),
    decreases old_s.len(),
{
    let rd = crate::attrs::remove_diff(old_s, new_s);
    if old_s.len() > 0 {
        let prefix = old_s.drop_last();
        let p = old_s.last();
        assert(crate::attrs::keys_distinct(prefix)) by {
            assert(forall|i: int| 0 <= i < prefix.len() ==> prefix[i] == old_s[i]);
        }
        lemma_remove_diff_props(prefix, new_s);
        let rdp = crate::attrs::remove_diff(prefix, new_s);
        assert(forall|i: int| 0 <= i < prefix.len() ==> prefix[i] == old_s[i]);
        assert forall|i: int| 0 <= i < rd.len() implies crate::attrs::has_key(
            old_s,
            (#[trigger] rd[i])@,
        ) && !crate::attrs::has_key(new_s, rd[i]@) by {
            if i < rdp.len() {
                assert(rd[i] == rdp[i]);
                assert(crate::attrs::has_key(prefix, rdp[i]@));
                let x = crate::attrs::key_index(prefix, rdp[i]@);
                assert(old_s[x].0@ == rdp[i]@);
            } else {
                assert(rd[i] == p.0);
                assert(old_s[old_s.len() - 1].0@ == p.0@);
            }
        }
        assert forall|q: Seq<char>|
            crate::attrs::has_key(old_s, q) && !crate::attrs::has_key(new_s, q) implies (exists|
            i: int,
        |
            0 <= i < rd.len() && (#[trigger] rd[i])@ == q) by {
            let x = crate::attrs::key_index(old_s, q);
            if x < old_s.len() - 1 {
                assert(prefix[x].0@ == q);
                assert(crate::attrs::has_key(prefix, q));
                let i = choose|i: int| 0 <= i < rdp.len() && (#[trigger] rdp[i])@ == q;
                assert(rd[i] == rdp[i]);
            } else {
                assert(old_s[x] == p);
                assert(!crate::attrs::has_key(new_s, p.0@));
                assert(rd[rd.len() - 1]@ == q);
            }
        }
    }
}

} // verus!

verus! {

/// What [`crate::vdom::ev_set_diff`] collects, as [`lemma_set_diff_props`]
/// but for listener tables.
proof fn lemma_ev_set_diff_props(new_s: Seq<(EventType, u64)>, old_s: Seq<(EventType, u64)>)
    requires
        crate::vdom::ev_keys_distinct(new_s),
    ensures
        ({
            let sd = crate::vdom::ev_set_diff(new_s, old_s);
            &&& forall|i: int|
                0 <= i < sd.len() ==> crate::vdom::ev_lookup(new_s, (#[trigger] sd[i]).0) == Some(
                    sd[i].1,
                ) && crate::vdom::ev_lookup(old_s, sd[i].0) != Some(sd[i].1)
            &&& forall|q: EventType|
                crate::vdom::ev_has_key(new_s, q) && crate::vdom::ev_lookup(old_s, q)
                    != crate::vdom::ev_lookup(new_s, q) ==> crate::vdom::ev_has_key(sd, q)
            &&& crate::vdom::ev_keys_distinct(sd)
        }),
    decreases new_s.len(),
{
    let sd = crate::vdom::ev_set_diff(new_s, old_s);
    if new_s.len() > 0 {
        let prefix = new_s.drop_last();
        let p = new_s.last();
        assert(crate::vdom::ev_keys_distinct(prefix)) by {
            assert(forall|i: int| 0 <= i < prefix.len() ==> prefix[i] == new_s[i]);
        }
        lemma_ev_set_diff_props(prefix, old_s);
        let sdp = crate::vdom::ev_set_diff(prefix, old_s);
        assert(forall|i: int| 0 <= i < prefix.len() ==> prefix[i] == new_s[i]);
        assert(!crate::vdom::ev_has_key(prefix, p.0)) by {
            if crate::vdom::ev_has_key(prefix, p.0) {
                let x = crate::vdom::ev_key_index(prefix, p.0);
                assert(new_s[x].0 == p.0 && x < new_s.len() - 1);
            }
        }
        assert forall|q: EventType| crate::vdom::ev_has_key(prefix, q) implies crate::vdom::ev_lookup(
            new_s,
            q,
        ) == crate::vdom::ev_lookup(prefix, q) by {
            let x = crate::vdom::ev_key_index(prefix, q);
            crate::vdom::lemma_ev_lookup_at(prefix, x);
            crate::vdom::lemma_ev_lookup_at(new_s, x);
        }
        crate::vdom::lemma_ev_lookup_at(new_s, new_s.len() - 1);
        assert forall|i: int| 0 <= i < sd.len() implies crate::vdom::ev_lookup(
            new_s,
            (#[trigger] sd[i]).0,
        ) == Some(sd[i].1) && crate::vdom::ev_lookup(old_s, sd[i].0) != Some(sd[i].1) by {
            if i < sdp.len() {
                assert(sd[i] == sdp[i]);
                assert(crate::vdom::ev_lookup(prefix, sd[i].0) == Some(sd[i].1));
                assert(crate::vdom::ev_has_key(prefix, sd[i].0));
            } else {
                assert(sd[i] == p);
            }
        }
        assert forall|q: EventType|
            crate::vdom::ev_has_key(new_s, q) && crate::vdom::ev_lookup(old_s, q)
                != crate::vdom::ev_lookup(new_s, q) implies crate::vdom::ev_has_key(sd, q) by {
            let x = crate::vdom::ev_key_index(new_s, q);
            if x < new_s.len() - 1 {
                assert(prefix[x].0 == q);
                assert(crate::vdom::ev_has_key(prefix, q));
                assert(crate::vdom::ev_lookup(prefix, q) == crate::vdom::ev_lookup(new_s, q));
                assert(crate::vdom::ev_has_key(sdp, q));
                let y = crate::vdom::ev_key_index(sdp, q);
                assert(sd[y].0 == q);
            } else {
                assert(new_s[x] == p);
                assert(crate::vdom::ev_lookup(new_s, q) == Some(p.1));
                if crate::vdom::ev_lookup(old_s, p.0) == Some(p.1) {
                } else {
                    assert(sd.last().0 == q);
                }
            }
        }
        assert forall|i: int, j: int| 0 <= i < j < sd.len() implies sd[i].0 != sd[j].0 by {
            if j < sdp.len() {
            } else if sd.len() > sdp.len() {
                if i < sdp.len() {
                    assert(crate::vdom::ev_lookup(prefix, sd[i].0) == Some(sd[i].1));
                    assert(crate::vdom::ev_has_key(prefix, sd[i].0));
                    assert(sd[j] == p);
                }
            }
        }
    }
}

/// What [`crate::vdom::ev_remove_diff`] collects, as
/// [`lemma_remove_diff_props`] but for listener tables.
proof fn lemma_ev_remove_diff_props(old_s: Seq<(EventType, u64)>, new_s: Seq<(EventType, u64)>)
    requires
        crate::vdom::ev_keys_distinct(old_s),
    ensures
        ({
            let rd = crate::vdom::ev_remove_diff(old_s, new_s);
            &&& forall|i: int|
                0 <= i < rd.len() ==> crate::vdom::ev_has_key(old_s, #[trigger] rd[i])
                    && !crate::vdom::ev_has_key(new_s, rd[i])
            &&& forall|q: EventType|
                crate::vdom::ev_has_key(old_s, q) && !crate::vdom::ev_has_key(new_s, q) ==> (exists|
                    i: int,
                |
                    0 <= i < rd.len() && #[trigger] rd[i] == q)
        }),
    decreases old_s.len(),
{
    let rd = crate::vdom::ev_remove_diff(old_s, new_s);
    if old_s.len() > 0 {
        let prefix = old_s.drop_last();
        let p = old_s.last();
        assert(crate::vdom::ev_keys_distinct(prefix)) by {
            assert(forall|i: int| 0 <= i < prefix.len() ==> prefix[i] == old_s[i]);
        }
        lemma_ev_remove_diff_props(prefix, new_s);
        let rdp = crate::vdom::ev_remove_diff(prefix, new_s);
        assert(forall|i: int| 0 <= i < prefix.len() ==> prefix[i] == old_s[i]);
        assert forall|i: int| 0 <= i < rd.len() implies crate::vdom::ev_has_key(
            old_s,
            #[trigger] rd[i],
        ) && !crate::vdom::ev_has_key(new_s, rd[i]) by {
            if i < rdp.len() {
                assert(rd[i] == rdp[i]);
                assert(crate::vdom::ev_has_key(prefix, rdp[i]));
                let x = crate::vdom::ev_key_index(prefix, rdp[i]);
                assert(old_s[x].0 == rdp[i]);
            } else {
                assert(rd[i] == p.0);
                assert(old_s[old_s.len() - 1].0 == p.0);
            }
        }
        assert forall|q: EventType|
            crate::vdom::ev_has_key(old_s, q) && !crate::vdom::ev_has_key(new_s, q) implies (exists|
            i: int,
        |
            0 <= i < rd.len() && #[trigger] rd[i] == q) by {
            let x = crate::vdom::ev_key_index(old_s, q);
            if x < old_s.len() - 1 {
                assert(prefix[x].0 == q);
                assert(crate::vdom::ev_has_key(prefix, q));
                let i = choose|i: int| 0 <= i < rdp.len() && #[trigger] rdp[i] == q;
                assert(rd[i] == rdp[i]);
            } else {
                assert(old_s[x] == p);
                assert(!crate::vdom::ev_has_key(new_s, p.0));
                assert(rd[rd.len() - 1] == q);
            }
        }
    }
}

} // verus!

verus! {

/// Rewrites a host element's attribute table from `old_attrs` to
/// `new_attrs`: changed and new names are set, names absent from
/// `new_attrs` removed, untouched names kept. If the element showed
/// exactly the bindings of `old_attrs` beforehand, it shows exactly those
/// of `new_attrs` afterwards.
fn apply_attr_update(host: &mut HostDoc, dom: usize, old_attrs: &AttrMap, new_attrs: &AttrMap)
    ensures
        final(host).nodes@.len() == old(host).nodes@.len(),
        dom < old(host).nodes@.len() && old(host).nodes@[dom as int] is Element ==> final(host).ops@ == old(host).ops@ + attr_set_ops(
            dom,
            crate::attrs::set_diff(new_attrs@, old_attrs@),
        ) + attr_remove_ops(dom, crate::attrs::remove_diff(old_attrs@, new_attrs@)),
        !(dom < old(host).nodes@.len() && old(host).nodes@[dom as int] is Element) ==> final(host).ops@ == old(host).ops@,
        forall|j: int|
            0 <= j < old(host).nodes@.len() && j != dom ==> final(host).nodes@[j] == old(host).nodes@[j],
        !(dom < old(host).nodes@.len() && old(host).nodes@[dom as int] is Element) ==> final(host).nodes@
            == old(host).nodes@,
        dom < old(host).nodes@.len() ==> (old(host).nodes@[dom as int] matches HostNode::Element { tag, attributes, listeners, children }
            ==> (final(host).nodes@[dom as int] matches HostNode::Element {
            tag: t2,
            attributes: a2,
            listeners: l2,
            children: c2,
        } && ({
            &&& t2 == tag
            &&& l2 == listeners
            &&& c2 == children
            &&& ((forall|q: Seq<char>|
                crate::attrs::lookup(attributes@, q) == crate::attrs::lookup(old_attrs@, q))
                ==> (forall|q: Seq<char>|
                crate::attrs::lookup(a2@, q) == crate::attrs::lookup(new_attrs@, q)))
        }))),
{
    proof {
        use_type_invariant(old_attrs);
        use_type_invariant(new_attrs);
    }
    if dom >= host.nodes.len() {
        return ;
    }
    let is_element = match &host.nodes[dom] {
        HostNode::Element { .. } => true,
        _ => false,
    };
    if !is_element {
        return ;
    }
    let ghost h0 = host.nodes@;
    let ghost ops0 = host.ops@;
    let ghost start_attrs: Seq<(String, String)> = match h0[dom as int] {
        HostNode::Element { attributes, .. } => attributes@,
        _ => Seq::empty(),
    };
    proof {
        lemma_set_diff_props(new_attrs@, old_attrs@);
        lemma_remove_diff_props(old_attrs@, new_attrs@);
        assert(attr_set_ops(dom, Seq::<(String, String)>::empty()) =~= Seq::<HostOp>::empty());
        assert(ops0 + Seq::<HostOp>::empty() =~= ops0);
    }
    let to_set = new_attrs.to_set(old_attrs);
    let to_remove = new_attrs.to_remove(old_attrs);
    let n = to_set.len();
    let mut i: usize = 0;
    proof {
        assert(to_set@.take(0int) =~= Seq::<(String, String)>::empty());
        assert(forall|q: Seq<char>| !crate::attrs::has_key(to_set@.take(0int), q));
    }
    #[verifier::loop_isolation(false)]
    while i < n
        invariant
            i <= n,
            n == to_set@.len(),
            host.nodes@.len() == h0.len(),
            forall|j: int| 0 <= j < h0.len() && j != dom ==> host.nodes@[j] == h0[j],
            host.ops@ == ops0 + attr_set_ops(dom, to_set@.take(i as int)),
            host.nodes@[dom as int] matches HostNode::Element { tag, attributes, listeners, children }
                && ({
                &&& h0[dom as int] matches HostNode::Element {
                    tag: t0,
                    listeners: l0,
                    children: c0,
                    ..
                } && tag == t0 && listeners == l0 && children == c0
                &&& forall|q: Seq<char>|
                    crate::attrs::lookup(attributes@, q) == (if crate::attrs::has_key(
                        to_set@.take(i as int),
                        q,
                    ) {
                        crate::attrs::lookup(new_attrs@, q)
                    } else {
                        crate::attrs::lookup(start_attrs, q)
                    })
            }),
        decreases n - i,
    {
        let name = to_set[i].0.clone();
        let value = to_set[i].1.clone();
        let ghost before = host.nodes@;
        let applied = host.set_attribute(dom, name, value);
        proof {
            assert(applied);
            assert(crate::attrs::lookup(new_attrs@, to_set@[i as int].0@) == Some(
                to_set@[i as int].1@,
            ));
            assert(to_set@.take(i + 1int).drop_last() =~= to_set@.take(i as int));
            assert(to_set@.take(i + 1int).last() == to_set@[i as int]);
            assert forall|q: Seq<char>|
                crate::attrs::has_key(to_set@.take(i + 1int), q) implies (crate::attrs::has_key(
                to_set@.take(i as int),
                q,
            ) || q == to_set@[i as int].0@) by {
                let x = crate::attrs::key_index(to_set@.take(i + 1int), q);
                if x < i {
                    assert(to_set@.take(i as int)[x].0@ == q);
                }
            }
            assert forall|q: Seq<char>|
                crate::attrs::has_key(to_set@.take(i as int), q) implies crate::attrs::has_key(
                to_set@.take(i + 1int),
                q,
            ) by {
                let x = crate::attrs::key_index(to_set@.take(i as int), q);
                assert(to_set@.take(i + 1int)[x].0@ == q);
            }
            assert(crate::attrs::has_key(to_set@.take(i + 1int), to_set@[i as int].0@)) by {
                assert(to_set@.take(i + 1int)[i as int].0@ == to_set@[i as int].0@);
            }
            assert(attr_set_ops(dom, to_set@.take(i + 1int)) =~= attr_set_ops(
                dom,
                to_set@.take(i as int),
            ).push(
                HostOp::SetAttribute {
                    node: dom,
                    name: to_set@[i as int].0,
                    value: to_set@[i as int].1,
                },
            ));
            assert(host.ops@ =~= ops0 + attr_set_ops(dom, to_set@.take(i + 1int)));
        }
        i = i + 1;
    }
    proof {
        assert(to_set@.take(n as int) =~= to_set@);
        assert(attr_remove_ops(dom, Seq::<String>::empty()) =~= Seq::<HostOp>::empty());
    }
    let ghost ops_mid = host.ops@;
    let ghost mid_attrs: Seq<(String, String)> = match host.nodes@[dom as int] {
        HostNode::Element { attributes, .. } => attributes@,
        _ => Seq::empty(),
    };
    let m = to_remove.len();
    let mut r: usize = 0;
    #[verifier::loop_isolation(false)]
    while r < m
        invariant
            r <= m,
            m == to_remove@.len(),
            host.nodes@.len() == h0.len(),
            forall|j: int| 0 <= j < h0.len() && j != dom ==> host.nodes@[j] == h0[j],
            host.ops@ == ops_mid + attr_remove_ops(dom, to_remove@.take(r as int)),
            ops_mid == ops0 + attr_set_ops(dom, to_set@),
            host.nodes@[dom as int] matches HostNode::Element { tag, attributes, listeners, children }
                && ({
                &&& h0[dom as int] matches HostNode::Element {
                    tag: t0,
                    listeners: l0,
                    children: c0,
                    ..
                } && tag == t0 && listeners == l0 && children == c0
                &&& forall|q: Seq<char>|
                    crate::attrs::lookup(attributes@, q) == (if (exists|x: int|
                        0 <= x < r && (#[trigger] to_remove@[x])@ == q) {
                        None::<Seq<char>>
                    } else {
                        crate::attrs::lookup(mid_attrs, q)
                    })
            }),
        decreases m - r,
    {
        let name = to_remove[r].clone();
        let applied = host.remove_attribute(dom, name);
        proof {
            assert(applied);
            assert(to_remove@.take(r + 1int).drop_last() =~= to_remove@.take(r as int));
            assert(to_remove@.take(r + 1int).last() == to_remove@[r as int]);
            assert(attr_remove_ops(dom, to_remove@.take(r + 1int)) =~= attr_remove_ops(
                dom,
                to_remove@.take(r as int),
            ).push(HostOp::RemoveAttribute { node: dom, name: to_remove@[r as int] }));
            assert(host.ops@ =~= ops_mid + attr_remove_ops(dom, to_remove@.take(r + 1int)));
        }
        r = r + 1;
    }
    proof {
        assert(to_remove@.take(m as int) =~= to_remove@);
        assert(host.ops@ =~= ops0 + attr_set_ops(dom, to_set@) + attr_remove_ops(
            dom,
            to_remove@,
        ));
        let final_attrs: Seq<(String, String)> = match host.nodes@[dom as int] {
            HostNode::Element { attributes, .. } => attributes@,
            _ => Seq::empty(),
        };
        if forall|q: Seq<char>|
            crate::attrs::lookup(start_attrs, q) == crate::attrs::lookup(old_attrs@, q) {
            assert forall|q: Seq<char>|
                crate::attrs::lookup(final_attrs, q) == crate::attrs::lookup(new_attrs@, q) by {
                let sd = crate::attrs::set_diff(new_attrs@, old_attrs@);
                let rd = crate::attrs::remove_diff(old_attrs@, new_attrs@);
                if crate::attrs::has_key(new_attrs@, q) {
                    assert(!(exists|x: int| 0 <= x < m && (#[trigger] to_remove@[x])@ == q)) by {
                        if exists|x: int| 0 <= x < m && (#[trigger] to_remove@[x])@ == q {
                            let x = choose|x: int|
                                0 <= x < m && (#[trigger] to_remove@[x])@ == q;
                            assert(!crate::attrs::has_key(new_attrs@, rd[x]@));
                        }
                    }
                    if crate::attrs::has_key(sd, q) {
                        let y = crate::attrs::key_index(sd, q);
                        crate::attrs::lemma_lookup_at(sd, y);
                        assert(crate::attrs::lookup(mid_attrs, q) == crate::attrs::lookup(
                            new_attrs@,
                            q,
                        ));
                    } else {
                        assert(crate::attrs::lookup(old_attrs@, q) == crate::attrs::lookup(
                            new_attrs@,
                            q,
                        ));
                        assert(crate::attrs::lookup(mid_attrs, q) == crate::attrs::lookup(
                            start_attrs,
                            q,
                        ));
                    }
                } else {
                    assert(crate::attrs::lookup(new_attrs@, q) == None::<Seq<char>>);
                    assert(!crate::attrs::has_key(sd, q)) by {
                        if crate::attrs::has_key(sd, q) {
                            let y = crate::attrs::key_index(sd, q);
                            assert(crate::attrs::lookup(new_attrs@, sd[y].0@) == Some(sd[y].1@));
                        }
                    }
                    assert(crate::attrs::lookup(mid_attrs, q) == crate::attrs::lookup(
                        start_attrs,
                        q,
                    ));
                    if crate::attrs::has_key(old_attrs@, q) {
                        let x = choose|x: int| 0 <= x < rd.len() && (#[trigger] rd[x])@ == q;
                        assert(exists|x: int|
                            0 <= x < m && (#[trigger] to_remove@[x])@ == q);
                    } else {
                        assert(crate::attrs::lookup(start_attrs, q) == None::<Seq<char>>);
                    }
                }
            }
        }
    }
}

} // verus!

verus! {

/// Rewrites a host element's listener table from `old_events` to
/// `new_events`: new listeners are attached, listeners whose identity
/// changed replaced, stale ones detached. If the element showed exactly
/// the bindings of `old_events` beforehand, it shows exactly those of
/// `new_events` afterwards.
fn apply_event_update(host: &mut HostDoc, dom: usize, old_events: &Events, new_events: &Events)
    ensures
        final(host).nodes@.len() == old(host).nodes@.len(),
        dom < old(host).nodes@.len() && old(host).nodes@[dom as int] is Element ==> final(host).ops@ == old(host).ops@ + listener_set_ops(
            dom,
            crate::vdom::ev_set_diff(new_events@, old_events@),
        ) + listener_remove_ops(dom, crate::vdom::ev_remove_diff(old_events@, new_events@)),
        !(dom < old(host).nodes@.len() && old(host).nodes@[dom as int] is Element) ==> final(host).ops@ == old(host).ops@,
        forall|j: int|
            0 <= j < old(host).nodes@.len() && j != dom ==> final(host).nodes@[j] == old(host).nodes@[j],
        !(dom < old(host).nodes@.len() && old(host).nodes@[dom as int] is Element) ==> final(host).nodes@
            == old(host).nodes@,
        dom < old(host).nodes@.len() ==> (old(host).nodes@[dom as int] matches HostNode::Element {
            tag,
            attributes,
            listeners,
            children,
        } ==> (final(host).nodes@[dom as int] matches HostNode::Element {
            tag: t2,
            attributes: a2,
            listeners: l2,
            children: c2,
        } && ({
            &&& t2 == tag
            &&& a2 == attributes
            &&& c2 == children
            &&& ((forall|q: EventType|
                crate::vdom::ev_lookup(listeners@, q) == crate::vdom::ev_lookup(old_events@, q))
                ==> (forall|q: EventType|
                crate::vdom::ev_lookup(l2@, q) == crate::vdom::ev_lookup(new_events@, q)))
        }))),
{
    proof {
        use_type_invariant(old_events);
        use_type_invariant(new_events);
    }
    if dom >= host.nodes.len() {
        return ;
    }
    let is_element = match &host.nodes[dom] {
        HostNode::Element { .. } => true,
        _ => false,
    };
    if !is_element {
        return ;
    }
    let ghost h0 = host.nodes@;
    let ghost ops0 = host.ops@;
    let ghost start_events: Seq<(EventType, u64)> = match h0[dom as int] {
        HostNode::Element { listeners, .. } => listeners@,
        _ => Seq::empty(),
    };
    proof {
        lemma_ev_set_diff_props(new_events@, old_events@);
        lemma_ev_remove_diff_props(old_events@, new_events@);
        assert(listener_set_ops(dom, Seq::<(EventType, u64)>::empty())
            =~= Seq::<HostOp>::empty());
        assert(ops0 + Seq::<HostOp>::empty() =~= ops0);
    }
    let to_set = new_events.to_set(old_events);
    let to_remove = new_events.to_remove(old_events);
    let n = to_set.len();
    let mut i: usize = 0;
    proof {
        assert(to_set@.take(0int) =~= Seq::<(EventType, u64)>::empty());
        assert(forall|q: EventType| !crate::vdom::ev_has_key(to_set@.take(0int), q));
    }
    #[verifier::loop_isolation(false)]
    while i < n
        invariant
            i <= n,
            n == to_set@.len(),
            host.nodes@.len() == h0.len(),
            forall|j: int| 0 <= j < h0.len() && j != dom ==> host.nodes@[j] == h0[j],
            host.ops@ == ops0 + listener_set_ops(dom, to_set@.take(i as int)),
            host.nodes@[dom as int] matches HostNode::Element { tag, attributes, listeners, children }
                && ({
                &&& h0[dom as int] matches HostNode::Element {
                    tag: t0,
                    attributes: a0,
                    children: c0,
                    ..
                } && tag == t0 && attributes == a0 && children == c0
                &&& forall|q: EventType|
                    crate::vdom::ev_lookup(listeners@, q) == (if crate::vdom::ev_has_key(
                        to_set@.take(i as int),
                        q,
                    ) {
                        crate::vdom::ev_lookup(new_events@, q)
                    } else {
                        crate::vdom::ev_lookup(start_events, q)
                    })
            }),
        decreases n - i,
    {
        let entry = to_set[i];
        let applied = host.add_listener(dom, entry.0, entry.1);
        proof {
            assert(applied);
            assert(crate::vdom::ev_lookup(new_events@, to_set@[i as int].0) == Some(
                to_set@[i as int].1,
            ));
            assert(to_set@.take(i + 1int).drop_last() =~= to_set@.take(i as int));
            assert(to_set@.take(i + 1int).last() == to_set@[i as int]);
            assert forall|q: EventType|
                crate::vdom::ev_has_key(to_set@.take(i + 1int), q) implies (crate::vdom::ev_has_key(
                to_set@.take(i as int),
                q,
            ) || q == to_set@[i as int].0) by {
                let x = crate::vdom::ev_key_index(to_set@.take(i + 1int), q);
                if x < i {
                    assert(to_set@.take(i as int)[x].0 == q);
                }
            }
            assert forall|q: EventType|
                crate::vdom::ev_has_key(to_set@.take(i as int), q) implies crate::vdom::ev_has_key(
                to_set@.take(i + 1int),
                q,
            ) by {
                let x = crate::vdom::ev_key_index(to_set@.take(i as int), q);
                assert(to_set@.take(i + 1int)[x].0 == q);
            }
            assert(crate::vdom::ev_has_key(to_set@.take(i + 1int), to_set@[i as int].0)) by {
                assert(to_set@.take(i + 1int)[i as int].0 == to_set@[i as int].0);
            }
            assert(listener_set_ops(dom, to_set@.take(i + 1int)) =~= listener_set_ops(
                dom,
                to_set@.take(i as int),
            ).push(
                HostOp::AddListener {
                    node: dom,
                    event: to_set@[i as int].0,
                    handler: to_set@[i as int].1,
                },
            ));
            assert(host.ops@ =~= ops0 + listener_set_ops(dom, to_set@.take(i + 1int)));
        }
        i = i + 1;
    }
    proof {
        assert(to_set@.take(n as int) =~= to_set@);
        assert(listener_remove_ops(dom, Seq::<EventType>::empty()) =~= Seq::<HostOp>::empty());
    }
    let ghost ops_mid = host.ops@;
    let ghost mid_events: Seq<(EventType, u64)> = match host.nodes@[dom as int] {
        HostNode::Element { listeners, .. } => listeners@,
        _ => Seq::empty(),
    };
    let m = to_remove.len();
    let mut r: usize = 0;
    #[verifier::loop_isolation(false)]
    while r < m
        invariant
            r <= m,
            m == to_remove@.len(),
            host.nodes@.len() == h0.len(),
            forall|j: int| 0 <= j < h0.len() && j != dom ==> host.nodes@[j] == h0[j],
            host.ops@ == ops_mid + listener_remove_ops(dom, to_remove@.take(r as int)),
            ops_mid == ops0 + listener_set_ops(dom, to_set@),
            host.nodes@[dom as int] matches HostNode::Element { tag, attributes, listeners, children }
                && ({
                &&& h0[dom as int] matches HostNode::Element {
                    tag: t0,
                    attributes: a0,
                    children: c0,
                    ..
                } && tag == t0 && attributes == a0 && children == c0
                &&& forall|q: EventType|
                    crate::vdom::ev_lookup(listeners@, q) == (if (exists|x: int|
                        0 <= x < r && #[trigger] to_remove@[x] == q) {
                        None::<u64>
                    } else {
                        crate::vdom::ev_lookup(mid_events, q)
                    })
            }),
        decreases m - r,
    {
        let name = to_remove[r];
        let applied = host.remove_listener(dom, name);
        proof {
            assert(applied);
            assert(to_remove@.take(r + 1int).drop_last() =~= to_remove@.take(r as int));
            assert(to_remove@.take(r + 1int).last() == to_remove@[r as int]);
            assert(listener_remove_ops(dom, to_remove@.take(r + 1int)) =~= listener_remove_ops(
                dom,
                to_remove@.take(r as int),
            ).push(HostOp::RemoveListener { node: dom, event: to_remove@[r as int] }));
            assert(host.ops@ =~= ops_mid + listener_remove_ops(dom, to_remove@.take(r + 1int)));
        }
        r = r + 1;
    }
    proof {
        assert(to_remove@.take(m as int) =~= to_remove@);
        assert(host.ops@ =~= ops0 + listener_set_ops(dom, to_set@) + listener_remove_ops(
            dom,
            to_remove@,
        ));
        let final_events: Seq<(EventType, u64)> = match host.nodes@[dom as int] {
            HostNode::Element { listeners, .. } => listeners@,
            _ => Seq::empty(),
        };
        if forall|q: EventType|
            crate::vdom::ev_lookup(start_events, q) == crate::vdom::ev_lookup(old_events@, q) {
            assert forall|q: EventType|
                crate::vdom::ev_lookup(final_events, q) == crate::vdom::ev_lookup(
                new_events@,
                q,
            ) by {
                let sd = crate::vdom::ev_set_diff(new_events@, old_events@);
                let rd = crate::vdom::ev_remove_diff(old_events@, new_events@);
                if crate::vdom::ev_has_key(new_events@, q) {
                    assert(!(exists|x: int| 0 <= x < m && #[trigger] to_remove@[x] == q)) by {
                        if exists|x: int| 0 <= x < m && #[trigger] to_remove@[x] == q {
                            let x = choose|x: int| 0 <= x < m && #[trigger] to_remove@[x] == q;
                            assert(!crate::vdom::ev_has_key(new_events@, rd[x]));
                        }
                    }
                    if crate::vdom::ev_has_key(sd, q) {
                        let y = crate::vdom::ev_key_index(sd, q);
                        crate::vdom::lemma_ev_lookup_at(sd, y);
                        assert(crate::vdom::ev_lookup(mid_events, q) == crate::vdom::ev_lookup(
                            new_events@,
                            q,
                        ));
                    } else {
                        assert(crate::vdom::ev_lookup(old_events@, q) == crate::vdom::ev_lookup(
                            new_events@,
                            q,
                        ));
                        assert(crate::vdom::ev_lookup(mid_events, q) == crate::vdom::ev_lookup(
                            start_events,
                            q,
                        ));
                    }
                } else {
                    assert(crate::vdom::ev_lookup(new_events@, q) == None::<u64>);
                    assert(!crate::vdom::ev_has_key(sd, q)) by {
                        if crate::vdom::ev_has_key(sd, q) {
                            let y = crate::vdom::ev_key_index(sd, q);
                            assert(crate::vdom::ev_lookup(new_events@, sd[y].0) == Some(sd[y].1));
                        }
                    }
                    assert(crate::vdom::ev_lookup(mid_events, q) == crate::vdom::ev_lookup(
                        start_events,
                        q,
                    ));
                    if crate::vdom::ev_has_key(old_events@, q) {
                        let x = choose|x: int| 0 <= x < rd.len() && #[trigger] rd[x] == q;
                        assert(exists|x: int| 0 <= x < m && #[trigger] to_remove@[x] == q);
                    } else {
                        assert(crate::vdom::ev_lookup(start_events, q) == None::<u64>);
                    }
                }
            }
        }
    }
}

/// Applies an element `Update` to the host: diffs the attributes and
/// listeners from what the fiber showed to what the new render asks for,
/// writing, replacing and removing exactly the differences — and
/// journaling exactly one entry per difference, in diff order, so an
/// embedding replays precisely these mutations; see [`apply_attr_update`]
/// and [`apply_event_update`] for the pointwise guarantees.
pub fn update_element_dom(
    host: &mut HostDoc,
    dom: usize,
    old_attrs: &AttrMap,
    old_events: &Events,
    new_attrs: &AttrMap,
    new_events: &Events,
)
    ensures
        final(host).nodes@.len() == old(host).nodes@.len(),
        forall|j: int|
            0 <= j < old(host).nodes@.len() && j != dom ==> final(host).nodes@[j] == old(host).nodes@[j],
        dom < old(host).nodes@.len() ==> (old(host).nodes@[dom as int] matches HostNode::Element {
            tag,
            attributes,
            listeners,
            children,
        } ==> (final(host).nodes@[dom as int] matches HostNode::Element {
            tag: t2,
            attributes: a2,
            listeners: l2,
            children: c2,
        } && ({
            &&& t2 == tag
            &&& c2 == children
            &&& ((forall|q: Seq<char>|
                crate::attrs::lookup(attributes@, q) == crate::attrs::lookup(old_attrs@, q))
                ==> (forall|q: Seq<char>|
                crate::attrs::lookup(a2@, q) == crate::attrs::lookup(new_attrs@, q)))
            &&& ((forall|q: EventType|
                crate::vdom::ev_lookup(listeners@, q) == crate::vdom::ev_lookup(old_events@, q))
                ==> (forall|q: EventType|
                crate::vdom::ev_lookup(l2@, q) == crate::vdom::ev_lookup(new_events@, q)))
        }))),
        dom < old(host).nodes@.len() && old(host).nodes@[dom as int] is Element ==> final(host).ops@ == old(host).ops@ + attr_set_ops(
            dom,
            crate::attrs::set_diff(new_attrs@, old_attrs@),
        ) + attr_remove_ops(dom, crate::attrs::remove_diff(old_attrs@, new_attrs@))
            + listener_set_ops(dom, crate::vdom::ev_set_diff(new_events@, old_events@))
            + listener_remove_ops(dom, crate::vdom::ev_remove_diff(old_events@, new_events@)),
        !(dom < old(host).nodes@.len() && old(host).nodes@[dom as int] is Element) ==> final(host).ops@ == old(host).ops@,
{
    let ghost h0 = *host;
    apply_attr_update(host, dom, old_attrs, new_attrs);
    let ghost h1 = *host;
    apply_event_update(host, dom, old_events, new_events);
    proof {
        if dom < h0.nodes@.len() && h0.nodes@[dom as int] is Element {
            assert(h1.nodes@[dom as int] is Element);
            assert(host.ops@ =~= h0.ops@ + attr_set_ops(
                dom,
                crate::attrs::set_diff(new_attrs@, old_attrs@),
            ) + attr_remove_ops(dom, crate::attrs::remove_diff(old_attrs@, new_attrs@))
                + listener_set_ops(dom, crate::vdom::ev_set_diff(new_events@, old_events@))
                + listener_remove_ops(
                dom,
                crate::vdom::ev_remove_diff(old_events@, new_events@),
            ));
        }
    }
}

} // verus!

verus! {

/// The kind of effect one commit step applied.
#[derive(Debug, Clone, Copy, PartialEq, Eq, Structural)]
pub enum CommittedKind {
    Placement,
    Update,
    Deletion,
}

/// The kind a pending effect tag commits as.
pub open spec fn kind_of<C>(t: EffectTag<C>) -> CommittedKind {
    match t {
        EffectTag::Placement => CommittedKind::Placement,
        EffectTag::Update(_) => CommittedKind::Update,
        EffectTag::Deletion => CommittedKind::Deletion,
    }
}

/// The host handle a fiber payload carries, if any.
pub open spec fn dom_of<C>(n: Node<C>) -> Option<usize> {
    match n {
        Node::Element(e) => e.dom,
        Node::Text(t) => t.dom,
        Node::Component(_) => None,
    }
}

/// What committing the fiber `id` decides in arena `nodes`: the tag's
/// kind when `id` is in range, carries a tag, and has an element ancestor
/// to parent the host mutation; nothing otherwise.
pub open spec fn commit_decision<C>(nodes: Seq<FiberNode<C>>, id: FiberId) -> Option<
    CommittedKind,
> {
    if id < nodes.len() && elem_ancestor(nodes, nodes[id as int].parent, nodes.len() as nat)
        is Some {
        match nodes[id as int].effect_tag {
            Some(t) => Some(kind_of(t)),
            None => None,
        }
    } else {
        None
    }
}

/// The host handle of the fiber's host-mutation parent: its nearest
/// element ancestor's handle, if that ancestor exists and has one.
pub open spec fn parent_dom_of<C>(nodes: Seq<FiberNode<C>>, id: FiberId) -> Option<usize> {
    match elem_ancestor(nodes, nodes[id as int].parent, nodes.len() as nat) {
        Some(p) => dom_of(nodes[p as int].node),
        None => None,
    }
}

/// The host node `id`'s deletion must detach: the fiber's own handle, or —
/// for a component fiber — its nearest host-bearing descendant's.
pub open spec fn deletion_target<C>(nodes: Seq<FiberNode<C>>, id: FiberId) -> Option<usize> {
    match nodes[id as int].node {
        Node::Component(_) => {
            match dom_descendant(nodes, nodes[id as int].child, nodes.len() as nat) {
                Some(d) => dom_of(nodes[d as int].node),
                None => None,
            }
        },
        _ => dom_of(nodes[id as int].node),
    }
}

/// The arena with `id`'s pending tag taken.
pub open spec fn tag_taken<C>(nodes: Seq<FiberNode<C>>, id: FiberId) -> Seq<FiberNode<C>> {
    nodes.update(id as int, FiberNode { effect_tag: None, ..nodes[id as int] })
}

/// Whether the host document is untouched between two states.
pub open spec fn host_unchanged(pre: HostDoc, post: HostDoc) -> bool {
    post.nodes@ == pre.nodes@ && post.ops@ == pre.ops@
}

/// Whether `post` is `pre` with `child` appended to element `pd`'s child
/// list and the append journaled — what a placement does to the host.
pub open spec fn host_appended(pre: HostDoc, post: HostDoc, pd: usize, child: usize) -> bool {
    &&& post.nodes@.len() == pre.nodes@.len()
    &&& forall|j: int|
        0 <= j < pre.nodes@.len() && j != pd ==> post.nodes@[j] == pre.nodes@[j]
    &&& (pre.nodes@[pd as int] matches HostNode::Element { tag, attributes, listeners, children }
        ==> post.nodes@[pd as int] matches HostNode::Element {
        tag: t2,
        attributes: a2,
        listeners: l2,
        children: c2,
    } && t2 == tag && a2 == attributes && l2 == listeners && c2@ == children@.push(child))
    &&& post.ops@ == pre.ops@.push(HostOp::AppendChild { parent: pd, child })
}

/// Whether `post` is `pre` with `child` detached from element `pd`'s
/// child list — owed exactly when `pd` is an element that lists `child`;
/// otherwise the host is untouched.
pub open spec fn host_detached(pre: HostDoc, post: HostDoc, pd: usize, child: usize) -> bool {
    if pd < pre.nodes@.len() {
        match pre.nodes@[pd as int] {
            HostNode::Element { tag, attributes, listeners, children } => {
                if children@.contains(child) {
                    &&& post.nodes@.len() == pre.nodes@.len()
                    &&& (forall|j: int|
                        0 <= j < pre.nodes@.len() && j != pd ==> post.nodes@[j] == pre.nodes@[j])
                    &&& (exists|k: int|
                        {
                            &&& 0 <= k < children@.len()
                            &&& children@[k] == child
                            &&& (forall|j: int| 0 <= j < k ==> children@[j] != child)
                            &&& post.nodes@[pd as int] matches HostNode::Element {
                                tag: t2,
                                attributes: a2,
                                listeners: l2,
                                children: c2,
                            } && t2 == tag && a2 == attributes && l2 == listeners && c2@
                                == children@.remove(k)
                        })
                    &&& post.ops@ == pre.ops@.push(HostOp::RemoveChild { parent: pd, child })
                } else {
                    host_unchanged(pre, post)
                }
            },
            _ => host_unchanged(pre, post),
        }
    } else {
        host_unchanged(pre, post)
    }
}

/// Whether `post` is `pre` with text node `d` rewritten to `text` and the
/// write journaled.
pub open spec fn host_text_set(pre: HostDoc, post: HostDoc, d: usize, text: Seq<char>) -> bool {
    &&& post.nodes@.len() == pre.nodes@.len()
    &&& forall|j: int| 0 <= j < pre.nodes@.len() && j != d ==> post.nodes@[j] == pre.nodes@[j]
    &&& (post.nodes@[d as int] matches HostNode::Text { text: t } && t@ == text)
}

/// The journal entries that writing `entries` onto element `d` appends,
/// in order.
pub open spec fn attr_set_ops(d: usize, entries: Seq<(String, String)>) -> Seq<HostOp>
    decreases entries.len(),
{
    if entries.len() == 0 {
        Seq::empty()
    } else {
        attr_set_ops(d, entries.drop_last()).push(
            HostOp::SetAttribute {
                node: d,
                name: entries.last().0,
                value: entries.last().1,
            },
        )
    }
}

/// The journal entries that removing `names` from element `d` appends, in
/// order.
pub open spec fn attr_remove_ops(d: usize, names: Seq<String>) -> Seq<HostOp>
    decreases names.len(),
{
    if names.len() == 0 {
        Seq::empty()
    } else {
        attr_remove_ops(d, names.drop_last()).push(
            HostOp::RemoveAttribute { node: d, name: names.last() },
        )
    }
}

/// The journal entries that attaching `entries` to element `d` appends,
/// in order.
pub open spec fn listener_set_ops(d: usize, entries: Seq<(EventType, u64)>) -> Seq<HostOp>
    decreases entries.len(),
{
    if entries.len() == 0 {
        Seq::empty()
    } else {
        listener_set_ops(d, entries.drop_last()).push(
            HostOp::AddListener {
                node: d,
                event: entries.last().0,
                handler: entries.last().1,
            },
        )
    }
}

/// The journal entries that detaching `events` from element `d` appends,
/// in order.
pub open spec fn listener_remove_ops(d: usize, events: Seq<EventType>) -> Seq<HostOp>
    decreases events.len(),
{
    if events.len() == 0 {
        Seq::empty()
    } else {
        listener_remove_ops(d, events.drop_last()).push(
            HostOp::RemoveListener { node: d, event: events.last() },
        )
    }
}

/// Whether `post` is `pre` with element `d`'s attribute and listener
/// tables rewritten: if the element showed exactly the bindings of
/// `old_a`/`old_e` beforehand, it shows exactly those of `new_a`/`new_e`
/// afterwards; its tag and children are untouched, as is every other node.
pub open spec fn host_element_rewritten(
    pre: HostDoc,
    post: HostDoc,
    d: usize,
    old_a: AttrMap,
    old_e: Events,
    new_a: AttrMap,
    new_e: Events,
) -> bool {
    &&& post.nodes@.len() == pre.nodes@.len()
    &&& forall|j: int| 0 <= j < pre.nodes@.len() && j != d ==> post.nodes@[j] == pre.nodes@[j]
    &&& (d < pre.nodes@.len() ==> (pre.nodes@[d as int] matches HostNode::Element {
        tag,
        attributes,
        listeners,
        children,
    } ==> (post.nodes@[d as int] matches HostNode::Element {
        tag: t2,
        attributes: a2,
        listeners: l2,
        children: c2,
    } && ({
        &&& t2 == tag
        &&& c2 == children
        &&& ((forall|q: Seq<char>|
            crate::attrs::lookup(attributes@, q) == crate::attrs::lookup(old_a@, q)) ==> (forall|
            q: Seq<char>,
        |
            crate::attrs::lookup(a2@, q) == crate::attrs::lookup(new_a@, q)))
        &&& ((forall|q: EventType|
            crate::vdom::ev_lookup(listeners@, q) == crate::vdom::ev_lookup(old_e@, q)) ==> (
        forall|q: EventType|
            crate::vdom::ev_lookup(l2@, q) == crate::vdom::ev_lookup(new_e@, q)))
    }))))
    &&& (d < pre.nodes@.len() && pre.nodes@[d as int] is Element ==> post.ops@ == pre.ops@
        + attr_set_ops(d, crate::attrs::set_diff(new_a@, old_a@)) + attr_remove_ops(
        d,
        crate::attrs::remove_diff(old_a@, new_a@),
    ) + listener_set_ops(d, crate::vdom::ev_set_diff(new_e@, old_e@)) + listener_remove_ops(
        d,
        crate::vdom::ev_remove_diff(old_e@, new_e@),
    ))
    &&& (!(d < pre.nodes@.len() && pre.nodes@[d as int] is Element) ==> post.ops@ == pre.ops@)
}

/// What one commit step does to fiber `id` and the host, by the kind of
/// the taken tag. `pre`/`post` are the arena before and after; `hpre`/
/// `hpost` the host document.
pub open spec fn commit_effect<C: AnyComponent>(
    pre: Seq<FiberNode<C>>,
    post: Seq<FiberNode<C>>,
    hpre: HostDoc,
    hpost: HostDoc,
    id: FiberId,
) -> bool {
    match pre[id as int].effect_tag {
        None => post == tag_taken(pre, id) && host_unchanged(hpre, hpost),
        Some(EffectTag::Placement) => {
            &&& post == tag_taken(pre, id)
            &&& (match (dom_of(pre[id as int].node), parent_dom_of(pre, id)) {
                (Some(d), Some(pd)) => {
                    if pd < hpre.nodes@.len() && hpre.nodes@[pd as int] is Element && d
                        < hpre.nodes@.len() {
                        host_appended(hpre, hpost, pd, d)
                    } else {
                        host_unchanged(hpre, hpost)
                    }
                },
                _ => host_unchanged(hpre, hpost),
            })
        },
        Some(EffectTag::Update(UpdateData::Element { attributes, events })) => {
            &&& (pre[id as int].node matches Node::Element(e) ==> ({
                &&& post == tag_taken(pre, id).update(
                    id as int,
                    FiberNode {
                        effect_tag: None,
                        node: Node::Element(
                            Element { attributes, events, ..e },
                        ),
                        ..pre[id as int]
                    },
                )
                &&& (match e.dom {
                    Some(d) => host_element_rewritten(
                        hpre,
                        hpost,
                        d,
                        e.attributes,
                        e.events,
                        attributes,
                        events,
                    ),
                    None => host_unchanged(hpre, hpost),
                })
            }))
            &&& (!(pre[id as int].node is Element) ==> post == tag_taken(pre, id)
                && host_unchanged(hpre, hpost))
        },
        Some(EffectTag::Update(UpdateData::Text(s))) => {
            &&& (pre[id as int].node matches Node::Text(t) ==> ({
                &&& post == tag_taken(pre, id).update(
                    id as int,
                    FiberNode {
                        effect_tag: None,
                        node: Node::Text(Text { text: s, ..t }),
                        ..pre[id as int]
                    },
                )
                &&& (match t.dom {
                    Some(d) => {
                        if d < hpre.nodes@.len() && hpre.nodes@[d as int] is Text {
                            host_text_set(hpre, hpost, d, s@) && hpost.ops@
                                == hpre.ops@.push(HostOp::SetText { node: d, text: s })
                        } else {
                            host_unchanged(hpre, hpost)
                        }
                    },
                    None => host_unchanged(hpre, hpost),
                })
            }))
            &&& (!(pre[id as int].node is Text) ==> post == tag_taken(pre, id) && host_unchanged(
                hpre,
                hpost,
            ))
        },
        Some(EffectTag::Update(UpdateData::Component(c2))) => {
            &&& host_unchanged(hpre, hpost)
            &&& (pre[id as int].node matches Node::Component(comp) ==> post == tag_taken(
                pre,
                id,
            ).update(
                id as int,
                FiberNode {
                    effect_tag: None,
                    node: Node::Component(Component { function: c2, ..comp }),
                    ..pre[id as int]
                },
            ))
            &&& (!(pre[id as int].node is Component) ==> post == tag_taken(pre, id))
        },
        Some(EffectTag::Deletion) => {
            &&& crate::fiber::removed_rewrite(tag_taken(pre, id), post, id)
            &&& (match (deletion_target(pre, id), parent_dom_of(pre, id)) {
                (Some(d), Some(pd)) => host_detached(hpre, hpost, pd, d),
                _ => host_unchanged(hpre, hpost),
            })
        },
    }
}

/// Everything one commit step guarantees, over the arenas and host
/// documents before and after, the fiber committed and the reported
/// result: the result is exactly [`commit_decision`]; nothing changes on
/// `None`; on `Some` the effect of the taken tag is applied per
/// [`commit_effect`], the fiber ends tagless, tags elsewhere are
/// untouched, states only move towards `Removed`, and the free pointer
/// moves only for a deletion, which registers the freed slot.
pub open spec fn commit_one_post<C: AnyComponent>(
    pre_t: FiberTree<C>,
    post_t: FiberTree<C>,
    hpre: HostDoc,
    hpost: HostDoc,
    id: FiberId,
    r: Option<CommittedKind>,
) -> bool {
    &&& post_t.free_ok()
    &&& post_t.nodes@.len() == pre_t.nodes@.len()
    &&& r == commit_decision(pre_t.nodes@, id)
    &&& (r is None ==> post_t == pre_t && host_unchanged(hpre, hpost))
    &&& (r is Some ==> commit_effect(pre_t.nodes@, post_t.nodes@, hpre, hpost, id))
    &&& (r is Some ==> post_t.nodes@[id as int].effect_tag is None)
    &&& (forall|j: int|
        0 <= j < pre_t.nodes@.len() && j != id ==> (#[trigger] post_t.nodes@[j]).effect_tag
            == pre_t.nodes@[j].effect_tag)
    &&& (forall|j: int|
        0 <= j < pre_t.nodes@.len() ==> ((#[trigger] post_t.nodes@[j]).state
            == pre_t.nodes@[j].state || post_t.nodes@[j].state is Removed))
    &&& (r == Some(CommittedKind::Deletion) ==> post_t.first_free_node == (match pre_t
        .first_free_node {
        Some(f) => Some(f),
        None => Some(id),
    }))
    &&& (r != Some(CommittedKind::Deletion) ==> post_t.first_free_node == pre_t.first_free_node)
}

/// Commits the single fiber `id`: finds its nearest element ancestor (the
/// host mutation parent), takes the pending effect tag, and applies it —
/// `Placement` appends the fiber's host node to the parent's; an element
/// `Update` rewrites attributes and listeners per [`update_element_dom`]
/// and stores the new data in the fiber; a text `Update` rewrites the text;
/// a component `Update` swaps the stored instance; `Deletion` detaches the
/// nearest host-bearing node from the parent and tombstones the subtree.
/// Without a locatable element ancestor the tag is left pending — the
/// structural fault surfaces as a `None` result with the tag still set.
#[verifier::rlimit(100)]
#[verifier::spinoff_prover]
pub fn commit_one<C: AnyComponent>(tree: &mut FiberTree<C>, host: &mut HostDoc, id: FiberId) -> (r:
    Option<CommittedKind>)
    requires
        old(tree).free_ok(),
    ensures
        commit_one_post(*old(tree), *final(tree), *old(host), *final(host), id, r),
{
    let ghost pre = old(tree).nodes@;
    let n = tree.nodes.len();
    if id >= n {
        return None;
    }
    let parent = find_first_element_parent(tree, id);
    let parent_dom: Option<usize> = match parent {
        Some(p) => match &tree.nodes[p].node {
            Node::Element(e) => e.dom,
            _ => None,
        },
        None => {
            return None;
        },
    };
    proof {
        assert(parent_dom == parent_dom_of(pre, id));
    }
    let has_tag = tree.nodes[id].effect_tag.is_some();
    if !has_tag {
        return None;
    }
    let is_deletion = match &tree.nodes[id].effect_tag {
        Some(EffectTag::Deletion) => true,
        _ => false,
    };
    let deletion_tgt: Option<usize> = if is_deletion {
        match &tree.nodes[id].node {
            Node::Element(e) => e.dom,
            Node::Text(t) => t.dom,
            Node::Component(_) => {
                match find_first_dom_child(tree, id) {
                    Some(child_id) => match &tree.nodes[child_id].node {
                        Node::Element(e) => e.dom,
                        Node::Text(t) => t.dom,
                        _ => None,
                    },
                    None => None,
                }
            },
        }
    } else {
        None
    };
    proof {
        if is_deletion {
            assert(deletion_tgt == deletion_target(pre, id));
        }
    }
    let mut tag: Option<EffectTag<C>> = None;
    proof {
        assert(tree.nodes@[id as int].effect_tag == pre[id as int].effect_tag);
        assert(pre[id as int].effect_tag is Some);
    }
    {
        let f = &mut tree.nodes[id];
        core::mem::swap(&mut tag, &mut f.effect_tag);
    }
    proof {
        assert(tree.nodes@ =~= tag_taken(pre, id));
        assert(tag == pre[id as int].effect_tag);
    }
    match tag {
        None => {
            proof {
                assert(false);
            }
            None
        },
        Some(EffectTag::Placement) => {
            let own_dom: Option<usize> = match &tree.nodes[id].node {
                Node::Element(e) => e.dom,
                Node::Text(t) => t.dom,
                Node::Component(_) => None,
            };
            proof {
                assert(own_dom == dom_of(pre[id as int].node));
            }
            if let (Some(d), Some(pd)) = (own_dom, parent_dom) {
                host.append_child(pd, d);
            }
            proof {
                assert(commit_effect(pre, tree.nodes@, *old(host), *host, id));
            }
            Some(CommittedKind::Placement)
        },
        Some(EffectTag::Update(UpdateData::Element { attributes, events })) => {
            let own_dom: Option<usize> = match &tree.nodes[id].node {
                Node::Element(e) => e.dom,
                _ => None,
            };
            if let Some(d) = own_dom {
                match &tree.nodes[id].node {
                    Node::Element(e) => {
                        update_element_dom(host, d, &e.attributes, &e.events, &attributes, &events);
                    },
                    _ => {},
                }
            }
            if let Node::Element(e) = &mut tree.nodes[id].node {
                e.attributes = attributes;
                e.events = events;
            }
            proof {
                let post = tree.nodes@;
                match pre[id as int].node {
                    Node::Element(e) => {
                        assert(post =~= tag_taken(pre, id).update(
                            id as int,
                            FiberNode {
                                effect_tag: None,
                                node: Node::Element(Element { attributes, events, ..e }),
                                ..pre[id as int]
                            },
                        ));
                    },
                    _ => {
                        assert(post =~= tag_taken(pre, id));
                    },
                }
                assert(commit_effect(pre, post, *old(host), *host, id));
            }
            Some(CommittedKind::Update)
        },
        Some(EffectTag::Update(UpdateData::Text(new_text))) => {
            let own_dom: Option<usize> = match &tree.nodes[id].node {
                Node::Text(t) => t.dom,
                _ => None,
            };
            if let Some(d) = own_dom {
                let logged = new_text.clone();
                host.set_text(d, logged);
            }
            if let Node::Text(t) = &mut tree.nodes[id].node {
                t.text = new_text;
            }
            proof {
                let post = tree.nodes@;
                match pre[id as int].node {
                    Node::Text(t) => {
                        assert(post =~= tag_taken(pre, id).update(
                            id as int,
                            FiberNode {
                                effect_tag: None,
                                node: Node::Text(Text { text: new_text, ..t }),
                                ..pre[id as int]
                            },
                        ));
                    },
                    _ => {
                        assert(post =~= tag_taken(pre, id));
                    },
                }
                assert(commit_effect(pre, post, *old(host), *host, id));
            }
            Some(CommittedKind::Update)
        },
        Some(EffectTag::Update(UpdateData::Component(new_instance))) => {
            if let Node::Component(comp) = &mut tree.nodes[id].node {
                comp.function = new_instance;
            }
            proof {
                let post = tree.nodes@;
                match pre[id as int].node {
                    Node::Component(comp) => {
                        assert(post =~= tag_taken(pre, id).update(
                            id as int,
                            FiberNode {
                                effect_tag: None,
                                node: Node::Component(
                                    Component { function: new_instance, ..comp },
                                ),
                                ..pre[id as int]
                            },
                        ));
                    },
                    _ => {
                        assert(post =~= tag_taken(pre, id));
                    },
                }
                assert(commit_effect(pre, post, *old(host), *host, id));
            }
            Some(CommittedKind::Update)
        },
        Some(EffectTag::Deletion) => {
            if let (Some(d), Some(pd)) = (deletion_tgt, parent_dom) {
                host.remove_child(pd, d);
            }
            tree.remove(id);
            proof {
                assert(commit_effect(pre, tree.nodes@, *old(host), *host, id)) by {
                    reveal(crate::fiber::removed_rewrite);
                }
                assert(tree.nodes@[id as int].effect_tag is None) by {
                    reveal(crate::fiber::removed_rewrite);
                }
                assert(forall|j: int|
                    0 <= j < pre.len() && j != id ==> (#[trigger] tree.nodes@[j]).effect_tag
                        == pre[j].effect_tag) by {
                    reveal(crate::fiber::removed_rewrite);
                }
                assert(forall|j: int|
                    0 <= j < pre.len() ==> ((#[trigger] tree.nodes@[j]).state == pre[j].state
                        || tree.nodes@[j].state is Removed)) by {
                    reveal(crate::fiber::removed_rewrite);
                }
            }
            Some(CommittedKind::Deletion)
        },
    }
}

/// One entry of a commit pass's log: the fiber popped and what, if
/// anything, was applied for it.
pub type CommitLogEntry = (FiberId, Option<CommittedKind>);

/// How many entries of `log` applied an effect of kind `k`.
pub open spec fn count_kind(log: Seq<CommitLogEntry>, k: CommittedKind) -> int
    decreases log.len(),
{
    if log.len() == 0 {
        0
    } else {
        count_kind(log.drop_last(), k) + (if log.last().1 == Some(k) {
            1int
        } else {
            0int
        })
    }
}

/// How many effects of each kind one commit pass applied.
#[derive(Debug, Clone, Copy, PartialEq, Eq, Structural)]
pub struct CommitStats {
    pub placements: usize,
    pub updates: usize,
    pub deletions: usize,
}

/// The stack after popping and committing `id`: the rest of the stack
/// with `id`'s sibling, then its first child, pushed — both read from the
/// arena as the commit step left it, so the child is processed next and
/// the sibling after the whole child subtree: depth-first pre-order.
pub open spec fn commit_stack_step<C: AnyComponent>(
    post_t: FiberTree<C>,
    rest: Seq<FiberId>,
    id: FiberId,
) -> Seq<FiberId> {
    let with_sibling = if id < post_t.nodes@.len() {
        match post_t.nodes@[id as int].sibling {
            Some(sib) => rest.push(sib),
            None => rest,
        }
    } else {
        rest
    };
    if id < post_t.nodes@.len() {
        match post_t.nodes@[id as int].child {
            Some(child) => with_sibling.push(child),
            None => with_sibling,
        }
    } else {
        with_sibling
    }
}

/// Everything a commit pass guarantees: the stats count exactly the
/// applied kinds of the log; tags are only ever taken; every logged
/// applied fiber ends tagless; and — the heart — there is a chain of
/// intermediate arena/host states and work stacks, one per pop, that
/// starts at the initial state with `start` alone on the stack, ends at
/// the final state, commits each popped fiber exactly as
/// [`commit_one_post`] states, and advances the stack by
/// [`commit_stack_step`]; the pass ends only when the stack is empty
/// (or its step budget, one short of `usize::MAX` pops, is spent). Every
/// log entry is therefore a real pop with its real decision, in
/// depth-first pre-order: a parent is committed before its children,
/// siblings in chain order.
pub open spec fn commit_post<C: AnyComponent>(
    pre_t: FiberTree<C>,
    post_t: FiberTree<C>,
    hpre: HostDoc,
    hpost: HostDoc,
    start: Option<FiberId>,
    stats: CommitStats,
    log: Seq<CommitLogEntry>,
) -> bool {
    &&& post_t.free_ok()
    &&& post_t.nodes@.len() == pre_t.nodes@.len()
    &&& stats.placements == count_kind(log, CommittedKind::Placement)
    &&& stats.updates == count_kind(log, CommittedKind::Update)
    &&& stats.deletions == count_kind(log, CommittedKind::Deletion)
    &&& (forall|j: int|
        0 <= j < pre_t.nodes@.len() ==> ((#[trigger] post_t.nodes@[j]).effect_tag is Some
            ==> pre_t.nodes@[j].effect_tag == post_t.nodes@[j].effect_tag))
    &&& (forall|k: int|
        0 <= k < log.len() && (#[trigger] log[k]).1 is Some ==> post_t.nodes@[log[k].0 as int].effect_tag is None)
    &&& (match start {
        Some(s) => {
            &&& log.len() >= 1
            &&& log[0].0 == s
            &&& log[0].1 == commit_decision(pre_t.nodes@, s)
            &&& exists|trace: Seq<(FiberTree<C>, HostDoc)>, stacks: Seq<Seq<FiberId>>|
                {
                    &&& trace.len() == log.len() + 1
                    &&& stacks.len() == log.len() + 1
                    &&& trace[0] == (pre_t, hpre)
                    &&& trace.last() == (post_t, hpost)
                    &&& stacks[0] =~= seq![s]
                    &&& (stacks.last().len() == 0 || log.len() == usize::MAX)
                    &&& (forall|i: int|
                        0 <= i < log.len() ==> {
                            &&& (#[trigger] stacks[i]).len() > 0
                            &&& log[i].0 == stacks[i].last()
                            &&& commit_one_post(
                                trace[i].0,
                                trace[i + 1].0,
                                trace[i].1,
                                trace[i + 1].1,
                                log[i].0,
                                log[i].1,
                            )
                            &&& stacks[i + 1] == commit_stack_step(
                                trace[i + 1].0,
                                stacks[i].drop_last(),
                                log[i].0,
                            )
                        })
                }
        },
        None => log.len() == 0 && post_t == pre_t && host_unchanged(hpre, hpost),
    })
}

/// Commits the whole work-in-progress subtree hanging from `start`: fibers
/// are popped in depth-first pre-order — a parent's effect is applied
/// before its children's, siblings in their chain order — and each popped
/// fiber is committed exactly as [`commit_one`] states. The log records
/// every pop in order; the stats count exactly the applied kinds. Tags are
/// only ever taken, never attached, so a fiber whose pop applied an effect
/// ends the pass with no tag; in particular `start`'s own pending tag,
/// when it has an element ancestor, is applied and cleared. The pass is
/// not time-sliced.
#[verifier::rlimit(100)]
#[verifier::spinoff_prover]
pub fn commit<C: AnyComponent>(tree: &mut FiberTree<C>, host: &mut HostDoc, start: Option<
    FiberId,
>) -> (r: (CommitStats, Vec<CommitLogEntry>))
    requires
        old(tree).free_ok(),
    ensures
        commit_post(*old(tree), *final(tree), *old(host), *final(host), start, r.0, r.1@),
{
    let mut stats = CommitStats { placements: 0, updates: 0, deletions: 0 };
    let mut log: Vec<CommitLogEntry> = Vec::new();
    let mut stack: Vec<FiberId> = Vec::new();
    if let Some(s) = start {
        stack.push(s);
    } else {
        return (stats, log);
    }
    let mut fuel: usize = usize::MAX;
    let ghost pre = old(tree).nodes@;
    let ghost mut trace: Seq<(FiberTree<C>, HostDoc)> = seq![(*old(tree), *old(host))];
    let ghost mut stacks: Seq<Seq<FiberId>> = seq![stack@];
    #[verifier::loop_isolation(false)]
    while stack.len() > 0 && fuel > 0
        invariant
            tree.free_ok(),
            tree.nodes@.len() == pre.len(),
            stats.placements == count_kind(log@, CommittedKind::Placement),
            stats.updates == count_kind(log@, CommittedKind::Update),
            stats.deletions == count_kind(log@, CommittedKind::Deletion),
            stats.placements + stats.updates + stats.deletions + fuel <= usize::MAX,
            fuel == usize::MAX - log@.len(),
            forall|j: int|
                0 <= j < pre.len() ==> ((#[trigger] tree.nodes@[j]).effect_tag is Some ==> pre[j].effect_tag == tree.nodes@[j].effect_tag),
            forall|k: int|
                0 <= k < log@.len() && (#[trigger] log@[k]).1 is Some ==> tree.nodes@[log@[k].0 as int].effect_tag is None && log@[k].0 < pre.len(),
            log@.len() >= 1 ==> (log@[0].0 == start.unwrap() && log@[0].1 == commit_decision(
                pre,
                start.unwrap(),
            )),
            log@.len() == 0 ==> (stack@.len() == 1 && stack@[0] == start.unwrap() && *tree == *old(
                tree,
            ) && fuel == usize::MAX),
            trace.len() == log@.len() + 1,
            stacks.len() == log@.len() + 1,
            trace[0] == (*old(tree), *old(host)),
            trace.last() == (*tree, *host),
            stacks[0] =~= seq![start.unwrap()],
            stacks.last() == stack@,
            forall|i: int|
                0 <= i < log@.len() ==> {
                    &&& (#[trigger] stacks[i]).len() > 0
                    &&& log@[i].0 == stacks[i].last()
                    &&& commit_one_post(
                        trace[i].0,
                        trace[i + 1].0,
                        trace[i].1,
                        trace[i + 1].1,
                        log@[i].0,
                        log@[i].1,
                    )
                    &&& stacks[i + 1] == commit_stack_step(
                        trace[i + 1].0,
                        stacks[i].drop_last(),
                        log@[i].0,
                    )
                },
        decreases fuel,
    {
        fuel = fuel - 1;
        let id = stack.pop().unwrap();
        let ghost tree_before = *tree;
        let ghost rest = stack@;
        let ghost log0 = log@;
        let applied = commit_one(tree, host, id);
        log.push((id, applied));
        match applied {
            Some(CommittedKind::Placement) => {
                stats.placements = stats.placements + 1;
            },
            Some(CommittedKind::Update) => {
                stats.updates = stats.updates + 1;
            },
            Some(CommittedKind::Deletion) => {
                stats.deletions = stats.deletions + 1;
            },
            None => {},
        }
        if id < tree.nodes.len() {
            if let Some(sib) = tree.nodes[id].sibling {
                stack.push(sib);
            }
            if let Some(child) = tree.nodes[id].child {
                stack.push(child);
            }
        }
        proof {
            let ghost trace0 = trace;
            let ghost stacks0 = stacks;
            trace = trace.push((*tree, *host));
            stacks = stacks.push(stack@);
            assert(log@.drop_last() =~= log0);
            assert(log@.last() == (id, applied));
            if log0.len() >= 1 {
                assert(log@[0] == log0[0]);
            } else {
                assert(log@[0] == (id, applied));
                assert(id == start.unwrap());
                assert(tree_before == *old(tree));
                assert(log@[0].1 == commit_decision(pre, start.unwrap()));
            }
            assert forall|k: int|
                0 <= k < log@.len() && (#[trigger] log@[k]).1 is Some implies tree.nodes@[log@[k].0 as int].effect_tag is None && log@[k].0 < pre.len() by {
                if k < log@.len() - 1 {
                    assert(log@[k] == log0[k]);
                    if log@[k].0 != id {
                        assert(tree.nodes@[log@[k].0 as int].effect_tag == tree_before.nodes@[log@[k].0 as int].effect_tag);
                    } else {
                        match commit_decision(tree_before.nodes@, id) {
                            Some(_) => {},
                            None => {
                                assert(*tree == tree_before);
                            },
                        }
                    }
                }
            }
            assert(stack@ == commit_stack_step(*tree, rest, id));
            assert(trace.last() == (*tree, *host));
            assert(stacks.last() == stack@);
            assert forall|i: int|
                0 <= i < log@.len() implies {
                &&& (#[trigger] stacks[i]).len() > 0
                &&& log@[i].0 == stacks[i].last()
                &&& commit_one_post(
                    trace[i].0,
                    trace[i + 1].0,
                    trace[i].1,
                    trace[i + 1].1,
                    log@[i].0,
                    log@[i].1,
                )
                &&& stacks[i + 1] == commit_stack_step(
                    trace[i + 1].0,
                    stacks[i].drop_last(),
                    log@[i].0,
                )
            } by {
                if i < log@.len() - 1 {
                    assert(log@[i] == log0[i]);
                    assert(trace[i] == trace0[i] && trace[i + 1] == trace0[i + 1]);
                    assert(stacks[i] == stacks0[i] && stacks[i + 1] == stacks0[i + 1]);
                } else {
                    assert(stacks[i] == stacks0.last());
                    assert(stacks[i].last() == id);
                    assert(stacks[i].drop_last() =~= rest);
                    assert(trace[i] == (tree_before, trace0.last().1));
                    assert(trace[i + 1] == (*tree, *host));
                    assert(stacks[i + 1] == stack@);
                }
            }
        }
    }
    proof {
        assert(stacks.last() == stack@);
        if stack@.len() > 0 {
            assert(fuel == 0);
            assert(log@.len() == usize::MAX);
        }
    }
    (stats, log)
}

/// What expanding a component fiber guarantees: the instance and the
/// fiber's links, state and pending tag survive untouched on the fiber
/// itself, and for some virtual node the render produced, the fiber's
/// children were reconciled against it per [`reconcile_post`], from an
/// intermediate arena that differs from `pre` only in `id`'s hook context.
pub open spec fn component_unit_ok<C: AnyComponent>(
    pre: Seq<FiberNode<C>>,
    post: Seq<FiberNode<C>>,
    id: FiberId,
) -> bool {
    pre[id as int].node matches Node::Component(comp) ==> (post[id as int].node matches
        Node::Component(c2) && ({
        &&& c2.function == comp.function
        &&& post[id as int].state == pre[id as int].state
        &&& exists|rendered: VNode<C>, mid: Seq<FiberNode<C>>|
            {
                &&& mid.len() == pre.len()
                &&& (forall|j: int| 0 <= j < pre.len() && j != id ==> mid[j] == pre[j])
                &&& (mid[id as int].node matches Node::Component(cm) && cm.function
                    == comp.function)
                &&& mid[id as int].state == pre[id as int].state
                &&& mid[id as int].child == pre[id as int].child
                &&& mid[id as int].sibling == pre[id as int].sibling
                &&& mid[id as int].parent == pre[id as int].parent
                &&& mid[id as int].effect_tag == pre[id as int].effect_tag
                &&& #[trigger] reconciled_onto(mid, post, id, seq![rendered])
            }
    }))
}

/// Performs the component half of a unit of work: resets the hook counter,
/// renders one virtual node from the instance (a pending component
/// `Update`'s new instance, when one is waiting, else the stored one),
/// decides and runs the due post-render effects per
/// [`crate::hooks::due_runs`], and reconciles the rendered node against
/// the fiber's existing child.
pub fn update_component_node<C: AnyComponent>(tree: &mut FiberTree<C>, id: FiberId)
    requires
        old(tree).free_ok(),
        id < old(tree).nodes@.len(),
        old(tree).nodes@[id as int].state is Valid,
        old(tree).nodes@[id as int].node is Component,
    ensures
        final(tree).free_ok(),
        final(tree).nodes@.len() >= old(tree).nodes@.len(),
        component_unit_ok(old(tree).nodes@, final(tree).nodes@, id),
{
    let ghost pre = old(tree).nodes@;
    let mut ctx = HookContext::new();
    if let Node::Component(comp) = &mut tree.nodes[id].node {
        core::mem::swap(&mut ctx, &mut comp.hook_context);
    }
    ctx.reset();
    let rendered: Option<VNode<C>> = {
        match (&tree.nodes[id].effect_tag, &tree.nodes[id].node) {
            (Some(EffectTag::Update(UpdateData::Component(next_instance))), _) => Some(
                next_instance.render(id, &mut ctx),
            ),
            (_, Node::Component(comp)) => Some(comp.function.render(id, &mut ctx)),
            _ => None,
        }
    };
    let runs = ctx.post_render();
    let nr = runs.len();
    let mut i: usize = 0;
    #[verifier::loop_isolation(false)]
    while i < nr
        invariant
            tree.free_ok(),
            tree.nodes@.len() == pre.len(),
            forall|j: int| 0 <= j < pre.len() && j != id ==> tree.nodes@[j] == pre[j],
            tree.nodes@[id as int].state == pre[id as int].state,
            tree.nodes@[id as int].child == pre[id as int].child,
            tree.nodes@[id as int].sibling == pre[id as int].sibling,
            tree.nodes@[id as int].parent == pre[id as int].parent,
            tree.nodes@[id as int].effect_tag == pre[id as int].effect_tag,
            tree.nodes@[id as int].node matches Node::Component(cm) && (
            pre[id as int].node matches Node::Component(cp) ==> cm.function == cp.function),
        decreases nr - i,
    {
        let run = runs[i];
        let produced_cleanup: Option<bool> = match &tree.nodes[id].node {
            Node::Component(comp) => Some(comp.function.run_effect(run.slot, run.run_cleanup)),
            _ => None,
        };
        if let Some(has_cleanup) = produced_cleanup {
            let _ = ctx.note_effect_result(run.slot, has_cleanup);
        }
        i = i + 1;
    }
    if let Node::Component(comp) = &mut tree.nodes[id].node {
        core::mem::swap(&mut ctx, &mut comp.hook_context);
    }
    let ghost mid = tree.nodes@;
    match rendered {
        Some(vnode) => {
            let ghost rendered_node = vnode;
            let mut children: Vec<VNode<C>> = Vec::new();
            children.push(vnode);
            proof {
                assert(children@ =~= seq![rendered_node]);
            }
            let report = reconcile_children(tree, id, children);
            proof {
                assert(reconciled_onto(mid, tree.nodes@, id, seq![rendered_node])) by {
                    assert(reconcile_post(
                        mid,
                        tree.nodes@,
                        id,
                        seq![rendered_node],
                        report.outcomes@,
                        report.deleted@,
                    ));
                }
                match pre[id as int].node {
                    Node::Component(comp) => {
                        assert(component_unit_ok(pre, tree.nodes@, id)) by {
                            assert(tree.nodes@[id as int].node is Component);
                        }
                    },
                    _ => {},
                }
            }
        },
        None => {
            proof {
                assert(false);
            }
        },
    }
}

/// Whether `mid` is `pre` with only fiber `id`'s element payload brought
/// to its host-ready shape: handle `h`, same materialized data, stash
/// emptied; links, state and tag untouched.
pub open spec fn element_mid_ok<C: AnyComponent>(
    pre: Seq<FiberNode<C>>,
    mid: Seq<FiberNode<C>>,
    id: FiberId,
    h: Option<usize>,
) -> bool {
    &&& mid.len() == pre.len()
    &&& (forall|j: int| 0 <= j < pre.len() && j != id ==> mid[j] == pre[j])
    &&& mid[id as int].state == pre[id as int].state
    &&& mid[id as int].child == pre[id as int].child
    &&& mid[id as int].sibling == pre[id as int].sibling
    &&& mid[id as int].parent == pre[id as int].parent
    &&& mid[id as int].effect_tag == pre[id as int].effect_tag
    &&& (pre[id as int].node matches Node::Element(e) ==> (mid[id as int].node matches
        Node::Element(em) && em.dom == h && em.tag == e.tag && em.attributes == e.attributes
        && em.events == e.events && em.unprocessed_children@.len() == 0))
}

/// Whether `hpost` is `hpre` with one fresh, childless host element
/// appended, carrying exactly the fiber element's tag, attributes and
/// listeners.
pub open spec fn created_element_ok<C: AnyComponent>(
    hpre: HostDoc,
    hpost: HostDoc,
    e: Element<C>,
) -> bool {
    &&& hpost.nodes@.len() == hpre.nodes@.len() + 1
    &&& (hpost.nodes@[hpre.nodes@.len() as int] matches HostNode::Element {
        tag,
        attributes,
        listeners,
        children,
    } && tag == e.tag && attributes@ == e.attributes@ && listeners@ == e.events@
        && children@.len() == 0)
    &&& hpost.ops@.len() == hpre.ops@.len() + 1
    &&& (forall|j: int| 0 <= j < hpre.ops@.len() ==> hpost.ops@[j] == hpre.ops@[j])
    &&& (hpost.ops@.last() matches HostOp::CreateElement {
        node,
        tag: t2,
        attributes: al,
        listeners: ll,
    } && node == hpre.nodes@.len() && t2 == e.tag && al@ == e.attributes@ && ll@ == e.events@)
}

/// The element case of a host-half unit of work: a handle created when
/// missing, the payload kept, the stash drained and reconciled as the new
/// child list per [`reconcile_post`].
pub open spec fn element_unit_ok<C: AnyComponent>(
    pre: Seq<FiberNode<C>>,
    post: Seq<FiberNode<C>>,
    hpre: HostDoc,
    hpost: HostDoc,
    id: FiberId,
) -> bool {
    pre[id as int].node matches Node::Element(e) ==> ({
        let h = if e.dom is Some {
            e.dom
        } else {
            Some(hpre.nodes@.len() as usize)
        };
        &&& (post[id as int].node matches Node::Element(e2) && e2.dom == h && e2.tag == e.tag
            && e2.attributes == e.attributes && e2.events == e.events
            && e2.unprocessed_children@.len() == 0)
        &&& (e.dom is None ==> created_element_ok(hpre, hpost, e))
        &&& (e.dom is Some ==> hpost.nodes@.len() == hpre.nodes@.len() && hpost.ops@
            == hpre.ops@)
        &&& (exists|mid: Seq<FiberNode<C>>|
            element_mid_ok(pre, mid, id, h) && #[trigger] reconciled_onto(
                mid,
                post,
                id,
                e.unprocessed_children@,
            ))
    })
}

/// The text case of a host-half unit of work: a handle created when
/// missing, nothing else changed.
pub open spec fn text_unit_ok<C: AnyComponent>(
    pre: Seq<FiberNode<C>>,
    post: Seq<FiberNode<C>>,
    hpre: HostDoc,
    hpost: HostDoc,
    id: FiberId,
) -> bool {
    pre[id as int].node matches Node::Text(t) ==> ({
        let h = if t.dom is Some {
            t.dom
        } else {
            Some(hpre.nodes@.len() as usize)
        };
        &&& post == pre.update(
            id as int,
            FiberNode { node: Node::Text(Text { dom: h, ..t }), ..pre[id as int] },
        )
        &&& (t.dom is None ==> hpost.nodes@.len() == hpre.nodes@.len() + 1
            && (hpost.nodes@[hpre.nodes@.len() as int] matches HostNode::Text { text } && text@
            == t.text@) && hpost.ops@.len() == hpre.ops@.len() + 1 && (forall|j: int|
            0 <= j < hpre.ops@.len() ==> hpost.ops@[j] == hpre.ops@[j]) && (hpost.ops@.last()
            matches HostOp::CreateText { node, text: lt } && node == hpre.nodes@.len() && lt@
            == t.text@))
        &&& (t.dom is Some ==> hpost.nodes@.len() == hpre.nodes@.len() && hpost.ops@
            == hpre.ops@)
    })
}

/// What the host half of a unit of work guarantees, by the fiber's kind;
/// committed host nodes are never touched, only fresh detached ones
/// appended.
pub open spec fn node_unit_ok<C: AnyComponent>(
    pre: Seq<FiberNode<C>>,
    post: Seq<FiberNode<C>>,
    hpre: HostDoc,
    hpost: HostDoc,
    id: FiberId,
) -> bool {
    &&& element_unit_ok(pre, post, hpre, hpost, id)
    &&& text_unit_ok(pre, post, hpre, hpost, id)
    &&& (pre[id as int].node is Component ==> post == pre && host_unchanged(hpre, hpost))
    &&& hpost.nodes@.len() >= hpre.nodes@.len()
    &&& (forall|j: int| 0 <= j < hpre.nodes@.len() ==> hpost.nodes@[j] == hpre.nodes@[j])
}

/// Performs the host half of a unit of work for an element or text fiber:
/// creates its host node when it has none yet, then reconciles its pending
/// children (an element's stash; a text fiber has none).
#[verifier::rlimit(60)]
pub fn update_node<C: AnyComponent>(tree: &mut FiberTree<C>, host: &mut HostDoc, id: FiberId)
    requires
        old(tree).free_ok(),
        id < old(tree).nodes@.len(),
        old(tree).nodes@[id as int].state is Valid,
    ensures
        final(tree).free_ok(),
        final(tree).nodes@.len() >= old(tree).nodes@.len(),
        node_unit_ok(old(tree).nodes@, final(tree).nodes@, *old(host), *final(host), id),
{
    let ghost pre = old(tree).nodes@;
    let needs_dom: bool = match &tree.nodes[id].node {
        Node::Element(e) => e.dom.is_none(),
        Node::Text(t) => t.dom.is_none(),
        Node::Component(_) => false,
    };
    if needs_dom {
        let created: Option<usize> = match &tree.nodes[id].node {
            Node::Element(e) => {
                let attrs = e.attributes.duplicate();
                let evs = e.events.duplicate();
                Some(host.create_element(e.tag, attrs, evs))
            },
            Node::Text(t) => {
                let text = t.text.clone();
                Some(host.create_text(text))
            },
            Node::Component(_) => None,
        };
        if let Some(h) = created {
            match &mut tree.nodes[id].node {
                Node::Element(e) => {
                    e.dom = Some(h);
                },
                Node::Text(t) => {
                    t.dom = Some(h);
                },
                Node::Component(_) => {},
            }
        }
    }
    let mut pending: Vec<VNode<C>> = Vec::new();
    let is_element = match &tree.nodes[id].node {
        Node::Element(_) => true,
        _ => false,
    };
    if is_element {
        let ghost stash: Seq<VNode<C>> = match pre[id as int].node {
            Node::Element(e) => e.unprocessed_children@,
            _ => Seq::empty(),
        };
        if let Node::Element(e) = &mut tree.nodes[id].node {
            core::mem::swap(&mut pending, &mut e.unprocessed_children);
        }
        proof {
            assert(pending@ == stash);
        }
        let ghost mid = tree.nodes@;
        let report = reconcile_children(tree, id, pending);
        proof {
            assert(reconciled_onto(mid, tree.nodes@, id, stash)) by {
                assert(reconcile_post(
                    mid,
                    tree.nodes@,
                    id,
                    stash,
                    report.outcomes@,
                    report.deleted@,
                ));
            }
        }
    } else {
        proof {
            match pre[id as int].node {
                Node::Text(t) => {
                    assert(tree.nodes@ =~= pre.update(
                        id as int,
                        FiberNode {
                            node: Node::Text(
                                Text {
                                    dom: if t.dom is Some {
                                        t.dom
                                    } else {
                                        Some(old(host).nodes@.len() as usize)
                                    },
                                    ..t
                                },
                            ),
                            ..pre[id as int]
                        },
                    ));
                },
                Node::Component(_) => {
                    assert(tree.nodes@ =~= pre);
                },
                _ => {},
            }
        }
    }
}

/// Everything one unit of work guarantees: the tree and host before and
/// after, the fiber worked on and the successor handed back — an
/// unprocessable id changes nothing; a processed fiber satisfies
/// [`component_unit_ok`] or [`node_unit_ok`] by its kind; the successor is
/// the in-range depth-first pre-order successor; committed host nodes are
/// never mutated.
pub open spec fn unit_post<C: AnyComponent>(
    pre_tree: FiberTree<C>,
    post_tree: FiberTree<C>,
    hpre: HostDoc,
    hpost: HostDoc,
    id: FiberId,
    next: Option<FiberId>,
) -> bool {
    let processed = id < pre_tree.nodes@.len() && pre_tree.nodes@[id as int].state is Valid;
    &&& post_tree.free_ok()
    &&& post_tree.nodes@.len() >= pre_tree.nodes@.len()
    &&& hpost.nodes@.len() >= hpre.nodes@.len()
    &&& (forall|j: int| 0 <= j < hpre.nodes@.len() ==> hpost.nodes@[j] == hpre.nodes@[j])
    &&& (!processed ==> next is None && post_tree == pre_tree && host_unchanged(hpre, hpost))
    &&& (processed ==> next == (match next_unit_after(
        post_tree.nodes@,
        id,
        post_tree.nodes@.len() as nat,
    ) {
        Some(x) => {
            if x < post_tree.nodes@.len() {
                Some(x)
            } else {
                None
            }
        },
        None => None,
    }))
    &&& (processed && pre_tree.nodes@[id as int].node is Component ==> component_unit_ok(
        pre_tree.nodes@,
        post_tree.nodes@,
        id,
    ) && host_unchanged(hpre, hpost))
    &&& (processed && !(pre_tree.nodes@[id as int].node is Component) ==> node_unit_ok(
        pre_tree.nodes@,
        post_tree.nodes@,
        hpre,
        hpost,
        id,
    ))
}

/// Performs one unit of work: expands a component fiber through its
/// instance ([`component_unit_ok`]), or materializes an element or text
/// fiber's host node and reconciles its stashed children
/// ([`node_unit_ok`]); then hands back the fiber where the sweep resumes —
/// first child, else nearest next sibling upward, else nothing (the sweep
/// is complete). Already-committed host nodes are never mutated:
/// reconciliation only creates detached host nodes.
pub fn perform_unit_of_work<C: AnyComponent>(
    tree: &mut FiberTree<C>,
    host: &mut HostDoc,
    id: FiberId,
) -> (next: Option<FiberId>)
    requires
        old(tree).free_ok(),
    ensures
        unit_post(*old(tree), *final(tree), *old(host), *final(host), id, next),
{
    if id >= tree.nodes.len() {
        return None;
    }
    if tree.nodes[id].state != crate::fiber::State::Valid {
        return None;
    }
    let is_component = match &tree.nodes[id].node {
        Node::Component(_) => true,
        _ => false,
    };
    if is_component {
        update_component_node(tree, id);
    } else {
        update_node(tree, host, id);
    }
    match next_fiber(tree, id) {
        Some(n2) => {
            if n2 < tree.nodes.len() {
                Some(n2)
            } else {
                None
            }
        },
        None => None,
    }
}

} // verus!

