//! The host document: the engine's own model of the tree that commits
//! mutate, together with a journal of the mutations in the order they were
//! applied.
//!
//! The committer works against this model, so what a commit does to the
//! host is stated and proved here; an embedding that drives a real
//! rendering surface replays the journal onto it, one call per entry. A
//! mutation aimed at a handle of the wrong kind is a per-node no-op that
//! reports `false` instead of aborting the commit pass.

use crate::attrs::AttrMap;
use crate::events::EventType;
use crate::tag::Tag;
use crate::vdom::Events;
use vstd::prelude::*;

verus! {

/// One node of the host tree.
#[derive(Debug)]
pub enum HostNode {
    Element { tag: Tag, attributes: AttrMap, listeners: Events, children: Vec<usize> },
    Text { text: String },
}

/// One host mutation, as an embedding must replay it.
#[derive(Debug)]
pub enum HostOp {
    CreateElement {
        node: usize,
        tag: Tag,
        attributes: Vec<(String, String)>,
        listeners: Vec<(EventType, u64)>,
    },
    CreateText { node: usize, text: String },
    AppendChild { parent: usize, child: usize },
    RemoveChild { parent: usize, child: usize },
    SetAttribute { node: usize, name: String, value: String },
    RemoveAttribute { node: usize, name: String },
    AddListener { node: usize, event: EventType, handler: u64 },
    RemoveListener { node: usize, event: EventType },
    SetText { node: usize, text: String },
}

/// The host tree, plus the journal of mutations not yet handed to the
/// embedding. Handles are indices into `nodes`; a node, once created, is
/// never deallocated, only detached from its parent's child list.
#[derive(Debug)]
pub struct HostDoc {
    pub nodes: Vec<HostNode>,
    pub ops: Vec<HostOp>,
}

impl HostDoc {
    /// Creates an empty document.
    pub fn new() -> (r: HostDoc)
        ensures
            r.nodes@.len() == 0,
            r.ops@.len() == 0,
    {
        HostDoc { nodes: Vec::new(), ops: Vec::new() }
    }

    /// Creates a childless host element carrying the given attributes and
    /// listeners, and returns its handle.
    pub fn create_element(&mut self, tag: Tag, attributes: AttrMap, listeners: Events) -> (h:
        usize)
        ensures
            h == old(self).nodes@.len(),
            final(self).nodes@.len() == old(self).nodes@.len() + 1,
            forall|j: int|
                0 <= j < old(self).nodes@.len() ==> final(self).nodes@[j] == old(self).nodes@[j],
            final(self).nodes@[h as int] matches HostNode::Element {
                tag: t,
                attributes: a,
                listeners: l,
                children: c,
            } && t == tag && a == attributes && l == listeners && c@.len() == 0,
            final(self).ops@.len() == old(self).ops@.len() + 1,
            forall|j: int|
                0 <= j < old(self).ops@.len() ==> final(self).ops@[j] == old(self).ops@[j],
            final(self).ops@.last() matches HostOp::CreateElement {
                node,
                tag: t2,
                attributes: al,
                listeners: ll,
            } && node == h && t2 == tag && al@ == attributes@ && ll@ == listeners@,
    {
        let h = self.nodes.len();
        let attr_list = attributes.to_set(&AttrMap::new());
        let listener_list = listeners.to_set(&Events::new());
        proof {
            crate::attrs::lemma_set_diff_empty(attributes@);
            crate::vdom::lemma_ev_set_diff_empty(listeners@);
        }
        self.nodes.push(HostNode::Element { tag, attributes, listeners, children: Vec::new() });
        self.ops.push(
            HostOp::CreateElement { node: h, tag, attributes: attr_list, listeners: listener_list },
        );
        h
    }

    /// Creates a host text node and returns its handle.
    pub fn create_text(&mut self, text: String) -> (h: usize)
        ensures
            h == old(self).nodes@.len(),
            final(self).nodes@.len() == old(self).nodes@.len() + 1,
            forall|j: int|
                0 <= j < old(self).nodes@.len() ==> final(self).nodes@[j] == old(self).nodes@[j],
            final(self).nodes@[h as int] matches HostNode::Text { text: t } && t@ == text@,
            final(self).ops@.len() == old(self).ops@.len() + 1,
            forall|j: int|
                0 <= j < old(self).ops@.len() ==> final(self).ops@[j] == old(self).ops@[j],
            final(self).ops@.last() matches HostOp::CreateText { node, text: t } && node == h
                && t@ == text@,
    {
        let h = self.nodes.len();
        let logged = text.clone();
        self.nodes.push(HostNode::Text { text });
        self.ops.push(HostOp::CreateText { node: h, text: logged });
        h
    }

    /// Appends `child` to `parent`'s child list. Reports whether it
    /// applied: it does nothing when `parent` is not an element handle or
    /// `child` is no handle at all.
    pub fn append_child(&mut self, parent: usize, child: usize) -> (applied: bool)
        ensures
            applied == (parent < old(self).nodes@.len() && old(
                self,
            ).nodes@[parent as int] is Element && child < old(self).nodes@.len()),
            !applied ==> final(self).nodes@ == old(self).nodes@ && final(self).ops@ == old(self).ops@,
            applied ==> ({
                &&& final(self).nodes@.len() == old(self).nodes@.len()
                &&& forall|j: int|
                    0 <= j < old(self).nodes@.len() && j != parent ==> final(self).nodes@[j] == old(
                        self,
                    ).nodes@[j]
                &&& (old(self).nodes@[parent as int] matches HostNode::Element {
                    tag,
                    attributes,
                    listeners,
                    children,
                } ==> final(self).nodes@[parent as int] matches HostNode::Element {
                    tag: t2,
                    attributes: a2,
                    listeners: l2,
                    children: c2,
                } && t2 == tag && a2 == attributes && l2 == listeners && c2@ == children@.push(
                    child,
                ))
                &&& final(self).ops@ == old(self).ops@.push(HostOp::AppendChild { parent, child })
            }),
    {
        if parent < self.nodes.len() && child < self.nodes.len() {
            let is_element = match &self.nodes[parent] {
                HostNode::Element { .. } => true,
                _ => false,
            };
            if is_element {
                if let HostNode::Element { children, .. } = &mut self.nodes[parent] {
                    children.push(child);
                }
                self.ops.push(HostOp::AppendChild { parent, child });
                return true;
            }
        }
        false
    }

    /// Detaches the first occurrence of `child` from `parent`'s child list.
    /// Reports whether it applied: it does nothing when `parent` is not an
    /// element handle or `child` is not among its children.
    pub fn remove_child(&mut self, parent: usize, child: usize) -> (applied: bool)
        ensures
            applied == (parent < old(self).nodes@.len() && (old(
                self,
            ).nodes@[parent as int] matches HostNode::Element { children, .. }
                && children@.contains(child))),
            !applied ==> final(self).nodes@ == old(self).nodes@ && final(self).ops@ == old(self).ops@,
            applied ==> ({
                &&& parent < old(self).nodes@.len()
                &&& final(self).nodes@.len() == old(self).nodes@.len()
                &&& forall|j: int|
                    0 <= j < old(self).nodes@.len() && j != parent ==> final(self).nodes@[j] == old(
                        self,
                    ).nodes@[j]
                &&& (old(self).nodes@[parent as int] matches HostNode::Element {
                    tag,
                    attributes,
                    listeners,
                    children,
                } && exists|k: int|
                    {
                        &&& 0 <= k < children@.len()
                        &&& children@[k] == child
                        &&& (forall|j: int| 0 <= j < k ==> children@[j] != child)
                        &&& final(self).nodes@[parent as int] matches HostNode::Element {
                            tag: t2,
                            attributes: a2,
                            listeners: l2,
                            children: c2,
                        } && t2 == tag && a2 == attributes && l2 == listeners && c2@ == children@
                            .remove(k)
                    })
                &&& final(self).ops@ == old(self).ops@.push(HostOp::RemoveChild { parent, child })
            }),
    {
        if parent >= self.nodes.len() {
            return false;
        }
        let mut found: bool = false;
        let mut index: usize = 0;
        let ghost mut c0: Seq<usize> = Seq::empty();
        if let HostNode::Element { children, .. } = &self.nodes[parent] {
            proof {
                c0 = children@;
            }
            let n = children.len();
            #[verifier::loop_isolation(false)]
            while index < n
                invariant
                    index <= n,
                    n == c0.len(),
                    children@ == c0,
                    forall|j: int| 0 <= j < index ==> c0[j] != child,
                    found ==> index < n && c0[index as int] == child,
                decreases n - index,
            {
                if children[index] == child {
                    found = true;
                    break ;
                }
                index = index + 1;
            }
        }
        if found {
            if let HostNode::Element { children, .. } = &mut self.nodes[parent] {
                children.remove(index);
            }
            self.ops.push(HostOp::RemoveChild { parent, child });
        }
        found
    }

    /// Writes one attribute on a host element. Reports whether it applied.
    pub fn set_attribute(&mut self, node: usize, name: String, value: String) -> (applied: bool)
        ensures
            applied == (node < old(self).nodes@.len() && old(
                self,
            ).nodes@[node as int] is Element),
            !applied ==> final(self).nodes@ == old(self).nodes@ && final(self).ops@ == old(self).ops@,
            applied ==> ({
                &&& final(self).nodes@.len() == old(self).nodes@.len()
                &&& forall|j: int|
                    0 <= j < old(self).nodes@.len() && j != node ==> final(self).nodes@[j] == old(
                        self,
                    ).nodes@[j]
                &&& (old(self).nodes@[node as int] matches HostNode::Element {
                    tag,
                    attributes,
                    listeners,
                    children,
                } ==> final(self).nodes@[node as int] matches HostNode::Element {
                    tag: t2,
                    attributes: a2,
                    listeners: l2,
                    children: c2,
                } && t2 == tag && l2 == listeners && c2 == children && crate::attrs::lookup(
                    a2@,
                    name@,
                ) == Some(value@) && forall|q: Seq<char>|
                    q != name@ ==> crate::attrs::lookup(a2@, q) == crate::attrs::lookup(
                        attributes@,
                        q,
                    ))
                &&& final(self).ops@ == old(self).ops@.push(
                    HostOp::SetAttribute { node, name, value },
                )
            }),
    {
        if node >= self.nodes.len() {
            return false;
        }
        let is_element = match &self.nodes[node] {
            HostNode::Element { .. } => true,
            _ => false,
        };
        if !is_element {
            return false;
        }
        let logged_name = name.clone();
        let logged_value = value.clone();
        if let HostNode::Element { attributes, .. } = &mut self.nodes[node] {
            attributes.insert(name, value);
        }
        self.ops.push(HostOp::SetAttribute { node, name: logged_name, value: logged_value });
        true
    }

    /// Removes one attribute from a host element. Reports whether it
    /// applied.
    pub fn remove_attribute(&mut self, node: usize, name: String) -> (applied: bool)
        ensures
            applied == (node < old(self).nodes@.len() && old(
                self,
            ).nodes@[node as int] is Element),
            !applied ==> final(self).nodes@ == old(self).nodes@ && final(self).ops@ == old(self).ops@,
            applied ==> ({
                &&& final(self).nodes@.len() == old(self).nodes@.len()
                &&& forall|j: int|
                    0 <= j < old(self).nodes@.len() && j != node ==> final(self).nodes@[j] == old(
                        self,
                    ).nodes@[j]
                &&& (old(self).nodes@[node as int] matches HostNode::Element {
                    tag,
                    attributes,
                    listeners,
                    children,
                } ==> final(self).nodes@[node as int] matches HostNode::Element {
                    tag: t2,
                    attributes: a2,
                    listeners: l2,
                    children: c2,
                } && t2 == tag && l2 == listeners && c2 == children && !crate::attrs::has_key(
                    a2@,
                    name@,
                ) && forall|q: Seq<char>|
                    q != name@ ==> crate::attrs::lookup(a2@, q) == crate::attrs::lookup(
                        attributes@,
                        q,
                    ))
                &&& final(self).ops@ == old(self).ops@.push(
                    HostOp::RemoveAttribute { node, name },
                )
            }),
    {
        if node >= self.nodes.len() {
            return false;
        }
        let is_element = match &self.nodes[node] {
            HostNode::Element { .. } => true,
            _ => false,
        };
        if !is_element {
            return false;
        }
        let logged_name = name.clone();
        if let HostNode::Element { attributes, .. } = &mut self.nodes[node] {
            attributes.remove(&name);
        }
        self.ops.push(HostOp::RemoveAttribute { node, name: logged_name });
        true
    }

    /// Attaches or replaces one listener on a host element. Reports whether
    /// it applied.
    pub fn add_listener(&mut self, node: usize, event: EventType, handler: u64) -> (applied: bool)
        ensures
            applied == (node < old(self).nodes@.len() && old(
                self,
            ).nodes@[node as int] is Element),
            !applied ==> final(self).nodes@ == old(self).nodes@ && final(self).ops@ == old(self).ops@,
            applied ==> ({
                &&& final(self).nodes@.len() == old(self).nodes@.len()
                &&& forall|j: int|
                    0 <= j < old(self).nodes@.len() && j != node ==> final(self).nodes@[j] == old(
                        self,
                    ).nodes@[j]
                &&& (old(self).nodes@[node as int] matches HostNode::Element {
                    tag,
                    attributes,
                    listeners,
                    children,
                } ==> final(self).nodes@[node as int] matches HostNode::Element {
                    tag: t2,
                    attributes: a2,
                    listeners: l2,
                    children: c2,
                } && t2 == tag && a2 == attributes && c2 == children && crate::vdom::ev_lookup(
                    l2@,
                    event,
                ) == Some(handler) && forall|q: EventType|
                    q != event ==> crate::vdom::ev_lookup(l2@, q) == crate::vdom::ev_lookup(
                        listeners@,
                        q,
                    ))
                &&& final(self).ops@ == old(self).ops@.push(
                    HostOp::AddListener { node, event, handler },
                )
            }),
    {
        if node >= self.nodes.len() {
            return false;
        }
        let is_element = match &self.nodes[node] {
            HostNode::Element { .. } => true,
            _ => false,
        };
        if !is_element {
            return false;
        }
        if let HostNode::Element { listeners, .. } = &mut self.nodes[node] {
            listeners.insert(event, handler);
        }
        self.ops.push(HostOp::AddListener { node, event, handler });
        true
    }

    /// Detaches one listener from a host element. Reports whether it
    /// applied.
    pub fn remove_listener(&mut self, node: usize, event: EventType) -> (applied: bool)
        ensures
            applied == (node < old(self).nodes@.len() && old(
                self,
            ).nodes@[node as int] is Element),
            !applied ==> final(self).nodes@ == old(self).nodes@ && final(self).ops@ == old(self).ops@,
            applied ==> ({
                &&& final(self).nodes@.len() == old(self).nodes@.len()
                &&& forall|j: int|
                    0 <= j < old(self).nodes@.len() && j != node ==> final(self).nodes@[j] == old(
                        self,
                    ).nodes@[j]
                &&& (old(self).nodes@[node as int] matches HostNode::Element {
                    tag,
                    attributes,
                    listeners,
                    children,
                } ==> final(self).nodes@[node as int] matches HostNode::Element {
                    tag: t2,
                    attributes: a2,
                    listeners: l2,
                    children: c2,
                } && t2 == tag && a2 == attributes && c2 == children && !crate::vdom::ev_has_key(
                    l2@,
                    event,
                ) && forall|q: EventType|
                    q != event ==> crate::vdom::ev_lookup(l2@, q) == crate::vdom::ev_lookup(
                        listeners@,
                        q,
                    ))
                &&& final(self).ops@ == old(self).ops@.push(
                    HostOp::RemoveListener { node, event },
                )
            }),
    {
        if node >= self.nodes.len() {
            return false;
        }
        let is_element = match &self.nodes[node] {
            HostNode::Element { .. } => true,
            _ => false,
        };
        if !is_element {
            return false;
        }
        if let HostNode::Element { listeners, .. } = &mut self.nodes[node] {
            listeners.remove(event);
        }
        self.ops.push(HostOp::RemoveListener { node, event });
        true
    }

    /// Replaces the content of a host text node. Reports whether it applied.
    pub fn set_text(&mut self, node: usize, text: String) -> (applied: bool)
        ensures
            applied == (node < old(self).nodes@.len() && old(self).nodes@[node as int] is Text),
            !applied ==> final(self).nodes@ == old(self).nodes@ && final(self).ops@ == old(self).ops@,
            applied ==> ({
                &&& final(self).nodes@.len() == old(self).nodes@.len()
                &&& forall|j: int|
                    0 <= j < old(self).nodes@.len() && j != node ==> final(self).nodes@[j] == old(
                        self,
                    ).nodes@[j]
                &&& final(self).nodes@[node as int] matches HostNode::Text { text: t } && t@
                    == text@
                &&& final(self).ops@ == old(self).ops@.push(HostOp::SetText { node, text })
            }),
    {
        if node < self.nodes.len() {
            let is_text = match &self.nodes[node] {
                HostNode::Text { .. } => true,
                _ => false,
            };
            if is_text {
                let logged = text.clone();
                if let HostNode::Text { text: slot } = &mut self.nodes[node] {
                    *slot = text;
                }
                self.ops.push(HostOp::SetText { node, text: logged });
                return true;
            }
        }
        false
    }

    /// Hands the journal to the embedding and starts a fresh one.
    pub fn take_ops(&mut self) -> (r: Vec<HostOp>)
        ensures
            r@ == old(self).ops@,
            final(self).ops@.len() == 0,
            final(self).nodes@ == old(self).nodes@,
    {
        let mut out: Vec<HostOp> = Vec::new();
        core::mem::swap(&mut out, &mut self.ops);
        out
    }
}

} // verus!
