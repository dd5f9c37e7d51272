//! The virtual tree: an immutable description of the desired UI, produced
//! afresh on every render and consumed by the reconciler.

use crate::attrs::AttrMap;
use crate::events::EventType;
use crate::tag::Tag;
use vstd::prelude::*;

verus! {

/// Whether some entry of `s` is keyed by `k`.
pub open spec fn ev_has_key(s: Seq<(EventType, u64)>, k: EventType) -> bool {
    exists|i: int| 0 <= i < s.len() && s[i].0 == k
}

/// An index of `s` whose entry is keyed by `k` (meaningful when `ev_has_key`).
pub open spec fn ev_key_index(s: Seq<(EventType, u64)>, k: EventType) -> int {
    choose|i: int| 0 <= i < s.len() && s[i].0 == k
}

/// The listener identity bound to `k` in `s`, if any.
pub open spec fn ev_lookup(s: Seq<(EventType, u64)>, k: EventType) -> Option<u64> {
    if ev_has_key(s, k) {
        Some(s[ev_key_index(s, k)].1)
    } else {
        None
    }
}

/// Whether the event kinds of `s` are pairwise distinct.
pub open spec fn ev_keys_distinct(s: Seq<(EventType, u64)>) -> bool {
    forall|i: int, j: int| 0 <= i < j < s.len() ==> s[i].0 != s[j].0
}

/// With distinct kinds, any entry keyed `k` carries the looked-up identity.
pub proof fn lemma_ev_lookup_at(s: Seq<(EventType, u64)>, i: int)
    requires
        ev_keys_distinct(s),
        0 <= i < s.len(),
    ensures
        ev_lookup(s, s[i].0) == Some(s[i].1),
{
    assert(ev_has_key(s, s[i].0));
    let j = ev_key_index(s, s[i].0);
    if i != j {
        assert(false);
    }
}

/// The listeners of `new_s` that are new, or whose identity changed, with
/// respect to `old_s`, in the order they stand in `new_s`.
pub open spec fn ev_set_diff(new_s: Seq<(EventType, u64)>, old_s: Seq<(EventType, u64)>) -> Seq<
    (EventType, u64),
>
    decreases new_s.len(),
{
    if new_s.len() == 0 {
        Seq::empty()
    } else {
        let rest = ev_set_diff(new_s.drop_last(), old_s);
        let p = new_s.last();
        if ev_lookup(old_s, p.0) == Some(p.1) {
            rest
        } else {
            rest.push(p)
        }
    }
}

/// The event kinds of `old_s` that `new_s` no longer listens for, in the
/// order they stand in `old_s`.
pub open spec fn ev_remove_diff(old_s: Seq<(EventType, u64)>, new_s: Seq<(EventType, u64)>) -> Seq<
    EventType,
>
    decreases old_s.len(),
{
    if old_s.len() == 0 {
        Seq::empty()
    } else {
        let rest = ev_remove_diff(old_s.drop_last(), new_s);
        let p = old_s.last();
        if ev_has_key(new_s, p.0) {
            rest
        } else {
            rest.push(p.0)
        }
    }
}

/// Diffed against an empty table, every listener is new and kept in order.
pub proof fn lemma_ev_set_diff_empty(s: Seq<(EventType, u64)>)
    ensures
        ev_set_diff(s, Seq::<(EventType, u64)>::empty()) == s,
    decreases s.len(),
{
    if s.len() > 0 {
        lemma_ev_set_diff_empty(s.drop_last());
        assert(ev_set_diff(s, Seq::<(EventType, u64)>::empty()) =~= s);
    } else {
        assert(ev_set_diff(s, Seq::<(EventType, u64)>::empty()) =~= s);
    }
}

/// An element's listener table: event kinds bound to listener identities.
///
/// The engine never holds a listener itself; a listener is represented by a
/// numeric identity that the embedding resolves to the real callback.
/// Identities are comparable, which is what the update-versus-noop decision
/// at commit time needs.
#[derive(Debug, PartialEq)]
pub struct Events {
    entries: Vec<(EventType, u64)>,
}

impl View for Events {
    type V = Seq<(EventType, u64)>;

    closed spec fn view(&self) -> Seq<(EventType, u64)> {
        self.entries@
    }
}

impl Events {
    /// The table's internal invariant: no event kind occurs twice.
    /// Every reachable `Events` value satisfies it.
    #[verifier::type_invariant]
    pub open spec fn wf(&self) -> bool {
        ev_keys_distinct(self@)
    }

    /// Creates an empty table.
    pub fn new() -> (r: Events)
        ensures
            r@ == Seq::<(EventType, u64)>::empty(),
    {
        Events { entries: Vec::new() }
    }

    /// The number of listeners.
    pub fn len(&self) -> (r: usize)
        ensures
            r == self@.len(),
    {
        self.entries.len()
    }

    /// The entry at a position, for callers that walk the table in order.
    pub fn entry_at(&self, i: usize) -> (r: (EventType, u64))
        requires
            i < self@.len(),
        ensures
            r == self@[i as int],
    {
        self.entries[i]
    }

    /// An equal table.
    pub fn duplicate(&self) -> (r: Events)
        ensures
            r@ == self@,
    {
        proof {
            use_type_invariant(self);
        }
        let n = self.entries.len();
        let mut v: Vec<(EventType, u64)> = Vec::new();
        let mut i: usize = 0;
        #[verifier::loop_isolation(false)]
        while i < n
            invariant
                i <= n,
                v@ == self@.take(i as int),
            decreases n - i,
        {
            v.push(self.entries[i]);
            proof {
                assert(v@ =~= self@.take(i + 1int));
            }
            i = i + 1;
        }
        proof {
            assert(self@.take(n as int) =~= self@);
        }
        Events { entries: v }
    }

    /// The listener identity bound to `k`, if any.
    pub fn get(&self, k: EventType) -> (r: Option<u64>)
        ensures
            r == ev_lookup(self@, k),
    {
        proof {
            use_type_invariant(self);
        }
        let n = self.entries.len();
        let mut i: usize = 0;
        #[verifier::loop_isolation(false)]
        while i < n
            invariant
                i <= n,
                self.wf(),
                forall|j: int| 0 <= j < i ==> self@[j].0 != k,
            decreases n - i,
        {
            if self.entries[i].0 == k {
                proof {
                    lemma_ev_lookup_at(self@, i as int);
                }
                return Some(self.entries[i].1);
            }
            i = i + 1;
        }
        None
    }

    /// Binds `k` to the listener identity `v`, replacing any existing
    /// binding of `k` and otherwise appending a new entry.
    pub fn insert(&mut self, k: EventType, v: u64)
        ensures
            ev_lookup(final(self)@, k) == Some(v),
            forall|q: EventType| q != k ==> ev_lookup(final(self)@, q) == ev_lookup(old(self)@, q),
            final(self)@.len() == old(self)@.len() + (if ev_has_key(old(self)@, k) {
                0int
            } else {
                1int
            }),
    {
        proof {
            use_type_invariant(&*self);
        }
        let ghost s0 = old(self)@;
        let n = self.entries.len();
        let mut i: usize = 0;
        #[verifier::loop_isolation(false)]
        while i < n
            invariant
                self@ == s0,
                i <= n,
                ev_keys_distinct(s0),
                forall|j: int| 0 <= j < i ==> s0[j].0 != k,
            decreases n - i,
        {
            if self.entries[i].0 == k {
                let mut entries: Vec<(EventType, u64)> = Vec::new();
                core::mem::swap(&mut entries, &mut self.entries);
                entries[i] = (k, v);
                proof {
                    assert forall|x: int, y: int| 0 <= x < y < entries@.len() implies entries@[x].0
                        != entries@[y].0 by {
                        assert(entries@[x].0 == s0[x].0 && entries@[y].0 == s0[y].0);
                    }
                }
                core::mem::swap(&mut entries, &mut self.entries);
                proof {
                    let s1 = self@;
                    assert forall|x: int, y: int| 0 <= x < y < s1.len() implies s1[x].0
                        != s1[y].0 by {
                        assert(s1[x].0 == s0[x].0 && s1[y].0 == s0[y].0);
                    }
                    lemma_ev_lookup_at(s1, i as int);
                    assert forall|q: EventType| q != k implies ev_lookup(s1, q) == ev_lookup(
                        s0,
                        q,
                    ) by {
                        if ev_has_key(s0, q) {
                            let x = ev_key_index(s0, q);
                            assert(s1[x].0 == q);
                            lemma_ev_lookup_at(s1, x);
                            lemma_ev_lookup_at(s0, x);
                        } else {
                            if ev_has_key(s1, q) {
                                let x = ev_key_index(s1, q);
                                assert(s0[x].0 == q);
                            }
                        }
                    }
                    assert(ev_has_key(s0, k));
                }
                return ;
            }
            i = i + 1;
        }
        let mut entries: Vec<(EventType, u64)> = Vec::new();
        core::mem::swap(&mut entries, &mut self.entries);
        entries.push((k, v));
        core::mem::swap(&mut entries, &mut self.entries);
        proof {
            let s1 = self@;
            assert(s1[s0.len() as int].0 == k);
            assert forall|x: int, y: int| 0 <= x < y < s1.len() implies s1[x].0 != s1[y].0 by {
                if y < s0.len() {
                    assert(s1[x].0 == s0[x].0 && s1[y].0 == s0[y].0);
                } else {
                    assert(s1[x].0 == s0[x].0 && s1[y].0 == k);
                }
            }
            lemma_ev_lookup_at(s1, s0.len() as int);
            assert forall|q: EventType| q != k implies ev_lookup(s1, q) == ev_lookup(s0, q) by {
                if ev_has_key(s0, q) {
                    let x = ev_key_index(s0, q);
                    assert(s1[x].0 == q);
                    lemma_ev_lookup_at(s1, x);
                    lemma_ev_lookup_at(s0, x);
                } else {
                    if ev_has_key(s1, q) {
                        let x = ev_key_index(s1, q);
                        assert(x == s0.len());
                    }
                }
            }
        }
    }

    /// Drops the binding of `k`, if any; every other binding is kept.
    pub fn remove(&mut self, k: EventType)
        ensures
            !ev_has_key(final(self)@, k),
            forall|q: EventType| q != k ==> ev_lookup(final(self)@, q) == ev_lookup(old(self)@, q),
            final(self)@.len() == old(self)@.len() - (if ev_has_key(old(self)@, k) {
                1int
            } else {
                0int
            }),
    {
        proof {
            use_type_invariant(&*self);
        }
        let ghost s0 = old(self)@;
        let n = self.entries.len();
        let mut i: usize = 0;
        #[verifier::loop_isolation(false)]
        while i < n
            invariant
                self@ == s0,
                i <= n,
                ev_keys_distinct(s0),
                forall|j: int| 0 <= j < i ==> s0[j].0 != k,
            decreases n - i,
        {
            if self.entries[i].0 == k {
                let mut entries: Vec<(EventType, u64)> = Vec::new();
                core::mem::swap(&mut entries, &mut self.entries);
                entries.remove(i);
                core::mem::swap(&mut entries, &mut self.entries);
                proof {
                    let s1 = self@;
                    assert(s1 == s0.remove(i as int));
                    assert(forall|j: int|
                        0 <= j < s1.len() ==> s1[j] == (if j < i { s0[j] } else { s0[j + 1] }));
                    assert forall|x: int, y: int| 0 <= x < y < s1.len() implies s1[x].0
                        != s1[y].0 by {}
                    assert forall|q: EventType| q != k implies ev_lookup(s1, q) == ev_lookup(
                        s0,
                        q,
                    ) by {
                        if ev_has_key(s0, q) {
                            let x = ev_key_index(s0, q);
                            assert(s0[x].0 == q);
                            assert(x != i);
                            let x1: int = if x < i {
                                x
                            } else {
                                x - 1
                            };
                            assert(s1[x1].0 == q);
                            lemma_ev_lookup_at(s1, x1);
                            lemma_ev_lookup_at(s0, x);
                        } else {
                            if ev_has_key(s1, q) {
                                let x = ev_key_index(s1, q);
                                assert(s1[x].0 == q);
                                assert(if x < i {
                                    s0[x].0 == q
                                } else {
                                    s0[x + 1].0 == q
                                });
                            }
                        }
                    }
                    assert forall|x: int| 0 <= x < s1.len() implies s1[x].0 != k by {
                        if x >= i {
                            assert(s1[x] == s0[x + 1]);
                        }
                    }
                    assert(ev_has_key(s0, k));
                }
                return ;
            }
            i = i + 1;
        }
    }

    /// The listeners of `self` that must be attached anew or replaced on the
    /// host element when it currently carries the listeners of `old`.
    pub fn to_set(&self, old: &Events) -> (r: Vec<(EventType, u64)>)
        ensures
            r@ == ev_set_diff(self@, old@),
    {
        proof {
            use_type_invariant(old);
        }
        let n = self.entries.len();
        let mut r: Vec<(EventType, u64)> = Vec::new();
        let mut i: usize = 0;
        #[verifier::loop_isolation(false)]
        while i < n
            invariant
                i <= n,
                r@ == ev_set_diff(self@.take(i as int), old@),
            decreases n - i,
        {
            let p = self.entries[i];
            let unchanged = match old.get(p.0) {
                Some(v) => v == p.1,
                None => false,
            };
            proof {
                assert(self@.take(i + 1int).drop_last() =~= self@.take(i as int));
            }
            if !unchanged {
                r.push(p);
            }
            i = i + 1;
        }
        proof {
            assert(self@.take(n as int) =~= self@);
        }
        r
    }

    /// The event kinds bound in `old` that `self` no longer listens for:
    /// what a commit must detach from the host element.
    pub fn to_remove(&self, old: &Events) -> (r: Vec<EventType>)
        ensures
            r@ == ev_remove_diff(old@, self@),
    {
        proof {
            use_type_invariant(self);
        }
        let n = old.entries.len();
        let mut r: Vec<EventType> = Vec::new();
        let mut i: usize = 0;
        #[verifier::loop_isolation(false)]
        while i < n
            invariant
                i <= n,
                r@ == ev_remove_diff(old@.take(i as int), self@),
            decreases n - i,
        {
            let p = old.entries[i];
            proof {
                assert(old@.take(i + 1int).drop_last() =~= old@.take(i as int));
            }
            match self.get(p.0) {
                Some(_) => {},
                None => {
                    r.push(p.0);
                },
            }
            i = i + 1;
        }
        proof {
            assert(old@.take(n as int) =~= old@);
        }
        r
    }
}

/// A virtual element: a tag with attributes, listeners and ordered children.
#[derive(Debug)]
pub struct VElement<C> {
    pub tag: Tag,
    pub attributes: AttrMap,
    pub events: Events,
    pub children: Vec<VNode<C>>,
}

/// One node of the virtual tree for a single render pass.
#[derive(Debug)]
pub enum VNode<C> {
    Element(VElement<C>),
    Text(String),
    Component(C),
}

impl<C> VElement<C> {
    /// An element of `tag` with no attributes, listeners or children.
    pub fn new(tag: Tag) -> (r: VElement<C>)
        ensures
            r.tag == tag,
            r.attributes@ == Seq::<(String, String)>::empty(),
            r.events@ == Seq::<(EventType, u64)>::empty(),
            r.children@ == Seq::<VNode<C>>::empty(),
    {
        VElement { tag, attributes: AttrMap::new(), events: Events::new(), children: Vec::new() }
    }

    /// Appends one child.
    pub fn with_child(self, child: VNode<C>) -> (r: VElement<C>)
        ensures
            r.tag == self.tag,
            r.attributes == self.attributes,
            r.events == self.events,
            r.children@ == self.children@.push(child),
    {
        let mut e = self;
        e.children.push(child);
        e
    }

    /// Appends a list of children in order.
    pub fn with_children(self, children: Vec<VNode<C>>) -> (r: VElement<C>)
        ensures
            r.tag == self.tag,
            r.attributes == self.attributes,
            r.events == self.events,
            r.children@ == self.children@ + children@,
    {
        let mut e = self;
        let mut rest = children;
        e.children.append(&mut rest);
        e
    }

    /// Binds an attribute, replacing any earlier binding of the same name.
    pub fn with_attribute(self, key: String, value: String) -> (r: VElement<C>)
        ensures
            r.tag == self.tag,
            r.events == self.events,
            r.children == self.children,
            crate::attrs::lookup(r.attributes@, key@) == Some(value@),
            forall|q: Seq<char>|
                q != key@ ==> crate::attrs::lookup(r.attributes@, q) == crate::attrs::lookup(
                    self.attributes@,
                    q,
                ),
            r.attributes@.len() == self.attributes@.len() + (if crate::attrs::has_key(
                self.attributes@,
                key@,
            ) {
                0int
            } else {
                1int
            }),
    {
        let mut e = self;
        e.attributes.insert(key, value);
        e
    }

    /// Binds a list of attributes in order, later bindings replacing earlier
    /// ones of the same name.
    pub fn with_attributes(self, attributes: Vec<(String, String)>) -> (r: VElement<C>)
        ensures
            r.tag == self.tag,
            r.events == self.events,
            r.children == self.children,
    {
        let mut e = self;
        let mut i: usize = 0;
        let n = attributes.len();
        #[verifier::loop_isolation(false)]
        while i < n
            invariant
                i <= n,
                e.tag == self.tag,
                e.events == self.events,
                e.children == self.children,
            decreases n - i,
        {
            let k = attributes[i].0.clone();
            let v = attributes[i].1.clone();
            e.attributes.insert(k, v);
            i = i + 1;
        }
        e
    }

    /// Binds a listener identity for an event kind, replacing any earlier
    /// binding of the same kind.
    pub fn with_event(self, event: EventType, handler: u64) -> (r: VElement<C>)
        ensures
            r.tag == self.tag,
            r.attributes == self.attributes,
            r.children == self.children,
            ev_lookup(r.events@, event) == Some(handler),
            forall|q: EventType|
                q != event ==> ev_lookup(r.events@, q) == ev_lookup(self.events@, q),
    {
        let mut e = self;
        e.events.insert(event, handler);
        e
    }
}

impl Tag {
    /// An element of this tag with a single child.
    pub fn with_child<C>(self, child: VNode<C>) -> (r: VElement<C>)
        ensures
            r.tag == self,
            r.attributes@.len() == 0,
            r.events@.len() == 0,
            r.children@.len() == 1 && r.children@[0] == child,
    {
        let e = VElement::new(self);
        let r = e.with_child(child);
        proof {
            assert(r.children@ =~= Seq::<VNode<C>>::empty().push(child));
        }
        r
    }

    /// An element of this tag with the given children.
    pub fn with_children<C>(self, children: Vec<VNode<C>>) -> (r: VElement<C>)
        ensures
            r.tag == self,
            r.attributes@.len() == 0,
            r.events@.len() == 0,
            r.children@ == children@,
    {
        let e = VElement::new(self);
        let r = e.with_children(children);
        proof {
            assert(r.children@ =~= children@);
        }
        r
    }

    /// An element of this tag with a single attribute.
    pub fn with_attribute<C>(self, key: String, value: String) -> (r: VElement<C>)
        ensures
            r.tag == self,
            r.events@.len() == 0,
            r.children@.len() == 0,
            crate::attrs::lookup(r.attributes@, key@) == Some(value@),
            r.attributes@.len() == 1,
    {
        let e = VElement::<C>::new(self);
        e.with_attribute(key, value)
    }

    /// An element of this tag with the given attributes.
    pub fn with_attributes<C>(self, attributes: Vec<(String, String)>) -> (r: VElement<C>)
        ensures
            r.tag == self,
            r.events@.len() == 0,
            r.children@.len() == 0,
    {
        let e = VElement::<C>::new(self);
        e.with_attributes(attributes)
    }

    /// An element of this tag with a single listener.
    pub fn with_event<C>(self, event: EventType, handler: u64) -> (r: VElement<C>)
        ensures
            r.tag == self,
            r.attributes@.len() == 0,
            r.children@.len() == 0,
            ev_lookup(r.events@, event) == Some(handler),
    {
        let e = VElement::<C>::new(self);
        e.with_event(event, handler)
    }

    /// A childless, attributeless element of this tag as a virtual node.
    pub fn node<C>(self) -> (r: VNode<C>)
        ensures
            r matches VNode::Element(e) && e.tag == self && e.attributes@.len() == 0
                && e.events@.len() == 0 && e.children@.len() == 0,
    {
        VNode::Element(VElement::new(self))
    }
}

impl<C> VElement<C> {
    /// This element as a virtual node.
    pub fn node(self) -> (r: VNode<C>)
        ensures
            r == VNode::Element(self),
    {
        VNode::Element(self)
    }
}

/// Whether two attribute tables carry the same entries in the same order.
pub open spec fn attr_entries_equal(a: Seq<(String, String)>, b: Seq<(String, String)>) -> bool {
    a.len() == b.len() && forall|i: int|
        0 <= i < a.len() ==> a[i].0@ == b[i].0@ && a[i].1@ == b[i].1@
}

impl AttrMap {
    /// Whether `self` and `other` carry the same entries in the same order.
    pub fn same_entries(&self, other: &AttrMap) -> (r: bool)
        ensures
            r == attr_entries_equal(self@, other@),
    {
        if self.len() != other.len() {
            return false;
        }
        let n = self.len();
        let mut i: usize = 0;
        #[verifier::loop_isolation(false)]
        while i < n
            invariant
                i <= n,
                forall|j: int| 0 <= j < i ==> self@[j].0@ == other@[j].0@ && self@[j].1@
                    == other@[j].1@,
            decreases n - i,
        {
            let a = self.entry_at(i);
            let b = other.entry_at(i);
            if !(&a.0).eq(&b.0) || !(&a.1).eq(&b.1) {
                return false;
            }
            i = i + 1;
        }
        true
    }
}

impl Events {
    /// Whether `self` and `other` carry the same entries in the same order.
    pub fn same_entries(&self, other: &Events) -> (r: bool)
        ensures
            r == (self@ == other@),
    {
        if self.len() != other.len() {
            proof {
                assert(self@.len() != other@.len());
            }
            return false;
        }
        let n = self.len();
        let mut i: usize = 0;
        #[verifier::loop_isolation(false)]
        while i < n
            invariant
                i <= n,
                forall|j: int| 0 <= j < i ==> self@[j] == other@[j],
            decreases n - i,
        {
            let a = self.entry_at(i);
            let b = other.entry_at(i);
            if a.0 != b.0 || a.1 != b.1 {
                return false;
            }
            i = i + 1;
        }
        proof {
            assert(self@ =~= other@);
        }
        true
    }
}

} // verus!
