//! An attribute table: an association list from attribute names to values
//! with pairwise-distinct keys, plus the difference computation that the
//! commit phase uses to bring a host element's attributes up to date.

use vstd::prelude::*;

verus! {

/// Whether some entry of `s` has key view `k`.
pub open spec fn has_key(s: Seq<(String, String)>, k: Seq<char>) -> bool {
    exists|i: int| 0 <= i < s.len() && s[i].0@ == k
}

/// An index of `s` whose entry has key view `k` (meaningful when `has_key`).
pub open spec fn key_index(s: Seq<(String, String)>, k: Seq<char>) -> int {
    choose|i: int| 0 <= i < s.len() && s[i].0@ == k
}

/// The value bound to key view `k` in `s`, if any.
pub open spec fn lookup(s: Seq<(String, String)>, k: Seq<char>) -> Option<Seq<char>> {
    if has_key(s, k) {
        Some(s[key_index(s, k)].1@)
    } else {
        None
    }
}

/// Whether the keys of `s` are pairwise distinct.
pub open spec fn keys_distinct(s: Seq<(String, String)>) -> bool {
    forall|i: int, j: int| 0 <= i < j < s.len() ==> s[i].0@ != s[j].0@
}

/// With distinct keys, any entry whose key is `k` carries the looked-up value.
pub proof fn lemma_lookup_at(s: Seq<(String, String)>, i: int)
    requires
        keys_distinct(s),
        0 <= i < s.len(),
    ensures
        lookup(s, s[i].0@) == Some(s[i].1@),
{
    assert(has_key(s, s[i].0@));
    let j = key_index(s, s[i].0@);
    assert(0 <= j < s.len() && s[j].0@ == s[i].0@);
    if i != j {
        assert(false);
    }
}

/// The entries of `new_s` that are new or changed with respect to `old_s`,
/// in the order they stand in `new_s`.
pub open spec fn set_diff(new_s: Seq<(String, String)>, old_s: Seq<(String, String)>) -> Seq<
    (String, String),
>
    decreases new_s.len(),
{
    if new_s.len() == 0 {
        Seq::empty()
    } else {
        let rest = set_diff(new_s.drop_last(), old_s);
        let p = new_s.last();
        if lookup(old_s, p.0@) == Some(p.1@) {
            rest
        } else {
            rest.push(p)
        }
    }
}

/// The keys of `old_s` that no entry of `new_s` carries any more, in the
/// order they stand in `old_s`.
pub open spec fn remove_diff(old_s: Seq<(String, String)>, new_s: Seq<(String, String)>) -> Seq<
    String,
>
    decreases old_s.len(),
{
    if old_s.len() == 0 {
        Seq::empty()
    } else {
        let rest = remove_diff(old_s.drop_last(), new_s);
        let p = old_s.last();
        if has_key(new_s, p.0@) {
            rest
        } else {
            rest.push(p.0)
        }
    }
}

/// Diffed against an empty table, every entry is new and kept in order.
pub proof fn lemma_set_diff_empty(s: Seq<(String, String)>)
    ensures
        set_diff(s, Seq::<(String, String)>::empty()) == s,
    decreases s.len(),
{
    if s.len() > 0 {
        lemma_set_diff_empty(s.drop_last());
        assert(set_diff(s, Seq::<(String, String)>::empty()) =~= s);
    } else {
        assert(set_diff(s, Seq::<(String, String)>::empty()) =~= s);
    }
}

/// A table of attribute name/value pairs with pairwise-distinct names.
#[derive(Debug, PartialEq)]
pub struct AttrMap {
    entries: Vec<(String, String)>,
}

impl View for AttrMap {
    type V = Seq<(String, String)>;

    closed spec fn view(&self) -> Seq<(String, String)> {
        self.entries@
    }
}

impl AttrMap {
    /// The table's internal invariant: no attribute name occurs twice.
    /// Every reachable `AttrMap` value satisfies it.
    #[verifier::type_invariant]
    pub open spec fn wf(&self) -> bool {
        keys_distinct(self@)
    }

    /// Creates an empty table.
    pub fn new() -> (r: AttrMap)
        ensures
            r@ == Seq::<(String, String)>::empty(),
    {
        AttrMap { entries: Vec::new() }
    }

    /// The number of entries.
    pub fn len(&self) -> (r: usize)
        ensures
            r == self@.len(),
    {
        self.entries.len()
    }

    /// The entry at a position, for callers that walk the table in order.
    pub fn entry_at(&self, i: usize) -> (r: &(String, String))
        requires
            i < self@.len(),
        ensures
            *r == self@[i as int],
    {
        &self.entries[i]
    }

    /// An equal table.
    pub fn duplicate(&self) -> (r: AttrMap)
        ensures
            r@ == self@,
    {
        proof {
            use_type_invariant(self);
        }
        let n = self.entries.len();
        let mut v: Vec<(String, String)> = Vec::new();
        let mut i: usize = 0;
        #[verifier::loop_isolation(false)]
        while i < n
            invariant
                i <= n,
                v@ == self@.take(i as int),
            decreases n - i,
        {
            v.push((self.entries[i].0.clone(), self.entries[i].1.clone()));
            proof {
                assert(v@ =~= self@.take(i + 1int));
            }
            i = i + 1;
        }
        proof {
            assert(self@.take(n as int) =~= self@);
        }
        AttrMap { entries: v }
    }

    /// The value bound to `k`, if any.
    pub fn get(&self, k: &String) -> (r: Option<&String>)
        ensures
            match r {
                Some(v) => lookup(self@, k@) == Some(v@),
                None => !has_key(self@, k@),
            },
    {
        proof {
            use_type_invariant(self);
        }
        let n = self.entries.len();
        let mut i: usize = 0;
        #[verifier::loop_isolation(false)]
        while i < n
            invariant
                n == self@.len(),
                i <= n,
                self.wf(),
                forall|j: int| 0 <= j < i ==> self@[j].0@ != k@,
            decreases n - i,
        {
            if (&self.entries[i].0).eq(k) {
                proof {
                    lemma_lookup_at(self@, i as int);
                }
                return Some(&self.entries[i].1);
            }
            i = i + 1;
        }
        None
    }

    /// Binds `k` to `v`, replacing any existing binding of `k` and otherwise
    /// appending a new entry.
    pub fn insert(&mut self, k: String, v: String)
        ensures
            has_key(final(self)@, k@),
            lookup(final(self)@, k@) == Some(v@),
            forall|q: Seq<char>| q != k@ ==> lookup(final(self)@, q) == lookup(old(self)@, q),
            final(self)@.len() == old(self)@.len() + (if has_key(old(self)@, k@) {
                0int
            } else {
                1int
            }),
    {
        proof {
            use_type_invariant(&*self);
        }
        let ghost s0 = old(self)@;
        let n = self.entries.len();
        let mut i: usize = 0;
        #[verifier::loop_isolation(false)]
        while i < n
            invariant
                self@ == s0,
                n == s0.len(),
                i <= n,
                keys_distinct(s0),
                forall|j: int| 0 <= j < i ==> s0[j].0@ != k@,
            decreases n - i,
        {
            if (&self.entries[i].0).eq(&k) {
                let kk = self.entries[i].0.clone();
                let mut entries: Vec<(String, String)> = Vec::new();
                core::mem::swap(&mut entries, &mut self.entries);
                entries[i] = (kk, v);
                proof {
                    assert(entries@ == s0.update(i as int, (s0[i as int].0, v)));
                    assert forall|x: int, y: int| 0 <= x < y < entries@.len() implies entries@[x].0@
                        != entries@[y].0@ by {
                        assert(entries@[x].0@ == s0[x].0@ && entries@[y].0@ == s0[y].0@);
                    }
                }
                core::mem::swap(&mut entries, &mut self.entries);
                proof {
                    let s1 = self@;
                    assert(s1 == s0.update(i as int, (s0[i as int].0, v)));
                    assert forall|x: int, y: int| 0 <= x < y < s1.len() implies s1[x].0@
                        != s1[y].0@ by {
                        assert(s1[x].0@ == s0[x].0@ && s1[y].0@ == s0[y].0@);
                    }
                    lemma_lookup_at(s1, i as int);
                    assert forall|q: Seq<char>| q != k@ implies lookup(s1, q) == lookup(
                        s0,
                        q,
                    ) by {
                        assert(forall|j: int|
                            0 <= j < s1.len() ==> s1[j].0@ == s0[j].0@);
                        if has_key(s0, q) {
                            let x = key_index(s0, q);
                            assert(s1[x].0@ == q);
                            assert(has_key(s1, q));
                            lemma_lookup_at(s1, x);
                            assert(x != i);
                            assert(s1[x].1@ == s0[x].1@);
                        } else {
                            assert(!has_key(s1, q));
                        }
                    }
                    assert(has_key(s0, k@));
                }
                return ;
            }
            i = i + 1;
        }
        let mut entries: Vec<(String, String)> = Vec::new();
        core::mem::swap(&mut entries, &mut self.entries);
        entries.push((k, v));
        core::mem::swap(&mut entries, &mut self.entries);
        proof {
            let s1 = self@;
            assert(!has_key(s0, k@));
            assert(s1[s0.len() as int].0@ == k@);
            assert forall|x: int, y: int| 0 <= x < y < s1.len() implies s1[x].0@ != s1[y].0@ by {
                if y < s0.len() {
                    assert(s1[x].0@ == s0[x].0@ && s1[y].0@ == s0[y].0@);
                } else {
                    assert(s1[x].0@ == s0[x].0@ && s1[y].0@ == k@);
                    assert(s0[x].0@ != k@);
                }
            }
            lemma_lookup_at(s1, s0.len() as int);
            assert forall|q: Seq<char>| q != k@ implies lookup(s1, q) == lookup(s0, q) by {
                if has_key(s0, q) {
                    let x = key_index(s0, q);
                    assert(s1[x].0@ == q);
                    lemma_lookup_at(s1, x);
                    lemma_lookup_at(s0, x);
                } else {
                    if has_key(s1, q) {
                        let x = key_index(s1, q);
                        assert(0 <= x < s1.len() && s1[x].0@ == q);
                        assert(x == s0.len());
                    }
                }
            }
        }
    }

    /// Drops the binding of `k`, if any; every other binding is kept.
    pub fn remove(&mut self, k: &String)
        ensures
            !has_key(final(self)@, k@),
            forall|q: Seq<char>| q != k@ ==> lookup(final(self)@, q) == lookup(old(self)@, q),
            final(self)@.len() == old(self)@.len() - (if has_key(old(self)@, k@) {
                1int
            } else {
                0int
            }),
    {
        proof {
            use_type_invariant(&*self);
        }
        let ghost s0 = old(self)@;
        let n = self.entries.len();
        let mut i: usize = 0;
        #[verifier::loop_isolation(false)]
        while i < n
            invariant
                self@ == s0,
                i <= n,
                keys_distinct(s0),
                forall|j: int| 0 <= j < i ==> s0[j].0@ != k@,
            decreases n - i,
        {
            if (&self.entries[i].0).eq(k) {
                let mut entries: Vec<(String, String)> = Vec::new();
                core::mem::swap(&mut entries, &mut self.entries);
                entries.remove(i);
                core::mem::swap(&mut entries, &mut self.entries);
                proof {
                    let s1 = self@;
                    assert(s1 == s0.remove(i as int));
                    assert(forall|j: int|
                        0 <= j < s1.len() ==> s1[j] == (if j < i { s0[j] } else { s0[j + 1] }));
                    assert forall|x: int, y: int| 0 <= x < y < s1.len() implies s1[x].0@
                        != s1[y].0@ by {}
                    assert forall|q: Seq<char>| q != k@ implies lookup(s1, q) == lookup(
                        s0,
                        q,
                    ) by {
                        if has_key(s0, q) {
                            let x = key_index(s0, q);
                            assert(s0[x].0@ == q);
                            assert(x != i);
                            let x1: int = if x < i {
                                x
                            } else {
                                x - 1
                            };
                            assert(s1[x1].0@ == q);
                            lemma_lookup_at(s1, x1);
                            lemma_lookup_at(s0, x);
                        } else {
                            if has_key(s1, q) {
                                let x = key_index(s1, q);
                                assert(s1[x].0@ == q);
                                assert(if x < i {
                                    s0[x].0@ == q
                                } else {
                                    s0[x + 1].0@ == q
                                });
                            }
                        }
                    }
                    assert forall|x: int| 0 <= x < s1.len() implies s1[x].0@ != k@ by {
                        if x >= i {
                            assert(s1[x] == s0[x + 1]);
                        }
                    }
                    assert(has_key(s0, k@));
                }
                return ;
            }
            i = i + 1;
        }
    }

    /// The entries of `self` that are new or changed with respect to `old`:
    /// what a commit must write to the host element.
    pub fn to_set(&self, old: &AttrMap) -> (r: Vec<(String, String)>)
        ensures
            r@ == set_diff(self@, old@),
    {
        proof {
            use_type_invariant(old);
        }
        let n = self.entries.len();
        let mut r: Vec<(String, String)> = Vec::new();
        let mut i: usize = 0;
        #[verifier::loop_isolation(false)]
        while i < n
            invariant
                n == self@.len(),
                i <= n,
                old.wf(),
                r@ == set_diff(self@.take(i as int), old@),
            decreases n - i,
        {
            let p = &self.entries[i];
            let unchanged = match old.get(&p.0) {
                Some(v) => v.eq(&p.1),
                None => false,
            };
            proof {
                assert(self@.take(i + 1int).drop_last() =~= self@.take(i as int));
                assert(self@.take(i + 1int).last() == self@[i as int]);
            }
            if !unchanged {
                r.push((p.0.clone(), p.1.clone()));
            }
            i = i + 1;
        }
        proof {
            assert(self@.take(n as int) =~= self@);
        }
        r
    }

    /// The attribute names bound in `old` that `self` no longer binds: what a
    /// commit must remove from the host element.
    pub fn to_remove(&self, old: &AttrMap) -> (r: Vec<String>)
        ensures
            r@ == remove_diff(old@, self@),
    {
        proof {
            use_type_invariant(self);
        }
        let n = old.entries.len();
        let mut r: Vec<String> = Vec::new();
        let mut i: usize = 0;
        #[verifier::loop_isolation(false)]
        while i < n
            invariant
                n == old@.len(),
                i <= n,
                self.wf(),
                r@ == remove_diff(old@.take(i as int), self@),
            decreases n - i,
        {
            let p = &old.entries[i];
            proof {
                assert(old@.take(i + 1int).drop_last() =~= old@.take(i as int));
                assert(old@.take(i + 1int).last() == old@[i as int]);
            }
            match self.get(&p.0) {
                Some(_) => {},
                None => {
                    r.push(p.0.clone());
                },
            }
            i = i + 1;
        }
        proof {
            assert(old@.take(n as int) =~= old@);
        }
        r
    }
}

} // verus!
