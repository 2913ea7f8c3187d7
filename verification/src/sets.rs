//! Small sets kept in insertion order: one of outputs, one of hashes.
//!
//! Both hold their members in a vector in which nothing occurs twice, so
//! that walking a set always yields the same order.

use crate::transaction::Output;
use vstd::prelude::*;

verus! {

/// A set of outputs.
#[derive(Debug)]
pub struct OutputSet {
    items: Vec<Output>,
}

impl View for OutputSet {
    type V = Set<Output>;

    closed spec fn view(&self) -> Set<Output> {
        self.items@.to_set()
    }
}

impl OutputSet {
    /// The members in the order in which the set is walked.
    pub closed spec fn order(&self) -> Seq<Output> {
        self.items@
    }

    /// Nothing occurs twice in the walk.
    pub closed spec fn wf(&self) -> bool {
        self.items@.no_duplicates()
    }

    /// The walk of a well-formed set lists exactly its members, each once.
    pub proof fn lemma_order(&self)
        ensures
            self.order().to_set() == self@,
            self.wf() ==> self.order().no_duplicates(),
            self@.finite(),
    {
        vstd::seq_lib::seq_to_set_is_finite(self.items@);
    }

    /// The empty set.
    pub fn new() -> (s: Self)
        ensures
            s.wf(),
            s@ == Set::<Output>::empty(),
            s.order() == Seq::<Output>::empty(),
    {
        let s = OutputSet { items: Vec::new() };
        assert(s.items@.to_set() =~= Set::<Output>::empty());
        s
    }

    /// The number of members.
    pub fn len(&self) -> (n: usize)
        ensures
            n == self.order().len(),
            self.wf() ==> n == self@.len(),
    {
        proof {
            if self.wf() {
                self.items@.unique_seq_to_set();
            }
        }
        self.items.len()
    }

    /// Whether `item` is a member.
    pub fn contains(&self, item: &Output) -> (found: bool)
        ensures
            found == self@.contains(*item),
    {
        let mut i: usize = 0;
        while i < self.items.len()
            invariant
                i <= self.items.len(),
                forall|j: int| 0 <= j < i ==> self.items@[j] != *item,
            decreases self.items.len() - i,
        {
            if self.items[i] == *item {
                assert(self.items@.contains(*item));
                return true;
            }
            i = i + 1;
        }
        false
    }

    /// Adds `item`; says whether it was new.
    pub fn insert(&mut self, item: Output) -> (added: bool)
        requires
            old(self).wf(),
        ensures
            final(self).wf(),
            final(self)@ == old(self)@.insert(item),
            added == !old(self)@.contains(item),
            final(self).order() == if added {
                old(self).order().push(item)
            } else {
                old(self).order()
            },
    {
        if self.contains(&item) {
            assert(self@.insert(item) =~= self@);
            false
        } else {
            proof {
                self.items@.lemma_push_to_set_commute(item);
            }
            self.items.push(item);
            true
        }
    }

    /// Adds every output of `items`.
    pub fn extend_from(&mut self, items: &Vec<Output>)
        requires
            old(self).wf(),
        ensures
            final(self).wf(),
            final(self)@ == old(self)@.union(items@.to_set()),
    {
        let mut i: usize = 0;
        while i < items.len()
            invariant
                i <= items.len(),
                self.wf(),
                self@ == old(self)@.union(items@.take(i as int).to_set()),
            decreases items.len() - i,
        {
            let ghost before = self@;
            self.insert(items[i]);
            proof {
                let next = items@.take(i + 1);
                assert(next =~= items@.take(i as int).push(items@[i as int]));
                items@.take(i as int).lemma_push_to_set_commute(items@[i as int]);
                assert(self@ =~= old(self)@.union(next.to_set()));
            }
            i = i + 1;
        }
        assert(items@.take(i as int) =~= items@);
    }

    /// Adds every member of `other`.
    pub fn union_with(&mut self, other: &OutputSet)
        requires
            old(self).wf(),
        ensures
            final(self).wf(),
            final(self)@ == old(self)@.union(other@),
    {
        self.extend_from(&other.items);
    }

    /// Removes every member of `other`, keeping the order of the rest.
    pub fn remove_all(&mut self, other: &OutputSet)
        requires
            old(self).wf(),
        ensures
            final(self).wf(),
            final(self)@ == old(self)@.difference(other@),
    {
        let mut kept: Vec<Output> = Vec::new();
        let mut i: usize = 0;
        while i < self.items.len()
            invariant
                i <= self.items.len(),
                self.items@.no_duplicates(),
                kept@.no_duplicates(),
                forall|o: Output|
                    kept@.contains(o) <==> (self.items@.take(i as int).contains(o)
                        && !other@.contains(o)),
            decreases self.items.len() - i,
        {
            let item = self.items[i];
            proof {
                let next = self.items@.take(i + 1);
                assert(next =~= self.items@.take(i as int).push(item));
                assert forall|o: Output| next.contains(o) <==> (self.items@.take(
                    i as int,
                ).contains(o) || o == item) by {
                    if next.contains(o) {
                        let j = choose|j: int| 0 <= j < next.len() && next[j] == o;
                        if j < i {
                            assert(self.items@.take(i as int)[j] == o);
                        }
                    }
                    if self.items@.take(i as int).contains(o) {
                        let j = choose|j: int|
                            0 <= j < i && self.items@.take(i as int)[j] == o;
                        assert(next[j] == o);
                    }
                    if o == item {
                        assert(next[i as int] == o);
                    }
                }
                assert(!self.items@.take(i as int).contains(item)) by {
                    if self.items@.take(i as int).contains(item) {
                        let j = choose|j: int|
                            0 <= j < i && self.items@.take(i as int)[j] == item;
                        assert(self.items@[j] == self.items@[i as int]);
                    }
                }
            }
            let ghost prev = kept@;
            if !other.contains(&item) {
                kept.push(item);
                proof {
                    assert(!prev.contains(item));
                    assert forall|o: Output| kept@.contains(o) <==> (prev.contains(o) || o
                        == item) by {
                        if prev.contains(o) {
                            let j = choose|j: int| 0 <= j < prev.len() && prev[j] == o;
                            assert(kept@[j] == o);
                        }
                        if o == item {
                            assert(kept@[prev.len() as int] == o);
                        }
                    }
                }
            }
            proof {
                let next = self.items@.take(i + 1);
                assert forall|o: Output| kept@.contains(o) <==> (next.contains(o)
                    && !other@.contains(o)) by {
                    assert(prev.contains(o) <==> (self.items@.take(i as int).contains(o)
                        && !other@.contains(o)));
                    assert(next.contains(o) <==> (self.items@.take(i as int).contains(o) || o
                        == item));
                }
            }
            i = i + 1;
        }
        proof {
            assert(self.items@.take(i as int) =~= self.items@);
            assert(kept@.to_set() =~= self.items@.to_set().difference(other@));
        }
        self.items = kept;
    }

    /// Whether every member is a member of `other`.
    pub fn is_subset_of(&self, other: &OutputSet) -> (b: bool)
        ensures
            b == self@.subset_of(other@),
    {
        let mut i: usize = 0;
        while i < self.items.len()
            invariant
                i <= self.items.len(),
                forall|j: int| 0 <= j < i ==> other@.contains(self.items@[j]),
            decreases self.items.len() - i,
        {
            if !other.contains(&self.items[i]) {
                assert(self@.contains(self.items@[i as int]));
                return false;
            }
            i = i + 1;
        }
        true
    }

    /// Whether no member is a member of `other`.
    pub fn is_disjoint_from(&self, other: &OutputSet) -> (b: bool)
        ensures
            b == self@.disjoint(other@),
    {
        let mut i: usize = 0;
        while i < self.items.len()
            invariant
                i <= self.items.len(),
                forall|j: int| 0 <= j < i ==> !other@.contains(self.items@[j]),
            decreases self.items.len() - i,
        {
            if other.contains(&self.items[i]) {
                assert(self@.contains(self.items@[i as int]));
                return false;
            }
            i = i + 1;
        }
        true
    }

    /// The members as a list, in the order of the walk.
    pub fn to_vec(&self) -> (list: Vec<Output>)
        ensures
            list@ == self.order(),
    {
        let list = self.items.clone();
        assert(list@ =~= self.items@);
        list
    }
}

impl Clone for OutputSet {
    fn clone(&self) -> (copy: Self)
        ensures
            copy@ == self@,
            copy.order() == self.order(),
            copy.wf() == self.wf(),
    {
        let items = self.items.clone();
        assert(items@ =~= self.items@);
        OutputSet { items }
    }
}

/// A set of block hashes.
#[derive(Debug)]
pub struct Hashes {
    items: Vec<String>,
}

impl View for Hashes {
    type V = Set<Seq<char>>;

    closed spec fn view(&self) -> Set<Seq<char>> {
        self.order().to_set()
    }
}

impl Hashes {
    /// The members in the order in which the set is walked.
    pub closed spec fn order(&self) -> Seq<Seq<char>> {
        Seq::new(self.items@.len(), |i: int| self.items@[i]@)
    }

    /// Nothing occurs twice in the walk.
    pub closed spec fn wf(&self) -> bool {
        self.order().no_duplicates()
    }

    /// The walk of a well-formed set lists exactly its members, each once.
    pub proof fn lemma_order(&self)
        ensures
            self.order().to_set() == self@,
            self.wf() ==> self.order().no_duplicates(),
            self@.finite(),
    {
        vstd::seq_lib::seq_to_set_is_finite(self.order());
    }

    /// The empty set.
    pub fn new() -> (s: Self)
        ensures
            s.wf(),
            s@ == Set::<Seq<char>>::empty(),
            s.order() == Seq::<Seq<char>>::empty(),
    {
        let s = Hashes { items: Vec::new() };
        assert(s.order() =~= Seq::<Seq<char>>::empty());
        assert(s.order().to_set() =~= Set::<Seq<char>>::empty());
        s
    }

    /// The number of members.
    pub fn len(&self) -> (n: usize)
        ensures
            n == self.order().len(),
            self.wf() ==> n == self@.len(),
    {
        proof {
            if self.wf() {
                self.order().unique_seq_to_set();
            }
        }
        self.items.len()
    }

    /// Whether `hash` is a member.
    pub fn contains(&self, hash: &String) -> (found: bool)
        ensures
            found == self@.contains(hash@),
    {
        let mut i: usize = 0;
        while i < self.items.len()
            invariant
                i <= self.items.len(),
                forall|j: int| 0 <= j < i ==> self.order()[j] != hash@,
            decreases self.items.len() - i,
        {
            if self.items[i] == *hash {
                assert(self.order()[i as int] == hash@);
                assert(self.order().contains(hash@));
                return true;
            }
            i = i + 1;
        }
        false
    }

    /// Adds `hash`; says whether it was new.
    pub fn insert(&mut self, hash: String) -> (added: bool)
        requires
            old(self).wf(),
        ensures
            final(self).wf(),
            final(self)@ == old(self)@.insert(hash@),
            added == !old(self)@.contains(hash@),
            final(self).order() == if added {
                old(self).order().push(hash@)
            } else {
                old(self).order()
            },
    {
        if self.contains(&hash) {
            assert(self@.insert(hash@) =~= self@);
            false
        } else {
            let ghost before = self.order();
            proof {
                before.lemma_push_to_set_commute(hash@);
            }
            self.items.push(hash);
            assert(self.order() =~= before.push(hash@));
            true
        }
    }

    /// The members that are not members of `other`, in the order of the walk.
    pub fn without(&self, other: &Hashes) -> (rest: Hashes)
        requires
            self.wf(),
        ensures
            rest.wf(),
            rest@ == self@.difference(other@),
    {
        let mut rest = Hashes::new();
        let mut i: usize = 0;
        while i < self.items.len()
            invariant
                i <= self.items.len(),
                rest.wf(),
                forall|h: Seq<char>|
                    rest@.contains(h) <==> (self.order().take(i as int).contains(h)
                        && !other@.contains(h)),
            decreases self.items.len() - i,
        {
            let ghost prev = rest@;
            proof {
                let next = self.order().take(i + 1);
                let item = self.items@[i as int]@;
                assert(next =~= self.order().take(i as int).push(item));
                assert forall|h: Seq<char>| next.contains(h) <==> (self.order().take(
                    i as int,
                ).contains(h) || h == item) by {
                    if next.contains(h) {
                        let j = choose|j: int| 0 <= j < next.len() && next[j] == h;
                        if j < i {
                            assert(self.order().take(i as int)[j] == h);
                        }
                    }
                    if self.order().take(i as int).contains(h) {
                        let j = choose|j: int|
                            0 <= j < i && self.order().take(i as int)[j] == h;
                        assert(next[j] == h);
                    }
                    if h == item {
                        assert(next[i as int] == h);
                    }
                }
            }
            if !other.contains(&self.items[i]) {
                rest.insert(self.items[i].clone());
            }
            proof {
                let next = self.order().take(i + 1);
                let item = self.items@[i as int]@;
                assert forall|h: Seq<char>| rest@.contains(h) <==> (next.contains(h)
                    && !other@.contains(h)) by {
                    assert(prev.contains(h) <==> (self.order().take(i as int).contains(h)
                        && !other@.contains(h)));
                    assert(next.contains(h) <==> (self.order().take(i as int).contains(h) || h
                        == item));
                }
            }
            i = i + 1;
        }
        proof {
            assert(self.order().take(i as int) =~= self.order());
            assert(rest@ =~= self@.difference(other@));
        }
        rest
    }

    /// The members as a list, in the order of the walk.
    pub fn to_vec(&self) -> (list: Vec<String>)
        ensures
            list@.len() == self.order().len(),
            forall|i: int| 0 <= i < list@.len() ==> list@[i]@ == self.order()[i],
    {
        let list = self.items.clone();
        list
    }
}

impl Clone for Hashes {
    fn clone(&self) -> (copy: Self)
        ensures
            copy@ == self@,
            copy.order() == self.order(),
            copy.wf() == self.wf(),
    {
        let items = self.items.clone();
        let copy = Hashes { items };
        assert(copy.order() =~= self.order());
        copy
    }
}

} // verus!
