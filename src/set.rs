//! The set container: either unallocated (no elements, no storage) or
//! populated (a non-empty hash-indexed table of distinct elements).
use vstd::prelude::*;

use crate::element::{joined, push_joined, Element};
use crate::frozen::FrozenSet;
use crate::handle::{
    copy_all, distinct, lemma_distinct_len, lemma_member_at, lemma_members_full,
    lemma_members_prefix, members, views,
};
use crate::table::Table;
use crate::model::{
    compares, difference_of, intersection_of, symmetric_difference, union_of, Comparison,
};

verus! {

/// A mutable set that holds storage only while it has elements.
///
/// `COLLECTABLE` tells the two variants apart: only the collectable one
/// offers the hooks that a cycle collector calls.
#[derive(Debug)]
pub struct CompactSet<T, const COLLECTABLE: bool> {
    inner: Option<Table<T>>,
}

/// The variant that takes part in cycle collection.
pub type NanoSet<T> = CompactSet<T, true>;

/// The variant for sets that are never part of a reference cycle.
pub type PicoSet<T> = CompactSet<T, false>;

/// Why a removal failed.
#[derive(Debug)]
pub enum SetError<T> {
    /// The element asked for is not in the set.
    NotFound(T),
    /// The set has no element to take.
    EmptyCollection,
}

impl<T: Element, const C: bool> View for CompactSet<T, C> {
    type V = Set<T::V>;

    closed spec fn view(&self) -> Set<T::V> {
        match self.inner {
            None => Set::empty(),
            Some(t) => members(t.entries()),
        }
    }
}

impl<T: Element, const C: bool> Default for CompactSet<T, C> {
    /// The empty set.
    fn default() -> (r: Self)
        ensures
            r.wf(),
            r@ == Set::<T::V>::empty(),
            !r.allocated(),
    {
        Self::new()
    }
}

/// The elements that a saved state describes: none for the no-state
/// marker, else the elements it lists.
pub open spec fn state_members<T: View>(state: Option<Vec<T>>) -> Set<T::V> {
    match state {
        None => Set::empty(),
        Some(v) => members(v@),
    }
}

/// The element sets of a sequence of sets.
pub open spec fn sets_of<T: Element, const C: bool>(s: Seq<CompactSet<T, C>>) -> Seq<Set<T::V>> {
    s.map_values(|x: CompactSet<T, C>| x@)
}

/// Every set of the sequence keeps the representation invariant.
pub open spec fn all_wf<T: Element, const C: bool>(s: Seq<CompactSet<T, C>>) -> bool {
    forall|i: int| 0 <= i < s.len() ==> (#[trigger] s[i]).wf()
}

impl<T: Element, const C: bool> CompactSet<T, C> {
    /// The representation invariant: storage is held exactly when there are
    /// elements, and no element is stored twice.
    pub closed spec fn wf(&self) -> bool {
        match self.inner {
            None => true,
            Some(t) => t.wf() && t.entries().len() > 0,
        }
    }

    /// Whether the set holds storage.
    pub closed spec fn allocated(&self) -> bool {
        self.inner is Some
    }

    /// The elements in the order in which the set hands them out.
    pub closed spec fn order(&self) -> Seq<T> {
        match self.inner {
            None => Seq::empty(),
            Some(t) => t.entries(),
        }
    }

    /// The order holds each element once, and the elements are the set.
    pub proof fn lemma_order(&self)
        requires
            self.wf(),
        ensures
            distinct(self.order()),
            members(self.order()) == self@,
            self.order().len() == self@.len(),
            self@.finite(),
            self@.len() == 0 <==> !self.allocated(),
    {
        if let Some(t) = self.inner {
            t.lemma_distinct();
        }
        lemma_distinct_len(self.order());
        if self.inner is None {
            assert(members(self.order()) =~= Set::empty());
        }
    }

    /// All unallocated sets are one and the same value.
    pub proof fn lemma_unallocated_unique(&self, other: &Self)
        requires
            !self.allocated(),
            !other.allocated(),
        ensures
            *self == *other,
    {
    }

    /// Keeps table `t` as the new contents: as storage when it has
    /// elements, as the unallocated state when it has none.
    fn settle(&mut self, t: Table<T>)
        requires
            t.wf(),
        ensures
            final(self).wf(),
            final(self)@ == members(t.entries()),
            final(self).order() == t.entries(),
    {
        if t.len() == 0 {
            self.inner = None;
            assert(members(t.entries()) =~= Set::empty());
            assert(t.entries() =~= Seq::empty());
        } else {
            self.inner = Some(t);
        }
    }

    /// Takes the contents out as a table, leaving the set unallocated.
    fn take_table(&mut self) -> (t: Table<T>)
        requires
            old(self).wf(),
        ensures
            t.wf(),
            t.entries() == old(self).order(),
            final(self).inner is None,
    {
        match self.inner.take() {
            None => {
                let t = Table::from_distinct(Vec::new());
                assert(t.entries() =~= Seq::<T>::empty());
                t
            },
            Some(t) => t,
        }
    }

    /// The stored elements, if the set holds storage.
    fn storage(&self) -> (r: Option<&Vec<T>>)
        requires
            self.wf(),
        ensures
            match r {
                None => !self.allocated() && self@ == Set::<T::V>::empty(),
                Some(v) => self.allocated() && v@ == self.order() && self@ == members(v@)
                    && distinct(v@) && v@.len() > 0,
            },
    {
        match &self.inner {
            None => None,
            Some(t) => {
                proof {
                    t.lemma_distinct();
                }
                Some(t.entries_ref())
            },
        }
    }

    /// An empty set.
    pub fn new() -> (r: Self)
        ensures
            r.wf(),
            r@ == Set::<T::V>::empty(),
            !r.allocated(),
    {
        CompactSet { inner: None }
    }

    /// The set of the distinct elements of `items`.
    pub fn from_items(items: &[T]) -> (r: Self)
        ensures
            r.wf(),
            r@ == members(items@),
    {
        let t = Table::collect(items);
        let mut r = Self::new();
        r.settle(t);
        r
    }

    /// Whether the set holds storage; false exactly when it is empty.
    pub fn is_allocated(&self) -> (r: bool)
        ensures
            r == self.allocated(),
    {
        self.inner.is_some()
    }

    /// The number of elements.
    pub fn len(&self) -> (r: usize)
        requires
            self.wf(),
        ensures
            r == self@.len(),
    {
        proof {
            self.lemma_order();
        }
        match &self.inner {
            None => 0,
            Some(t) => t.len(),
        }
    }

    /// Whether the set has no elements.
    pub fn is_empty(&self) -> (r: bool)
        requires
            self.wf(),
        ensures
            r == (self@.len() == 0),
    {
        proof {
            self.lemma_order();
        }
        self.inner.is_none()
    }

    /// Whether `x` is an element. An empty set answers without looking at `x`.
    pub fn contains(&self, x: &T) -> (r: bool)
        requires
            self.wf(),
        ensures
            r == self@.contains(x@),
    {
        match &self.inner {
            None => false,
            Some(t) => match t.find(x) {
                Some(i) => {
                    proof {
                        lemma_member_at(t.entries(), i as int);
                    }
                    true
                },
                None => false,
            },
        }
    }

    /// Adds `x`.
    pub fn add(&mut self, x: T)
        requires
            old(self).wf(),
        ensures
            final(self).wf(),
            final(self)@ == old(self)@.insert(x@),
    {
        proof {
            self.lemma_order();
        }
        let mut t = self.take_table();
        t.insert(x);
        self.settle(t);
    }

    /// Removes `x` if it is an element; changes nothing otherwise.
    pub fn discard(&mut self, x: &T)
        requires
            old(self).wf(),
        ensures
            final(self).wf(),
            final(self)@ == old(self)@.remove(x@),
            !old(self)@.contains(x@) ==> *final(self) == *old(self),
    {
        if self.contains(x) {
            proof {
                self.lemma_order();
            }
            let mut t = self.take_table();
            t.take_out(x);
            self.settle(t);
        } else {
            assert(self@.remove(x@) =~= self@);
        }
    }

    /// Removes `x`, which must be an element; fails with `NotFound` otherwise
    /// and leaves the set as it was.
    pub fn remove(&mut self, x: &T) -> (r: Result<(), SetError<T>>)
        requires
            old(self).wf(),
        ensures
            final(self).wf(),
            r is Ok <==> old(self)@.contains(x@),
            r is Ok ==> final(self)@ == old(self)@.remove(x@),
            r is Err ==> *final(self) == *old(self),
            match r {
                Err(SetError::NotFound(e)) => e@ == x@,
                Err(SetError::EmptyCollection) => false,
                Ok(()) => true,
            },
    {
        if self.contains(x) {
            self.discard(x);
            Ok(())
        } else {
            Err(SetError::NotFound(x.duplicate()))
        }
    }

    /// Takes out and returns one element; fails with `EmptyCollection` on an
    /// empty set.
    pub fn pop(&mut self) -> (r: Result<T, SetError<T>>)
        requires
            old(self).wf(),
        ensures
            final(self).wf(),
            r is Ok <==> old(self)@.len() > 0,
            match r {
                Ok(e) => old(self)@.contains(e@) && final(self)@ == old(self)@.remove(e@),
                Err(SetError::EmptyCollection) => *final(self) == *old(self),
                Err(SetError::NotFound(_)) => false,
            },
    {
        proof {
            self.lemma_order();
        }
        if self.inner.is_none() {
            return Err(SetError::EmptyCollection);
        }
        let mut t = self.take_table();
        let ghost before = t.entries();
        let last = t.len() - 1;
        proof {
            crate::handle::lemma_remove(before, last as int);
            lemma_member_at(before, last as int);
            assert(before.remove(last as int) =~= before.drop_last());
        }
        let e = t.pop_last();
        self.settle(t);
        Ok(e)
    }

    /// Removes every element and releases the storage.
    pub fn clear(&mut self)
        ensures
            final(self).wf(),
            final(self)@ == Set::<T::V>::empty(),
            !final(self).allocated(),
    {
        self.inner = None;
    }

    /// An independent set with the same elements, handed out in the same order.
    pub fn copy(&self) -> (r: Self)
        requires
            self.wf(),
        ensures
            r.wf(),
            r@ == self@,
            r.allocated() == self.allocated(),
            views(r.order()) == views(self.order()),
    {
        match &self.inner {
            None => Self::new(),
            Some(t) => {
                let c = t.copy();
                proof {
                    assert(c.entries().len() == views(c.entries()).len());
                    assert(t.entries().len() == views(t.entries()).len());
                }
                CompactSet { inner: Some(c) }
            },
        }
    }

    /// Adds every element of `other`.
    fn absorb(&mut self, other: &Self)
        requires
            old(self).wf(),
            other.wf(),
        ensures
            final(self).wf(),
            final(self)@ == old(self)@.union(other@),
    {
        let ghost start = self@;
        match other.storage() {
            None => {
                assert(start.union(Set::empty()) =~= start);
            },
            Some(v) => {
                proof {
                    lemma_members_full(v@);
                    assert(start.union(Set::empty()) =~= start);
                }
                let mut j: usize = 0;
                while j < v.len()
                    invariant
                        self.wf(),
                        j <= v@.len(),
                        self@ == start.union(members(v@.subrange(0, j as int))),
                    decreases v@.len() - j,
                {
                    proof {
                        lemma_members_prefix(v@, j as int);
                    }
                    let e = v[j].duplicate();
                    self.add(e);
                    assert(self@ =~= start.union(members(v@.subrange(0, j + 1))));
                    j = j + 1;
                }
                proof {
                    lemma_members_full(v@);
                }
            },
        }
    }

    /// Keeps the elements that `other` also has (`common`), or those that it
    /// lacks (`!common`).
    fn retain(&mut self, other: &Self, common: bool)
        requires
            old(self).wf(),
            other.wf(),
        ensures
            final(self).wf(),
            final(self)@ == if common {
                old(self)@.intersect(other@)
            } else {
                old(self)@.difference(other@)
            },
    {
        proof {
            self.lemma_order();
        }
        let ghost start = self@;
        let source = self.take_table();
        let v = source.entries_ref();
        let mut w = Table::from_distinct(Vec::new());
        let mut j: usize = 0;
        proof {
            lemma_members_full(v@);
            assert(members(w.entries()) =~= Set::<T::V>::empty());
            assert(Set::<T::V>::empty().intersect(other@) =~= Set::<T::V>::empty());
            assert(Set::<T::V>::empty().difference(other@) =~= Set::<T::V>::empty());
        }
        while j < v.len()
            invariant
                j <= v@.len(),
                other.wf(),
                w.wf(),
                members(w.entries()) == if common {
                    members(v@.subrange(0, j as int)).intersect(other@)
                } else {
                    members(v@.subrange(0, j as int)).difference(other@)
                },
            decreases v@.len() - j,
        {
            proof {
                lemma_members_prefix(v@, j as int);
            }
            let inside = other.contains(&v[j]);
            if inside == common {
                let e = v[j].duplicate();
                w.insert(e);
            }
            if common {
                assert(members(w.entries()) =~= members(v@.subrange(0, j + 1)).intersect(
                    other@,
                ));
            } else {
                assert(members(w.entries()) =~= members(v@.subrange(0, j + 1)).difference(
                    other@,
                ));
            }
            j = j + 1;
        }
        proof {
            lemma_members_full(v@);
        }
        self.settle(w);
    }

    /// Adds every element of every set of `others`.
    pub fn update(&mut self, others: &[Self])
        requires
            old(self).wf(),
            all_wf(others@),
        ensures
            final(self).wf(),
            final(self)@ == union_of(old(self)@, sets_of(others@)),
    {
        let ghost start = self@;
        let ghost all = sets_of(others@);
        let mut i: usize = 0;
        assert(all.subrange(0, 0) =~= Seq::<Set<T::V>>::empty());
        while i < others.len()
            invariant
                self.wf(),
                i <= others@.len(),
                all == sets_of(others@),
                all_wf(others@),
                self@ == union_of(start, all.subrange(0, i as int)),
            decreases others@.len() - i,
        {
            assert(all.subrange(0, i + 1).drop_last() =~= all.subrange(0, i as int));
            self.absorb(&others[i]);
            i = i + 1;
        }
        assert(all.subrange(0, i as int) =~= all);
    }

    /// Keeps only the elements that every set of `others` has.
    pub fn intersection_update(&mut self, others: &[Self])
        requires
            old(self).wf(),
            all_wf(others@),
        ensures
            final(self).wf(),
            final(self)@ == intersection_of(old(self)@, sets_of(others@)),
    {
        let ghost start = self@;
        let ghost all = sets_of(others@);
        let mut i: usize = 0;
        assert(all.subrange(0, 0) =~= Seq::<Set<T::V>>::empty());
        while i < others.len()
            invariant
                self.wf(),
                i <= others@.len(),
                all == sets_of(others@),
                all_wf(others@),
                self@ == intersection_of(start, all.subrange(0, i as int)),
            decreases others@.len() - i,
        {
            assert(all.subrange(0, i + 1).drop_last() =~= all.subrange(0, i as int));
            self.retain(&others[i], true);
            i = i + 1;
        }
        assert(all.subrange(0, i as int) =~= all);
    }

    /// Removes every element that some set of `others` has.
    pub fn difference_update(&mut self, others: &[Self])
        requires
            old(self).wf(),
            all_wf(others@),
        ensures
            final(self).wf(),
            final(self)@ == difference_of(old(self)@, sets_of(others@)),
    {
        let ghost start = self@;
        let ghost all = sets_of(others@);
        let mut i: usize = 0;
        assert(all.subrange(0, 0) =~= Seq::<Set<T::V>>::empty());
        while i < others.len()
            invariant
                self.wf(),
                i <= others@.len(),
                all == sets_of(others@),
                all_wf(others@),
                self@ == difference_of(start, all.subrange(0, i as int)),
            decreases others@.len() - i,
        {
            assert(all.subrange(0, i + 1).drop_last() =~= all.subrange(0, i as int));
            self.retain(&others[i], false);
            i = i + 1;
        }
        assert(all.subrange(0, i as int) =~= all);
    }

    /// Keeps the elements that are in exactly one of the set and `other`.
    pub fn symmetric_difference_update(&mut self, other: &Self)
        requires
            old(self).wf(),
            other.wf(),
        ensures
            final(self).wf(),
            final(self)@ == symmetric_difference(old(self)@, other@),
    {
        let ghost start = self@;
        proof {
            other.lemma_order();
        }
        match other.storage() {
            None => {
                assert(symmetric_difference(start, Set::empty()) =~= start);
            },
            Some(v) => {
                proof {
                    lemma_members_full(v@);
                    assert(symmetric_difference(start, Set::empty()) =~= start);
                }
                let mut j: usize = 0;
                while j < v.len()
                    invariant
                        self.wf(),
                        j <= v@.len(),
                        distinct(v@),
                        self@ == symmetric_difference(start, members(v@.subrange(0, j as int))),
                    decreases v@.len() - j,
                {
                    let ghost done = members(v@.subrange(0, j as int));
                    proof {
                        lemma_members_prefix(v@, j as int);
                        if done.contains(v@[j as int]@) {
                            let k = crate::handle::lemma_member_index(
                                v@.subrange(0, j as int),
                                v@[j as int]@,
                            );
                            assert(views(v@)[k] == views(v@)[j as int]);
                        }
                    }
                    if self.contains(&v[j]) {
                        self.discard(&v[j]);
                    } else {
                        let e = v[j].duplicate();
                        self.add(e);
                    }
                    assert(self@ =~= symmetric_difference(
                        start,
                        members(v@.subrange(0, j + 1)),
                    ));
                    j = j + 1;
                }
                proof {
                    lemma_members_full(v@);
                }
            },
        }
    }

    /// A new set: the elements of this set and of every set of `others`.
    pub fn union(&self, others: &[Self]) -> (r: Self)
        requires
            self.wf(),
            all_wf(others@),
        ensures
            r.wf(),
            r@ == union_of(self@, sets_of(others@)),
    {
        let mut r = self.copy();
        r.update(others);
        r
    }

    /// A new set: the elements of this set that every set of `others` has.
    pub fn intersection(&self, others: &[Self]) -> (r: Self)
        requires
            self.wf(),
            all_wf(others@),
        ensures
            r.wf(),
            r@ == intersection_of(self@, sets_of(others@)),
    {
        let mut r = self.copy();
        r.intersection_update(others);
        r
    }

    /// A new set: the elements of this set that no set of `others` has.
    pub fn difference(&self, others: &[Self]) -> (r: Self)
        requires
            self.wf(),
            all_wf(others@),
        ensures
            r.wf(),
            r@ == difference_of(self@, sets_of(others@)),
    {
        let mut r = self.copy();
        r.difference_update(others);
        r
    }

    /// A new set: the elements in exactly one of this set and `other`.
    pub fn symmetric_difference(&self, other: &Self) -> (r: Self)
        requires
            self.wf(),
            other.wf(),
        ensures
            r.wf(),
            r@ == symmetric_difference(self@, other@),
    {
        let mut r = self.copy();
        r.symmetric_difference_update(other);
        r
    }

    /// Whether every element of this set is in `other`.
    pub fn issubset(&self, other: &Self) -> (r: bool)
        requires
            self.wf(),
            other.wf(),
        ensures
            r == self@.subset_of(other@),
    {
        match self.storage() {
            None => true,
            Some(v) => {
                proof {
                    lemma_members_full(v@);
                }
                let mut j: usize = 0;
                while j < v.len()
                    invariant
                        j <= v@.len(),
                        other.wf(),
                        self@ == members(v@),
                        members(v@.subrange(0, j as int)).subset_of(other@),
                    decreases v@.len() - j,
                {
                    proof {
                        lemma_members_prefix(v@, j as int);
                    }
                    if !other.contains(&v[j]) {
                        proof {
                            lemma_member_at(v@, j as int);
                        }
                        return false;
                    }
                    j = j + 1;
                }
                proof {
                    lemma_members_full(v@);
                }
                true
            },
        }
    }

    /// Whether every element of `other` is in this set.
    pub fn issuperset(&self, other: &Self) -> (r: bool)
        requires
            self.wf(),
            other.wf(),
        ensures
            r == other@.subset_of(self@),
    {
        other.issubset(self)
    }

    /// Whether this set and `other` have no element in common.
    pub fn isdisjoint(&self, other: &Self) -> (r: bool)
        requires
            self.wf(),
            other.wf(),
        ensures
            r == self@.disjoint(other@),
    {
        match self.storage() {
            None => true,
            Some(v) => {
                proof {
                    lemma_members_full(v@);
                }
                let mut j: usize = 0;
                while j < v.len()
                    invariant
                        j <= v@.len(),
                        other.wf(),
                        self@ == members(v@),
                        members(v@.subrange(0, j as int)).disjoint(other@),
                    decreases v@.len() - j,
                {
                    proof {
                        lemma_members_prefix(v@, j as int);
                    }
                    if other.contains(&v[j]) {
                        proof {
                            lemma_member_at(v@, j as int);
                        }
                        return false;
                    }
                    j = j + 1;
                }
                proof {
                    lemma_members_full(v@);
                }
                true
            },
        }
    }

    /// Compares two sets: `Eq` and `Ne` by their elements, the others by
    /// inclusion. An empty set is below every other set.
    pub fn compare(&self, other: &Self, op: Comparison) -> (r: bool)
        requires
            self.wf(),
            other.wf(),
        ensures
            r == compares(self@, other@, op),
    {
        let below = self.issubset(other);
        let above = other.issubset(self);
        proof {
            if below && above {
                assert(self@ =~= other@);
            }
        }
        match op {
            Comparison::Eq => below && above,
            Comparison::Ne => !(below && above),
            Comparison::Lt => below && !above,
            Comparison::Le => below,
            Comparison::Gt => above && !below,
            Comparison::Ge => above,
        }
    }

    /// The text of the set: `set()` when empty, else its elements in braces.
    pub open spec fn text(&self) -> Seq<char> {
        if self.order().len() == 0 {
            seq!['s', 'e', 't', '(', ')']
        } else {
            seq!['{'] + joined(self.order()) + seq!['}']
        }
    }

    /// The elements, copied, in the order in which the set hands them out.
    /// Each call starts afresh; an empty set gives an empty vector.
    pub fn to_vec(&self) -> (r: Vec<T>)
        requires
            self.wf(),
        ensures
            views(r@) == views(self.order()),
            distinct(r@),
            members(r@) == self@,
            r@.len() == self@.len(),
    {
        proof {
            self.lemma_order();
        }
        match self.storage() {
            None => Vec::new(),
            Some(v) => copy_all(v),
        }
    }

    /// The textual form of the set.
    pub fn repr(&self) -> (r: String)
        requires
            self.wf(),
        ensures
            r@ == self.text(),
    {
        proof {
            reveal_strlit("set()");
            reveal_strlit("{");
            reveal_strlit("}");
        }
        let mut s = String::new();
        match self.storage() {
            None => {
                s.append("set()");
            },
            Some(v) => {
                s.append("{");
                push_joined(&mut s, v);
                s.append("}");
            },
        }
        assert(s@ =~= self.text());
        s
    }

    /// The state to save: `None` for an empty set, else a copy of the elements.
    pub fn snapshot(&self) -> (r: Option<Vec<T>>)
        requires
            self.wf(),
        ensures
            r is None <==> !self.allocated(),
            state_members(r) == self@,
            match r {
                Some(v) => views(v@) == views(self.order()) && distinct(v@),
                None => true,
            },
    {
        match self.storage() {
            None => None,
            Some(v) => Some(copy_all(v)),
        }
    }

    /// Replaces the contents by a saved state: `None`, or the elements to
    /// hold. A state with no elements leaves the set unallocated.
    pub fn restore(&mut self, state: Option<Vec<T>>)
        ensures
            final(self).wf(),
            final(self)@ == state_members(state),
    {
        match state {
            None => {
                self.inner = None;
            },
            Some(v) => {
                let t = Table::collect(v.as_slice());
                self.settle(t);
            },
        }
    }

    /// What rebuilds an equal set through `from_items`: no argument for an
    /// empty set, else one argument, a copy of the elements.
    pub fn reduce(&self) -> (r: Vec<Vec<T>>)
        requires
            self.wf(),
        ensures
            r@.len() == 0 <==> !self.allocated(),
            r@.len() <= 1,
            r@.len() == 1 ==> views(r@[0]@) == views(self.order()) && members(r@[0]@) == self@,
    {
        let mut r: Vec<Vec<T>> = Vec::new();
        match self.storage() {
            None => {},
            Some(v) => {
                r.push(copy_all(v));
            },
        }
        r
    }

    /// The frozen snapshot of the set; an empty set freezes to the empty
    /// frozen set.
    pub fn freeze(&self) -> (r: FrozenSet<T>)
        requires
            self.wf(),
        ensures
            r@ == self@,
    {
        proof {
            self.lemma_order();
        }
        match self.storage() {
            None => {
                let r = FrozenSet::from_distinct(Vec::new());
                assert(members(Seq::<T>::empty()) =~= Set::<T::V>::empty());
                r
            },
            Some(v) => {
                let c = copy_all(v);
                assert(members(c@) =~= members(v@));
                FrozenSet::from_distinct(c)
            },
        }
    }
}

impl<T: Element> CompactSet<T, true> {
    /// The traversal hook of the cycle collector: the storage to visit, if
    /// the set holds any.
    pub fn traverse(&self) -> (r: Option<&Vec<T>>)
        ensures
            r is Some <==> self.allocated(),
            match r {
                Some(v) => v@ == self.order(),
                None => true,
            },
    {
        match &self.inner {
            None => None,
            Some(t) => Some(t.entries_ref()),
        }
    }

    /// The clear hook of the cycle collector: drops the storage, whatever the
    /// set held. Calling it again changes nothing.
    pub fn collector_clear(&mut self)
        ensures
            final(self).wf(),
            final(self)@ == Set::<T::V>::empty(),
            !final(self).allocated(),
    {
        self.inner = None;
    }
}

impl<T: Element, const C: bool> CompactSet<FrozenSet<T>, C> {
    /// Whether the frozen snapshot of `x` is an element. An empty set answers
    /// without freezing `x`.
    pub fn contains_set<const D: bool>(&self, x: &CompactSet<T, D>) -> (r: bool)
        requires
            self.wf(),
            x.wf(),
        ensures
            r == self@.contains(x@),
    {
        if self.inner.is_none() {
            return false;
        }
        let f = x.freeze();
        self.contains(&f)
    }

    /// Adds the frozen snapshot of `x`.
    pub fn add_set<const D: bool>(&mut self, x: &CompactSet<T, D>)
        requires
            old(self).wf(),
            x.wf(),
        ensures
            final(self).wf(),
            final(self)@ == old(self)@.insert(x@),
    {
        let f = x.freeze();
        self.add(f);
    }

    /// Removes the frozen snapshot of `x` if it is an element.
    pub fn discard_set<const D: bool>(&mut self, x: &CompactSet<T, D>)
        requires
            old(self).wf(),
            x.wf(),
        ensures
            final(self).wf(),
            final(self)@ == old(self)@.remove(x@),
            !old(self)@.contains(x@) ==> *final(self) == *old(self),
    {
        let f = x.freeze();
        self.discard(&f);
    }

    /// Removes the frozen snapshot of `x`, which must be an element; fails
    /// with `NotFound`, holding that snapshot, otherwise.
    pub fn remove_set<const D: bool>(&mut self, x: &CompactSet<T, D>) -> (r: Result<
        (),
        SetError<FrozenSet<T>>,
    >)
        requires
            old(self).wf(),
            x.wf(),
        ensures
            final(self).wf(),
            r is Ok <==> old(self)@.contains(x@),
            r is Ok ==> final(self)@ == old(self)@.remove(x@),
            r is Err ==> *final(self) == *old(self),
            match r {
                Err(SetError::NotFound(e)) => e@ == x@,
                Err(SetError::EmptyCollection) => false,
                Ok(()) => true,
            },
    {
        let f = x.freeze();
        self.remove(&f)
    }
}

} // verus!
