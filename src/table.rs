//! The storage of a populated set: the elements in insertion order, and a
//! hash index that finds an element's position from its hash.
use vstd::prelude::*;

use crate::element::Element;
use crate::handle::{
    copy_all, distinct, lemma_member_at, lemma_member_index, lemma_members_full,
    lemma_members_prefix, lemma_push, lemma_remove, members,
};

verus! {

/// The bucket of hash `h` among `n` buckets.
pub open spec fn slot(h: u64, n: nat) -> int {
    (h as int) % (n as int)
}

/// The positions listed by each bucket of an index.
pub open spec fn bucket_views(index: Seq<Vec<usize>>) -> Seq<Seq<usize>> {
    index.map_values(|b: Vec<usize>| b@)
}

/// `index` indexes `e`: each position that a bucket lists holds an element
/// of that bucket, and each position is listed in the bucket of its element.
pub open spec fn indexes<T: Element>(index: Seq<Seq<usize>>, e: Seq<T>) -> bool {
    &&& index.len() > 0
    &&& forall|b: int, j: int|
        #![trigger index[b][j]]
        0 <= b < index.len() && 0 <= j < index[b].len() ==> index[b][j] < e.len() && slot(
            T::hash_of(e[index[b][j] as int]@),
            index.len(),
        ) == b
    &&& forall|i: int|
        #![trigger e[i]]
        0 <= i < e.len() ==> index[slot(T::hash_of(e[i]@), index.len())].contains(i as usize)
}

/// Elements in insertion order with a hash index over them.
#[derive(Debug)]
pub struct Table<T> {
    entries: Vec<T>,
    index: Vec<Vec<usize>>,
}

/// The bucket of `x` among `n` buckets.
fn bucket_of<T: Element>(x: &T, n: usize) -> (b: usize)
    requires
        n > 0,
    ensures
        b == slot(T::hash_of(x@), n as nat),
        b < n,
{
    (x.hash_code() % (n as u64)) as usize
}

/// An index of `n` buckets over `e`.
fn build_index<T: Element>(e: &Vec<T>, n: usize) -> (index: Vec<Vec<usize>>)
    requires
        n > 0,
    ensures
        indexes(bucket_views(index@), e@),
        index@.len() == n,
{
    let mut index: Vec<Vec<usize>> = Vec::new();
    let mut b: usize = 0;
    while b < n
        invariant
            b <= n,
            index@.len() == b,
            forall|k: int| 0 <= k < b ==> (#[trigger] index@[k])@.len() == 0,
        decreases n - b,
    {
        index.push(Vec::new());
        b = b + 1;
    }
    let mut i: usize = 0;
    while i < e.len()
        invariant
            n > 0,
            i <= e@.len(),
            index@.len() == n,
            forall|b: int, j: int|
                #![trigger index@[b]@[j]]
                0 <= b < n && 0 <= j < index@[b]@.len() ==> index@[b]@[j] < i && slot(
                    T::hash_of(e@[index@[b]@[j] as int]@),
                    n as nat,
                ) == b,
            forall|k: int|
                #![trigger e@[k]]
                0 <= k < i ==> index@[slot(T::hash_of(e@[k]@), n as nat)]@.contains(k as usize),
        decreases e@.len() - i,
    {
        let s = bucket_of(&e[i], n);
        let ghost before = index@;
        let mut bucket: Vec<usize> = Vec::new();
        index.set_and_swap(s, &mut bucket);
        bucket.push(i);
        index.set_and_swap(s, &mut bucket);
        proof {
            assert(index@[s as int]@ == before[s as int]@.push(i));
            assert forall|k: int| #![trigger e@[k]] 0 <= k < i + 1 implies index@[slot(
                T::hash_of(e@[k]@),
                n as nat,
            )]@.contains(k as usize) by {
                let t = slot(T::hash_of(e@[k]@), n as nat);
                if k < i {
                    assert(before[t]@.contains(k as usize));
                    if t == s {
                        let m = choose|m: int| 0 <= m < before[t]@.len() && before[t]@[m] == k as usize;
                        assert(index@[t]@[m] == k as usize);
                    }
                } else {
                    assert(index@[t]@[before[s as int]@.len() as int] == i);
                }
            }
        }
        i = i + 1;
    }
    proof {
        let bv = bucket_views(index@);
        assert forall|b: int, j: int|
            #![trigger bv[b][j]]
            0 <= b < bv.len() && 0 <= j < bv[b].len() implies bv[b][j] < e@.len() && slot(
                T::hash_of(e@[bv[b][j] as int]@),
                bv.len(),
            ) == b by {
            assert(bv[b] == index@[b]@);
            assert(index@[b]@[j] == bv[b][j]);
        }
        assert forall|k: int|
            #![trigger e@[k]]
            0 <= k < e@.len() implies bv[slot(T::hash_of(e@[k]@), bv.len())].contains(k as usize) by {
            let t = slot(T::hash_of(e@[k]@), n as nat);
            assert(bv[t] == index@[t]@);
        }
    }
    index
}

impl<T: Element> Table<T> {
    /// The elements, in insertion order.
    pub closed spec fn entries(&self) -> Seq<T> {
        self.entries@
    }

    /// No element is stored twice, and the index is exact.
    pub closed spec fn wf(&self) -> bool {
        distinct(self.entries@) && indexes(bucket_views(self.index@), self.entries@)
    }

    /// No element is stored twice.
    pub proof fn lemma_distinct(&self)
        requires
            self.wf(),
        ensures
            distinct(self.entries()),
    {
    }

    /// A table holding the distinct elements `v`, in that order.
    pub fn from_distinct(v: Vec<T>) -> (t: Self)
        requires
            distinct(v@),
        ensures
            t.wf(),
            t.entries() == v@,
    {
        let n: usize = if v.len() == 0 {
            1
        } else {
            v.len()
        };
        let index = build_index(&v, n);
        Table { entries: v, index }
    }

    /// A table of the distinct elements of `items`, each at its first
    /// occurrence.
    pub fn collect(items: &[T]) -> (t: Table<T>)
        ensures
            t.wf(),
            members(t.entries()) == members(items@),
    {
        let mut t = Self::from_distinct(Vec::new());
        let mut i: usize = 0;
        proof {
            lemma_members_full(items@);
            assert(members(t.entries()) =~= Set::<T::V>::empty());
        }
        while i < items.len()
            invariant
                i <= items@.len(),
                t.wf(),
                members(t.entries()) == members(items@.subrange(0, i as int)),
            decreases items@.len() - i,
        {
            proof {
                lemma_members_prefix(items@, i as int);
            }
            let e = items[i].duplicate();
            t.insert(e);
            i = i + 1;
        }
        proof {
            lemma_members_full(items@);
        }
        t
    }

    /// The elements, in insertion order.
    pub fn entries_ref(&self) -> (r: &Vec<T>)
        ensures
            r@ == self.entries(),
    {
        &self.entries
    }

    /// The number of elements.
    pub fn len(&self) -> (r: usize)
        ensures
            r == self.entries().len(),
    {
        self.entries.len()
    }

    /// The position of `x`, if it is stored.
    pub fn find(&self, x: &T) -> (r: Option<usize>)
        requires
            self.wf(),
        ensures
            match r {
                Some(i) => i < self.entries().len() && self.entries()[i as int]@ == x@,
                None => !members(self.entries()).contains(x@),
            },
    {
        let ghost bv = bucket_views(self.index@);
        let s = bucket_of(x, self.index.len());
        let bucket = &self.index[s];
        proof {
            assert(bv[s as int] == bucket@);
        }
        let mut j: usize = 0;
        while j < bucket.len()
            invariant
                self.wf(),
                bv == bucket_views(self.index@),
                s < bv.len(),
                bv[s as int] == bucket@,
                j <= bucket@.len(),
                forall|k: int| 0 <= k < j ==> self.entries@[#[trigger] bucket@[k] as int]@ != x@,
            decreases bucket@.len() - j,
        {
            let i = bucket[j];
            proof {
                assert(bv[s as int][j as int] == i);
            }
            if self.entries[i].same(x) {
                return Some(i);
            }
            j = j + 1;
        }
        proof {
            if members(self.entries@).contains(x@) {
                let k = lemma_member_index(self.entries@, x@);
                assert(self.entries@[k]@ == x@);
                assert(self.entries.len() == self.entries@.len());
                assert(slot(T::hash_of(self.entries@[k]@), bv.len()) == s);
                assert(bv[s as int].contains(k as usize));
                let m = choose|m: int| 0 <= m < bv[s as int].len() && bv[s as int][m] == k as usize;
                assert(bucket@[m] as int == k);
            }
        }
        None
    }

    /// Adds `x` unless it is stored already; says whether it was added.
    pub fn insert(&mut self, x: T) -> (added: bool)
        requires
            old(self).wf(),
        ensures
            final(self).wf(),
            members(final(self).entries()) == members(old(self).entries()).insert(x@),
            added == !members(old(self).entries()).contains(x@),
            !added ==> final(self).entries() == old(self).entries(),
            added ==> final(self).entries() == old(self).entries().push(x),
    {
        match self.find(&x) {
            Some(i) => {
                proof {
                    lemma_member_at(self.entries@, i as int);
                    assert(members(self.entries@).insert(x@) =~= members(self.entries@));
                }
                false
            },
            None => {
                proof {
                    lemma_push(self.entries@, x);
                }
                let n = self.index.len();
                let s = bucket_of(&x, n);
                let pos = self.entries.len();
                let ghost old_entries = self.entries@;
                let ghost before = self.index@;
                self.entries.push(x);
                let mut bucket: Vec<usize> = Vec::new();
                self.index.set_and_swap(s, &mut bucket);
                bucket.push(pos);
                self.index.set_and_swap(s, &mut bucket);
                proof {
                    let e = self.entries@;
                    let bv = bucket_views(self.index@);
                    let bb = bucket_views(before);
                    assert(bv[s as int] == bb[s as int].push(pos));
                    assert forall|b: int, j: int|
                        #![trigger bv[b][j]]
                        0 <= b < bv.len() && 0 <= j < bv[b].len() implies bv[b][j] < e.len()
                        && slot(T::hash_of(e[bv[b][j] as int]@), bv.len()) == b by {
                        if b == s && j == bb[b].len() {
                        } else {
                            assert(bv[b][j] == bb[b][j]);
                            assert(e[bb[b][j] as int] == old_entries[bb[b][j] as int]);
                        }
                    }
                    assert forall|k: int|
                        #![trigger e[k]]
                        0 <= k < e.len() implies bv[slot(T::hash_of(e[k]@), bv.len())].contains(
                            k as usize,
                        ) by {
                        let t = slot(T::hash_of(e[k]@), bv.len());
                        if k < pos {
                            assert(e[k] == old_entries[k]);
                            assert(bb[t].contains(k as usize));
                            let m = choose|m: int| 0 <= m < bb[t].len() && bb[t][m] == k as usize;
                            assert(bv[t][m] == k as usize);
                        } else {
                            assert(bv[t][bb[s as int].len() as int] == pos);
                        }
                    }
                }
                if self.entries.len() / 2 > self.index.len() {
                    self.index = build_index(&self.entries, self.entries.len());
                }
                true
            },
        }
    }

    /// Takes out the element at position `i`, keeping the others in order.
    fn remove_at(&mut self, i: usize) -> (e: T)
        requires
            old(self).wf(),
            i < old(self).entries().len(),
        ensures
            final(self).wf(),
            final(self).entries() == old(self).entries().remove(i as int),
            e == old(self).entries()[i as int],
    {
        proof {
            lemma_remove(self.entries@, i as int);
        }
        let e = self.entries.remove(i);
        let n = self.index.len();
        self.index = build_index(&self.entries, n);
        e
    }

    /// Takes `x` out if it is stored; says whether it was.
    pub fn take_out(&mut self, x: &T) -> (found: bool)
        requires
            old(self).wf(),
        ensures
            final(self).wf(),
            members(final(self).entries()) == members(old(self).entries()).remove(x@),
            found == members(old(self).entries()).contains(x@),
            !found ==> final(self).entries() == old(self).entries(),
    {
        match self.find(x) {
            Some(i) => {
                proof {
                    lemma_remove(self.entries@, i as int);
                    lemma_member_at(self.entries@, i as int);
                }
                self.remove_at(i);
                true
            },
            None => {
                proof {
                    assert(members(self.entries@).remove(x@) =~= members(self.entries@));
                }
                false
            },
        }
    }

    /// Takes out the most recently stored element.
    pub fn pop_last(&mut self) -> (e: T)
        requires
            old(self).wf(),
            old(self).entries().len() > 0,
        ensures
            final(self).wf(),
            final(self).entries() == old(self).entries().drop_last(),
            e == old(self).entries().last(),
    {
        let last = self.entries.len() - 1;
        proof {
            assert(self.entries@.remove(last as int) =~= self.entries@.drop_last());
        }
        self.remove_at(last)
    }

    /// An independent table with the same elements in the same order.
    pub fn copy(&self) -> (r: Self)
        requires
            self.wf(),
        ensures
            r.wf(),
            crate::handle::views(r.entries()) == crate::handle::views(self.entries()),
    {
        let c = copy_all(&self.entries);
        Self::from_distinct(c)
    }
}

} // verus!
