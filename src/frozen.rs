//! An immutable snapshot of a set's elements, usable as an element itself.
use vstd::prelude::*;

use crate::element::{joined, push_joined, Element};
use crate::handle::{
    distinct, lemma_distinct_len, lemma_member_at, lemma_members_full, lemma_members_prefix,
    members,
};
use crate::table::Table;

verus! {

/// A frozen set: fixed elements, compared by its elements alone.
#[derive(Debug)]
pub struct FrozenSet<T: Element> {
    items: Table<T>,
}

impl<T: Element> View for FrozenSet<T> {
    type V = Set<T::V>;

    closed spec fn view(&self) -> Set<T::V> {
        members(self.items.entries())
    }
}

/// Whether every element of `a` is an element of `b`.
fn included<T: Element>(a: &Table<T>, b: &Table<T>) -> (r: bool)
    requires
        b.wf(),
    ensures
        r == members(a.entries()).subset_of(members(b.entries())),
{
    let v = a.entries_ref();
    proof {
        lemma_members_full(v@);
    }
    let mut j: usize = 0;
    while j < v.len()
        invariant
            b.wf(),
            v@ == a.entries(),
            j <= v@.len(),
            members(v@.subrange(0, j as int)).subset_of(members(b.entries())),
        decreases v@.len() - j,
    {
        proof {
            lemma_members_prefix(v@, j as int);
        }
        match b.find(&v[j]) {
            None => {
                proof {
                    lemma_member_at(v@, j as int);
                }
                return false;
            },
            Some(k) => {
                proof {
                    lemma_member_at(b.entries(), k as int);
                }
            },
        }
        j = j + 1;
    }
    proof {
        lemma_members_full(v@);
    }
    true
}

impl<T: Element> FrozenSet<T> {
    /// No element is held twice.
    #[verifier::type_invariant]
    spec fn inv(self) -> bool {
        self.items.wf()
    }

    /// The order in which the elements are rendered.
    pub closed spec fn order(&self) -> Seq<T> {
        self.items.entries()
    }

    /// Freezes elements that are known to be distinct.
    pub(crate) fn from_distinct(items: Vec<T>) -> (r: Self)
        requires
            distinct(items@),
        ensures
            r@ == members(items@),
            r.order() == items@,
    {
        FrozenSet { items: Table::from_distinct(items) }
    }

    /// The frozen set of the distinct elements of `items`.
    pub fn from_items(items: &[T]) -> (r: Self)
        ensures
            r@ == members(items@),
    {
        FrozenSet { items: Table::collect(items) }
    }
}

impl<T: Element> Element for FrozenSet<T> {
    open spec fn rendering(&self) -> Seq<char> {
        if self.order().len() == 0 {
            seq!['f', 'r', 'o', 'z', 'e', 'n', 's', 'e', 't', '(', ')']
        } else {
            seq!['f', 'r', 'o', 'z', 'e', 'n', 's', 'e', 't', '(', '{'] + joined(self.order())
                + seq!['}', ')']
        }
    }

    /// The number of elements, capped at the largest `u64`.
    open spec fn hash_of(v: Set<T::V>) -> u64 {
        if v.len() <= u64::MAX {
            v.len() as u64
        } else {
            u64::MAX
        }
    }

    fn hash_code(&self) -> (r: u64) {
        proof {
            use_type_invariant(self);
            self.items.lemma_distinct();
            lemma_distinct_len(self.items.entries());
        }
        let n = self.items.len();
        if n as u128 <= u64::MAX as u128 {
            n as u64
        } else {
            u64::MAX
        }
    }

    fn same(&self, other: &Self) -> (r: bool) {
        proof {
            use_type_invariant(self);
            use_type_invariant(other);
        }
        let r = included(&self.items, &other.items) && included(&other.items, &self.items);
        proof {
            if self@.subset_of(other@) && other@.subset_of(self@) {
                assert(self@ =~= other@);
            }
        }
        r
    }

    fn duplicate(&self) -> (r: Self) {
        proof {
            use_type_invariant(self);
        }
        let items = self.items.copy();
        FrozenSet { items }
    }

    fn render(&self) -> (r: String) {
        proof {
            reveal_strlit("frozenset()");
            reveal_strlit("frozenset({");
            reveal_strlit("})");
        }
        let mut s = String::new();
        if self.items.len() == 0 {
            s.append("frozenset()");
        } else {
            s.append("frozenset({");
            push_joined(&mut s, self.items.entries_ref());
            s.append("})");
        }
        assert(s@ =~= self.rendering());
        s
    }
}

} // verus!
