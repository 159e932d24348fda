//! Laws that hold of every set, stated over the models that the operations'
//! contracts use, and proved.
use vstd::prelude::*;

use crate::element::Element;
use crate::model::{
    compares, difference_of, intersection_of, lemma_one_operand, lemma_two_operands,
    symmetric_difference, union_of, Comparison,
};
use crate::set::{state_members, CompactSet};

verus! {

/// A set is empty exactly when it holds no storage.
pub proof fn law_empty_iff_unallocated<T: Element, const C: bool>(s: CompactSet<T, C>)
    requires
        s.wf(),
    ensures
        s@.len() == 0 <==> !s.allocated(),
{
    s.lemma_order();
}

/// Adding an element twice leaves the same elements as adding it once.
pub proof fn law_add_idempotent<T: Element, const C: bool>(s: CompactSet<T, C>, x: T)
    requires
        s.wf(),
    ensures
        s@.insert(x@).insert(x@) == s@.insert(x@),
{
    assert(s@.insert(x@).insert(x@) =~= s@.insert(x@));
}

/// Discarding an element that is absent changes nothing.
pub proof fn law_discard_absent<T: Element, const C: bool>(s: CompactSet<T, C>, x: T)
    requires
        s.wf(),
        !s@.contains(x@),
    ensures
        s@.remove(x@) == s@,
{
    assert(s@.remove(x@) =~= s@);
}

/// Restoring a saved state of a set gives back its elements, and storage
/// exactly when the set had storage.
pub proof fn law_restore_snapshot<T: Element, const C: bool>(
    s: CompactSet<T, C>,
    state: Option<Vec<T>>,
    t: CompactSet<T, C>,
)
    requires
        s.wf(),
        state is None <==> !s.allocated(),
        state_members(state) == s@,
        t.wf(),
        t@ == state_members(state),
    ensures
        t@ == s@,
        t.allocated() == s.allocated(),
{
    s.lemma_order();
    t.lemma_order();
}

/// Union does not depend on the order of its operands.
pub proof fn law_union_commutative<T: Element, const C: bool>(
    a: CompactSet<T, C>,
    b: CompactSet<T, C>,
)
    ensures
        union_of(a@, seq![b@]) == union_of(b@, seq![a@]),
{
    lemma_one_operand(a@, b@);
    lemma_one_operand(b@, a@);
    assert(a@.union(b@) =~= b@.union(a@));
}

/// Union does not depend on how its operands are grouped.
pub proof fn law_union_associative<T: Element, const C: bool>(
    a: CompactSet<T, C>,
    b: CompactSet<T, C>,
    c: CompactSet<T, C>,
)
    ensures
        union_of(union_of(a@, seq![b@]), seq![c@]) == union_of(a@, seq![union_of(b@, seq![c@])]),
        union_of(a@, seq![b@, c@]) == union_of(union_of(a@, seq![b@]), seq![c@]),
{
    lemma_one_operand(a@, b@);
    lemma_one_operand(b@, c@);
    lemma_one_operand(a@.union(b@), c@);
    lemma_one_operand(a@, b@.union(c@));
    lemma_two_operands(a@, b@, c@);
    assert(a@.union(b@).union(c@) =~= a@.union(b@.union(c@)));
}

/// Intersection does not depend on the order of its operands.
pub proof fn law_intersection_commutative<T: Element, const C: bool>(
    a: CompactSet<T, C>,
    b: CompactSet<T, C>,
)
    ensures
        intersection_of(a@, seq![b@]) == intersection_of(b@, seq![a@]),
{
    lemma_one_operand(a@, b@);
    lemma_one_operand(b@, a@);
    assert(a@.intersect(b@) =~= b@.intersect(a@));
}

/// Intersection does not depend on how its operands are grouped.
pub proof fn law_intersection_associative<T: Element, const C: bool>(
    a: CompactSet<T, C>,
    b: CompactSet<T, C>,
    c: CompactSet<T, C>,
)
    ensures
        intersection_of(intersection_of(a@, seq![b@]), seq![c@]) == intersection_of(
            a@,
            seq![intersection_of(b@, seq![c@])],
        ),
        intersection_of(a@, seq![b@, c@]) == intersection_of(
            intersection_of(a@, seq![b@]),
            seq![c@],
        ),
{
    lemma_one_operand(a@, b@);
    lemma_one_operand(b@, c@);
    lemma_one_operand(a@.intersect(b@), c@);
    lemma_one_operand(a@, b@.intersect(c@));
    lemma_two_operands(a@, b@, c@);
    assert(a@.intersect(b@).intersect(c@) =~= a@.intersect(b@.intersect(c@)));
}

/// A set minus itself is empty, and so is its symmetric difference with
/// itself.
pub proof fn law_self_cancels<T: Element, const C: bool>(a: CompactSet<T, C>)
    ensures
        difference_of(a@, seq![a@]) == Set::<T::V>::empty(),
        symmetric_difference(a@, a@) == Set::<T::V>::empty(),
{
    lemma_one_operand(a@, a@);
    assert(a@.difference(a@) =~= Set::<T::V>::empty());
    assert(symmetric_difference(a@, a@) =~= Set::<T::V>::empty());
}

/// Every set is a subset and a superset of itself.
pub proof fn law_inclusion_reflexive<T: Element, const C: bool>(a: CompactSet<T, C>)
    ensures
        a@.subset_of(a@),
        compares(a@, a@, Comparison::Le),
        compares(a@, a@, Comparison::Ge),
        compares(a@, a@, Comparison::Eq),
{
}

/// The empty set is below every set: a subset of it, disjoint from it, and
/// a superset of nothing but the empty set.
pub proof fn law_empty_is_bottom<T: Element, const C: bool>(
    e: CompactSet<T, C>,
    s: CompactSet<T, C>,
)
    requires
        e.wf(),
        s.wf(),
        e@.len() == 0,
    ensures
        e@.subset_of(s@),
        e@.disjoint(s@),
        compares(e@, s@, Comparison::Le),
        s@.subset_of(e@) <==> s@.len() == 0,
{
    e.lemma_order();
    s.lemma_order();
    assert(e@ =~= Set::<T::V>::empty());
    if s@.len() > 0 {
        let x = s@.choose();
        assert(s@.contains(x));
    } else {
        assert(s@ =~= Set::<T::V>::empty());
    }
}

/// Any two empty sets are equal, as values and as sets, whatever was done
/// to them before.
pub proof fn law_empty_sets_equal<T: Element, const C: bool>(
    a: CompactSet<T, C>,
    b: CompactSet<T, C>,
)
    requires
        a.wf(),
        b.wf(),
        a@.len() == 0,
        b@.len() == 0,
    ensures
        a == b,
        compares(a@, b@, Comparison::Eq),
{
    a.lemma_order();
    b.lemma_order();
    a.lemma_unallocated_unique(&b);
}

} // verus!
