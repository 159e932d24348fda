//! The mathematics the containers are specified against: set algebra over
//! several operands, and the order that comparisons follow.
use vstd::prelude::*;

verus! {

/// `first` joined with every set of `rest`, left to right.
pub open spec fn union_of<V>(first: Set<V>, rest: Seq<Set<V>>) -> Set<V>
    decreases rest.len(),
{
    if rest.len() == 0 {
        first
    } else {
        union_of(first, rest.drop_last()).union(rest.last())
    }
}

/// What `first` has in common with every set of `rest`.
pub open spec fn intersection_of<V>(first: Set<V>, rest: Seq<Set<V>>) -> Set<V>
    decreases rest.len(),
{
    if rest.len() == 0 {
        first
    } else {
        intersection_of(first, rest.drop_last()).intersect(rest.last())
    }
}

/// `first` without the elements of any set of `rest`.
pub open spec fn difference_of<V>(first: Set<V>, rest: Seq<Set<V>>) -> Set<V>
    decreases rest.len(),
{
    if rest.len() == 0 {
        first
    } else {
        difference_of(first, rest.drop_last()).difference(rest.last())
    }
}

/// The elements that are in exactly one of `a` and `b`.
pub open spec fn symmetric_difference<V>(a: Set<V>, b: Set<V>) -> Set<V> {
    a.difference(b).union(b.difference(a))
}

/// With one operand, the operations are the binary ones.
pub proof fn lemma_one_operand<V>(a: Set<V>, b: Set<V>)
    ensures
        union_of(a, seq![b]) == a.union(b),
        intersection_of(a, seq![b]) == a.intersect(b),
        difference_of(a, seq![b]) == a.difference(b),
{
    let s = seq![b];
    assert(s.drop_last() =~= Seq::<Set<V>>::empty());
    assert(union_of(a, s.drop_last()) == a);
    assert(intersection_of(a, s.drop_last()) == a);
    assert(difference_of(a, s.drop_last()) == a);
}

/// With two operands, the second is applied to the result of the first.
pub proof fn lemma_two_operands<V>(a: Set<V>, b: Set<V>, c: Set<V>)
    ensures
        union_of(a, seq![b, c]) == a.union(b).union(c),
        intersection_of(a, seq![b, c]) == a.intersect(b).intersect(c),
        difference_of(a, seq![b, c]) == a.difference(b).difference(c),
{
    let s = seq![b, c];
    assert(s.drop_last() =~= seq![b]);
    lemma_one_operand(a, b);
}

/// The six comparisons between sets.
#[derive(Clone, Copy, Debug, PartialEq, Eq, Structural)]
pub enum Comparison {
    Eq,
    Ne,
    Lt,
    Le,
    Gt,
    Ge,
}

/// The answer of comparison `op` between `a` and `b`: equality, and the
/// partial order of inclusion.
pub open spec fn compares<V>(a: Set<V>, b: Set<V>, op: Comparison) -> bool {
    match op {
        Comparison::Eq => a == b,
        Comparison::Ne => a != b,
        Comparison::Lt => a.subset_of(b) && a != b,
        Comparison::Le => a.subset_of(b),
        Comparison::Gt => b.subset_of(a) && a != b,
        Comparison::Ge => b.subset_of(a),
    }
}

} // verus!
