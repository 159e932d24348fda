//! Sequences of elements seen as sets of views, and copying a sequence
//! element by element.
use vstd::prelude::*;

use crate::element::Element;

verus! {

/// The views of a sequence of elements, in order.
pub open spec fn views<T: View>(s: Seq<T>) -> Seq<T::V> {
    s.map_values(|e: T| e@)
}

/// The elements of a sequence, as a set of views.
pub open spec fn members<T: View>(s: Seq<T>) -> Set<T::V> {
    views(s).to_set()
}

/// No element occurs twice in the sequence.
pub open spec fn distinct<T: View>(s: Seq<T>) -> bool {
    views(s).no_duplicates()
}

/// The element at index `i` is a member.
pub proof fn lemma_member_at<T: View>(s: Seq<T>, i: int)
    requires
        0 <= i < s.len(),
    ensures
        members(s).contains(s[i]@),
{
    assert(views(s)[i] == s[i]@);
}

/// A member stands at some index.
pub proof fn lemma_member_index<T: View>(s: Seq<T>, x: T::V) -> (i: int)
    requires
        members(s).contains(x),
    ensures
        0 <= i < s.len(),
        s[i]@ == x,
{
    assert(views(s).contains(x));
    choose|i: int| 0 <= i < views(s).len() && views(s)[i] == x
}

/// A distinct sequence has as many entries as members.
pub proof fn lemma_distinct_len<T: View>(s: Seq<T>)
    requires
        distinct(s),
    ensures
        members(s).len() == s.len(),
        members(s).finite(),
{
    views(s).unique_seq_to_set();
    views(s).lemma_cardinality_of_set();
    vstd::seq_lib::seq_to_set_is_finite(views(s));
}

/// Growing a prefix by one entry adds that entry's element.
pub proof fn lemma_members_prefix<T: View>(s: Seq<T>, j: int)
    requires
        0 <= j < s.len(),
    ensures
        members(s.subrange(0, j + 1)) == members(s.subrange(0, j)).insert(s[j]@),
{
    let pre = s.subrange(0, j);
    let post = s.subrange(0, j + 1);
    assert forall|v: T::V| members(post).contains(v) <==> members(pre).insert(s[j]@).contains(
        v,
    ) by {
        if members(post).contains(v) {
            let k = lemma_member_index(post, v);
            if k < j {
                assert(post[k] == pre[k]);
                lemma_member_at(pre, k);
            }
        }
        if members(pre).contains(v) {
            let k = lemma_member_index(pre, v);
            assert(post[k] == pre[k]);
            lemma_member_at(post, k);
        }
        if v == s[j]@ {
            lemma_member_at(post, j);
        }
    }
    assert(members(post) =~= members(pre).insert(s[j]@));
}

/// A whole sequence is its own prefix.
pub proof fn lemma_members_full<T: View>(s: Seq<T>)
    ensures
        members(s.subrange(0, s.len() as int)) == members(s),
        members(s.subrange(0, 0)) == Set::<T::V>::empty(),
{
    assert(s.subrange(0, s.len() as int) =~= s);
    assert(members(s.subrange(0, 0)) =~= Set::<T::V>::empty());
}

/// Appending a new element keeps the sequence distinct and adds it as a member.
pub proof fn lemma_push<T: View>(s: Seq<T>, x: T)
    requires
        distinct(s),
        !members(s).contains(x@),
    ensures
        distinct(s.push(x)),
        members(s.push(x)) == members(s).insert(x@),
{
    let t = s.push(x);
    assert(views(t) =~= views(s).push(x@));
    assert forall|i: int, j: int|
        0 <= i < views(t).len() && 0 <= j < views(t).len() && i != j implies views(t)[i]
        != views(t)[j] by {
        if i < s.len() && j < s.len() {
            assert(views(s)[i] != views(s)[j]);
        } else if i < s.len() {
            lemma_member_at(s, i);
        } else if j < s.len() {
            lemma_member_at(s, j);
        }
    }
    assert forall|v: T::V| members(t).contains(v) <==> members(s).insert(x@).contains(v) by {
        if members(t).contains(v) {
            let k = lemma_member_index(t, v);
            if k < s.len() {
                assert(t[k] == s[k]);
                lemma_member_at(s, k);
            }
        }
        if members(s).contains(v) {
            let k = lemma_member_index(s, v);
            assert(t[k] == s[k]);
            lemma_member_at(t, k);
        }
        if v == x@ {
            lemma_member_at(t, s.len() as int);
        }
    }
    assert(members(t) =~= members(s).insert(x@));
}

/// Taking out the entry at index `i` keeps the sequence distinct and removes
/// that element.
pub proof fn lemma_remove<T: View>(s: Seq<T>, i: int)
    requires
        distinct(s),
        0 <= i < s.len(),
    ensures
        distinct(s.remove(i)),
        members(s.remove(i)) == members(s).remove(s[i]@),
{
    let t = s.remove(i);
    assert forall|a: int, b: int|
        0 <= a < views(t).len() && 0 <= b < views(t).len() && a != b implies views(t)[a]
        != views(t)[b] by {
        let a2 = if a < i { a } else { a + 1 };
        let b2 = if b < i { b } else { b + 1 };
        assert(views(t)[a] == views(s)[a2]);
        assert(views(t)[b] == views(s)[b2]);
    }
    assert forall|v: T::V| members(t).contains(v) <==> members(s).remove(s[i]@).contains(v) by {
        if members(t).contains(v) {
            let k = lemma_member_index(t, v);
            let k2 = if k < i { k } else { k + 1 };
            assert(t[k] == s[k2]);
            lemma_member_at(s, k2);
            assert(views(s)[k2] != views(s)[i]);
        }
        if members(s).contains(v) && v != s[i]@ {
            let k = lemma_member_index(s, v);
            if k < i {
                assert(t[k] == s[k]);
                lemma_member_at(t, k);
            } else {
                assert(k != i);
                assert(t[k - 1] == s[k]);
                lemma_member_at(t, k - 1);
            }
        }
    }
    assert(members(t) =~= members(s).remove(s[i]@));
}

/// A copy of `v`, element by element.
pub(crate) fn copy_all<T: Element>(v: &Vec<T>) -> (r: Vec<T>)
    ensures
        views(r@) == views(v@),
        r@.len() == v@.len(),
{
    let mut r: Vec<T> = Vec::new();
    let mut i: usize = 0;
    while i < v.len()
        invariant
            i <= v@.len(),
            views(r@) == views(v@.subrange(0, i as int)),
        decreases v@.len() - i,
    {
        let e = v[i].duplicate();
        let ghost before = r@;
        r.push(e);
        assert(views(r@) =~= views(before).push(v@[i as int]@));
        assert(views(v@.subrange(0, i + 1)) =~= views(v@.subrange(0, i as int)).push(
            v@[i as int]@,
        ));
        i = i + 1;
    }
    assert(v@.subrange(0, i as int) =~= v@);
    assert(views(r@).len() == views(v@).len());
    r
}

} // verus!
