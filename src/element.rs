//! What a value must offer to be kept in a set: equality and copying that
//! agree with its view, and a textual rendering.
use vstd::prelude::*;

verus! {

/// A value that a set can hold.
///
/// Two elements are the same element exactly when their views are equal, so
/// a set of elements is modelled as a `Set` of views.
pub trait Element: View + Sized {
    /// The text that `render` produces for this value.
    spec fn rendering(&self) -> Seq<char>;

    /// The hash of the element whose view is `v`: being a function of the
    /// view, it agrees with element equality.
    spec fn hash_of(v: Self::V) -> u64;

    /// The element's hash.
    fn hash_code(&self) -> (r: u64)
        ensures
            r == Self::hash_of(self@),
    ;

    /// Element equality, decided on the views.
    fn same(&self, other: &Self) -> (r: bool)
        ensures
            r == (self@ == other@),
    ;

    /// An independent copy that is the same element.
    fn duplicate(&self) -> (r: Self)
        ensures
            r@ == self@,
    ;

    /// The value's textual form.
    fn render(&self) -> (r: String)
        ensures
            r@ == self.rendering(),
    ;
}

/// The character of a decimal digit.
pub open spec fn digit_char(d: nat) -> char {
    if d == 0 {
        '0'
    } else if d == 1 {
        '1'
    } else if d == 2 {
        '2'
    } else if d == 3 {
        '3'
    } else if d == 4 {
        '4'
    } else if d == 5 {
        '5'
    } else if d == 6 {
        '6'
    } else if d == 7 {
        '7'
    } else if d == 8 {
        '8'
    } else {
        '9'
    }
}

/// The decimal digits of `n`, most significant first, without leading zeros.
pub open spec fn decimal(n: nat) -> Seq<char>
    decreases n,
{
    if n < 10 {
        seq![digit_char(n)]
    } else {
        decimal(n / 10).push(digit_char(n % 10))
    }
}

/// The decimal form of a signed number: a minus sign before negative ones.
pub open spec fn signed_decimal(n: int) -> Seq<char> {
    if n < 0 {
        seq!['-'] + decimal((-n) as nat)
    } else {
        decimal(n as nat)
    }
}

/// Appends the character of digit `d` to `s`.
fn push_digit(s: &mut String, d: u64)
    requires
        d < 10,
    ensures
        final(s)@ == old(s)@.push(digit_char(d as nat)),
{
    proof {
        reveal_strlit("0");
        reveal_strlit("1");
        reveal_strlit("2");
        reveal_strlit("3");
        reveal_strlit("4");
        reveal_strlit("5");
        reveal_strlit("6");
        reveal_strlit("7");
        reveal_strlit("8");
        reveal_strlit("9");
    }
    let ghost before = s@;
    if d == 0 {
        s.append("0");
    } else if d == 1 {
        s.append("1");
    } else if d == 2 {
        s.append("2");
    } else if d == 3 {
        s.append("3");
    } else if d == 4 {
        s.append("4");
    } else if d == 5 {
        s.append("5");
    } else if d == 6 {
        s.append("6");
    } else if d == 7 {
        s.append("7");
    } else if d == 8 {
        s.append("8");
    } else {
        s.append("9");
    }
    assert(s@ =~= before.push(digit_char(d as nat)));
}

/// Appends the decimal digits of `n` to `s`.
fn push_decimal(s: &mut String, n: u64)
    ensures
        final(s)@ == old(s)@ + decimal(n as nat),
    decreases n,
{
    if n < 10 {
        push_digit(s, n);
        assert(decimal(n as nat) =~= seq![digit_char(n as nat)]);
    } else {
        let ghost before = s@;
        push_decimal(s, n / 10);
        push_digit(s, n % 10);
        assert(s@ =~= before + decimal(n as nat));
    }
}

impl Element for u64 {
    open spec fn rendering(&self) -> Seq<char> {
        decimal(*self as nat)
    }

    open spec fn hash_of(v: u64) -> u64 {
        v
    }

    fn hash_code(&self) -> (r: u64) {
        *self
    }

    fn same(&self, other: &u64) -> (r: bool) {
        *self == *other
    }

    fn duplicate(&self) -> (r: u64) {
        *self
    }

    fn render(&self) -> (r: String) {
        let mut s = String::new();
        push_decimal(&mut s, *self);
        assert(s@ =~= decimal(*self as nat));
        s
    }
}

impl Element for i64 {
    open spec fn rendering(&self) -> Seq<char> {
        signed_decimal(*self as int)
    }

    open spec fn hash_of(v: i64) -> u64 {
        v as u64
    }

    fn hash_code(&self) -> (r: u64) {
        *self as u64
    }

    fn same(&self, other: &i64) -> (r: bool) {
        *self == *other
    }

    fn duplicate(&self) -> (r: i64) {
        *self
    }

    fn render(&self) -> (r: String) {
        let mut s = String::new();
        if *self < 0 {
            proof {
                reveal_strlit("-");
            }
            s.append("-");
            let magnitude: u64 = ((-(*self + 1)) as u64) + 1;
            push_decimal(&mut s, magnitude);
        } else {
            push_decimal(&mut s, *self as u64);
        }
        assert(s@ =~= signed_decimal(*self as int));
        s
    }
}

/// The renderings of the elements of `s`, separated by a comma and a space.
pub open spec fn joined<T: Element>(s: Seq<T>) -> Seq<char>
    decreases s.len(),
{
    if s.len() == 0 {
        Seq::empty()
    } else if s.len() == 1 {
        s[0].rendering()
    } else {
        joined(s.drop_last()) + seq![',', ' '] + s.last().rendering()
    }
}

/// Appends the renderings of the elements of `v` to `s`, separated by a
/// comma and a space.
pub fn push_joined<T: Element>(s: &mut String, v: &Vec<T>)
    ensures
        final(s)@ == old(s)@ + joined(v@),
{
    let ghost start = s@;
    let mut i: usize = 0;
    assert(v@.subrange(0, 0) =~= Seq::<T>::empty());
    assert(start + Seq::<char>::empty() =~= start);
    while i < v.len()
        invariant
            i <= v@.len(),
            s@ == start + joined(v@.subrange(0, i as int)),
        decreases v@.len() - i,
    {
        let ghost pre = v@.subrange(0, i as int);
        let ghost post = v@.subrange(0, i + 1);
        assert(post.drop_last() =~= pre);
        if i > 0 {
            proof {
                reveal_strlit(", ");
            }
            s.append(", ");
        }
        let text = v[i].render();
        s.append(text.as_str());
        if i == 0 {
            assert(s@ =~= start + joined(post));
        } else {
            assert(s@ =~= start + joined(post));
        }
        i = i + 1;
    }
    assert(v@.subrange(0, i as int) =~= v@);
}

} // verus!
