//! Digits, and natural numbers of any size written with them.

use vstd::prelude::*;
use crate::order::{Order, order_of};

verus! {

/// Whether `c` is one of the ASCII decimal digits `'0'..='9'`.
pub open spec fn is_digit(c: char) -> bool {
    '0' <= c && c <= '9'
}

/// Whether every character of `s` is an ASCII decimal digit.
pub open spec fn all_digits(s: Seq<char>) -> bool {
    forall|i: int| 0 <= i < s.len() ==> is_digit(#[trigger] s[i])
}

/// The number that the digit character `c` stands for.
pub open spec fn digit_value(c: char) -> nat {
    (c as int - '0' as int) as nat
}

/// The number that the digit string `s` writes in base ten; leading zeros do
/// not count, and the empty string writes zero.
pub open spec fn decimal_value(s: Seq<char>) -> nat
    decreases s.len(),
{
    if s.len() == 0 {
        0
    } else {
        10 * decimal_value(s.drop_last()) + digit_value(s.last())
    }
}

/// The number whose base-ten digits, most significant first, are `digits`.
pub open spec fn digits_value(digits: Seq<u8>) -> nat
    decreases digits.len(),
{
    if digits.len() == 0 {
        0
    } else {
        10 * digits_value(digits.drop_last()) + digits.last() as nat
    }
}

/// Whether `digits` is the shortest way to write a number: every entry is
/// below ten and the first one, if any, is not zero.
pub open spec fn is_canonical(digits: Seq<u8>) -> bool {
    &&& forall|i: int| 0 <= i < digits.len() ==> #[trigger] digits[i] < 10
    &&& digits.len() > 0 ==> digits[0] != 0
}

/// Tests whether a character is an ASCII decimal digit.
pub fn is_ascii_digit(c: char) -> (r: bool)
    ensures
        r == is_digit(c),
{
    '0' <= c && c <= '9'
}

proof fn lemma_canonical_positive(digits: Seq<u8>)
    requires
        is_canonical(digits),
        digits.len() > 0,
    ensures
        digits_value(digits) >= 1,
    decreases digits.len(),
{
    if digits.len() > 1 {
        let head = digits.drop_last();
        assert(head[0] == digits[0]);
        assert forall|i: int| 0 <= i < head.len() implies #[trigger] head[i] < 10 by {
            assert(head[i] == digits[i]);
        }
        lemma_canonical_positive(head);
    } else {
        assert(digits.last() == digits[0]);
        assert(digits.drop_last().len() == 0);
    }
}

proof fn lemma_shorter_is_less(a: Seq<u8>, b: Seq<u8>)
    requires
        is_canonical(a),
        is_canonical(b),
        a.len() < b.len(),
    ensures
        digits_value(a) < digits_value(b),
    decreases a.len(),
{
    if a.len() == 0 {
        lemma_canonical_positive(b);
    } else {
        let a0 = a.drop_last();
        let b0 = b.drop_last();
        assert(b0[0] == b[0]);
        assert forall|i: int| 0 <= i < b0.len() implies #[trigger] b0[i] < 10 by {
            assert(b0[i] == b[i]);
        }
        assert forall|i: int| 0 <= i < a0.len() implies #[trigger] a0[i] < 10 by {
            assert(a0[i] == a[i]);
        }
        if a0.len() > 0 {
            assert(a0[0] == a[0]);
        }
        lemma_shorter_is_less(a0, b0);
        assert(a.last() == a[a.len() - 1]);
    }
}

proof fn lemma_first_difference(a: Seq<u8>, b: Seq<u8>, k: int)
    requires
        a.len() == b.len(),
        0 <= k < a.len(),
        forall|i: int| 0 <= i < a.len() ==> #[trigger] a[i] < 10,
        forall|i: int| 0 <= i < b.len() ==> #[trigger] b[i] < 10,
        a.take(k) == b.take(k),
        a[k] < b[k],
    ensures
        digits_value(a) < digits_value(b),
    decreases a.len(),
{
    let a0 = a.drop_last();
    let b0 = b.drop_last();
    assert(a.last() == a[a.len() - 1]);
    assert(b.last() == b[b.len() - 1]);
    if k == a.len() - 1 {
        assert(a0 == a.take(k));
        assert(b0 == b.take(k));
    } else {
        assert forall|i: int| 0 <= i < a0.len() implies #[trigger] a0[i] < 10 by {
            assert(a0[i] == a[i]);
        }
        assert forall|i: int| 0 <= i < b0.len() implies #[trigger] b0[i] < 10 by {
            assert(b0[i] == b[i]);
        }
        assert(a0.take(k) == a.take(k));
        assert(b0.take(k) == b.take(k));
        assert(a0[k] == a[k]);
        assert(b0[k] == b[k]);
        lemma_first_difference(a0, b0, k);
    }
}

/// A natural number without an upper bound, kept as its base-ten digits.
#[derive(Debug, PartialEq, Eq)]
pub struct Magnitude {
    digits: Vec<u8>,
}

impl View for Magnitude {
    type V = nat;

    closed spec fn view(&self) -> nat {
        digits_value(self.digits@)
    }
}

impl Clone for Magnitude {
    fn clone(&self) -> (r: Self)
        ensures
            r@ == self@,
    {
        proof {
            use_type_invariant(self);
        }
        let digits = self.digits.clone();
        assert(digits@ == self.digits@);
        Magnitude { digits }
    }
}

impl Magnitude {
    #[verifier::type_invariant]
    spec fn well_formed(&self) -> bool {
        is_canonical(self.digits@)
    }

    /// The number written by the digit string `text`, however long it is;
    /// `None` where `text` holds anything but digits.
    pub fn parse(text: &str) -> (r: Option<Magnitude>)
        ensures
            all_digits(text@) <==> r is Some,
            r matches Some(m) ==> m@ == decimal_value(text@),
    {
        let mut digits: Vec<u8> = Vec::new();
        for c in it: text.chars()
            invariant
                it.seq() == text@,
                all_digits(it.seq().take(it.index())),
                is_canonical(digits@),
                digits_value(digits@) == decimal_value(it.seq().take(it.index())),
        {
            let ghost seen = it.seq().take(it.index());
            let ghost next = it.seq().take(it.index() + 1);
            assert(next.drop_last() == seen);
            assert(next.last() == c);
            if !is_ascii_digit(c) {
                assert(!all_digits(text@)) by {
                    assert(!is_digit(text@[it.index()]));
                }
                return None;
            }
            assert(all_digits(next)) by {
                assert forall|i: int| 0 <= i < next.len() implies is_digit(#[trigger] next[i]) by {
                    if i < seen.len() {
                        assert(next[i] == seen[i]);
                    }
                }
            }
            if c != '0' || digits.len() > 0 {
                let ghost before = digits@;
                let d: u8 = (c as u32 - '0' as u32) as u8;
                digits.push(d);
                assert(digits@.drop_last() == before);
                assert(digits@.last() == d);
                assert(digits@[0] != 0) by {
                    if before.len() > 0 {
                        assert(digits@[0] == before[0]);
                    }
                }
                assert forall|i: int| 0 <= i < digits@.len() implies #[trigger] digits@[i] < 10 by {
                    if i < before.len() {
                        assert(digits@[i] == before[i]);
                    }
                }
            }
        }
        assert(text@.take(text@.len() as int) == text@);
        Some(Magnitude { digits })
    }

    /// The magnitude of a machine integer.
    pub fn from_u128(n: u128) -> (m: Magnitude)
        ensures
            m@ == n,
    {
        Magnitude { digits: digits_of(n) }
    }

    /// Compares two magnitudes as numbers.
    pub fn compare(&self, other: &Magnitude) -> (r: Order)
        ensures
            r == order_of(self@ as int, other@ as int),
    {
        proof {
            use_type_invariant(self);
            use_type_invariant(other);
        }
        let n = self.digits.len();
        let m = other.digits.len();
        if n < m {
            proof {
                lemma_shorter_is_less(self.digits@, other.digits@);
            }
            return Order::Less;
        }
        if n > m {
            proof {
                lemma_shorter_is_less(other.digits@, self.digits@);
            }
            return Order::Greater;
        }
        let mut i: usize = 0;
        while i < n
            invariant
                n == self.digits@.len(),
                n == other.digits@.len(),
                i <= n,
                is_canonical(self.digits@),
                is_canonical(other.digits@),
                self.digits@.take(i as int) == other.digits@.take(i as int),
            decreases n - i,
        {
            let a = self.digits[i];
            let b = other.digits[i];
            if a < b {
                proof {
                    lemma_first_difference(self.digits@, other.digits@, i as int);
                }
                return Order::Less;
            }
            if a > b {
                proof {
                    lemma_first_difference(other.digits@, self.digits@, i as int);
                }
                return Order::Greater;
            }
            assert(self.digits@.take(i + 1) == self.digits@.take(i as int).push(a));
            assert(other.digits@.take(i + 1) == other.digits@.take(i as int).push(b));
            i += 1;
        }
        assert(self.digits@ == self.digits@.take(n as int));
        assert(other.digits@ == other.digits@.take(n as int));
        Order::Equal
    }
}

fn digits_of(n: u128) -> (digits: Vec<u8>)
    ensures
        is_canonical(digits@),
        digits_value(digits@) == n,
    decreases n,
{
    if n == 0 {
        Vec::new()
    } else {
        let mut digits = digits_of(n / 10);
        let ghost before = digits@;
        let d: u8 = (n % 10) as u8;
        digits.push(d);
        assert(digits@.drop_last() == before);
        assert(digits@.last() == d);
        assert(digits@[0] != 0) by {
            if before.len() > 0 {
                assert(digits@[0] == before[0]);
            }
        }
        assert forall|i: int| 0 <= i < digits@.len() implies #[trigger] digits@[i] < 10 by {
            if i < before.len() {
                assert(digits@[i] == before[i]);
            }
        }
        digits
    }
}

} // verus!
