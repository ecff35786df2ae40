use crate::dates::{digit_byte, digit_val, is_digit};
use vstd::prelude::*;

verus! {

/// The decimal digits of a non-negative number, most significant first,
/// with no leading zero (a lone zero for 0).
pub open spec fn dec_digits(n: int) -> Seq<u8>
    decreases n,
{
    if n < 10 {
        seq![digit_byte(n)]
    } else {
        dec_digits(n / 10) + seq![digit_byte(n % 10)]
    }
}

pub open spec fn all_digits(b: Seq<u8>) -> bool {
    forall|i: int| 0 <= i < b.len() ==> is_digit(#[trigger] b[i])
}

/// A canonical decimal numeral: at least one digit, no leading zero.
pub open spec fn canonical_dec(b: Seq<u8>) -> bool {
    &&& b.len() > 0
    &&& all_digits(b)
    &&& (b.len() == 1 || b[0] != 48)
}

/// The number a digit string denotes.
pub open spec fn dec_value(b: Seq<u8>) -> int
    decreases b.len(),
{
    if b.len() == 0 {
        0
    } else {
        dec_value(b.drop_last()) * 10 + digit_val(b.last())
    }
}

pub proof fn lemma_dec_value_nonneg(b: Seq<u8>)
    requires
        all_digits(b),
    ensures
        dec_value(b) >= 0,
    decreases b.len(),
{
    if b.len() > 0 {
        assert(all_digits(b.drop_last())) by {
            assert(forall|i: int|
                0 <= i < b.drop_last().len() ==> b.drop_last()[i] == #[trigger] b[i]);
        }
        lemma_dec_value_nonneg(b.drop_last());
    }
}

/// The digits of `n` denote `n`, canonically, and a positive number
/// never starts with a zero digit.
pub proof fn lemma_dec_digits_value(n: int)
    requires
        n >= 0,
    ensures
        canonical_dec(dec_digits(n)),
        dec_value(dec_digits(n)) == n,
        n >= 1 ==> dec_digits(n)[0] != 48,
    decreases n,
{
    if n < 10 {
        let b = dec_digits(n);
        assert(b.drop_last() =~= Seq::<u8>::empty());
        assert(is_digit(b[0]));
        assert(digit_byte(n) == 48 + n);
        assert(digit_val(digit_byte(n)) == n);
        assert(dec_value(b) == dec_value(Seq::<u8>::empty()) * 10 + digit_val(b.last()));
    } else {
        lemma_dec_digits_value(n / 10);
        let hi = dec_digits(n / 10);
        let b = dec_digits(n);
        assert(b.drop_last() =~= hi);
        assert(b.last() == digit_byte(n % 10));
        assert(digit_byte(n % 10) == 48 + n % 10);
        assert(digit_val(digit_byte(n % 10)) == n % 10);
        assert(dec_value(b) == dec_value(hi) * 10 + n % 10);
        assert(b[0] == hi[0]);
        assert(n / 10 >= 1);
        assert forall|i: int| 0 <= i < b.len() implies is_digit(#[trigger] b[i]) by {
            if i < hi.len() {
                assert(b[i] == hi[i]);
            } else {
                assert(b[i] == digit_byte(n % 10));
            }
        }
    }
}

/// The value only grows as more digits are read.
pub proof fn lemma_dec_value_prefix(b: Seq<u8>, j: int)
    requires
        all_digits(b),
        0 <= j <= b.len(),
    ensures
        dec_value(b) >= dec_value(b.take(j)),
    decreases b.len() - j,
{
    if j < b.len() {
        assert(b.take(j + 1).drop_last() =~= b.take(j));
        assert(b.take(j + 1).last() == b[j]);
        assert(all_digits(b.take(j))) by {
            assert(forall|i: int| 0 <= i < j ==> b.take(j)[i] == #[trigger] b[i]);
        }
        lemma_dec_value_nonneg(b.take(j));
        assert(dec_value(b.take(j + 1)) == dec_value(b.take(j)) * 10 + digit_val(b[j]));
        lemma_dec_value_prefix(b, j + 1);
    } else {
        assert(b.take(j) =~= b);
    }
}

/// A canonical numeral that does not start with a zero digit denotes at
/// least one.
pub proof fn lemma_dec_value_pos(b: Seq<u8>)
    requires
        canonical_dec(b),
        b[0] != 48,
    ensures
        dec_value(b) >= 1,
    decreases b.len(),
{
    if b.len() == 1 {
        assert(b.drop_last() =~= Seq::<u8>::empty());
        assert(dec_value(Seq::<u8>::empty()) == 0);
        assert(b.last() == b[0]);
        assert(is_digit(b[0]));
    } else {
        let hi = b.drop_last();
        assert(forall|i: int| 0 <= i < hi.len() ==> hi[i] == #[trigger] b[i]);
        assert(canonical_dec(hi));
        lemma_dec_value_pos(hi);
        assert(is_digit(b.last()));
        assert(dec_value(b) == dec_value(hi) * 10 + digit_val(b.last()));
        assert(dec_value(hi) * 10 >= 10);
    }
}

/// A canonical numeral is the digit string of its own value: reading and
/// re-rendering is the identity.
pub proof fn lemma_canonical_dec_digits(b: Seq<u8>)
    requires
        canonical_dec(b),
    ensures
        dec_digits(dec_value(b)) == b,
    decreases b.len(),
{
    let v = dec_value(b);
    lemma_dec_value_nonneg(b);
    if b.len() == 1 {
        assert(b.drop_last() =~= Seq::<u8>::empty());
        assert(dec_value(Seq::<u8>::empty()) == 0);
        assert(b.last() == b[0]);
        assert(is_digit(b[0]));
        assert(v == digit_val(b[0]));
        assert(dec_digits(v) =~= b);
    } else {
        let hi = b.drop_last();
        assert(forall|i: int| 0 <= i < hi.len() ==> hi[i] == #[trigger] b[i]);
        assert(canonical_dec(hi));
        lemma_dec_value_pos(hi);
        let d = digit_val(b.last());
        assert(is_digit(b.last()));
        assert(v == dec_value(hi) * 10 + d);
        assert(v / 10 == dec_value(hi) && v % 10 == d) by (nonlinear_arith)
            requires
                v == dec_value(hi) * 10 + d,
                0 <= d < 10,
                dec_value(hi) >= 1,
        ;
        assert(v >= 10) by (nonlinear_arith)
            requires
                v == dec_value(hi) * 10 + d,
                0 <= d,
                dec_value(hi) >= 1,
        ;
        lemma_canonical_dec_digits(hi);
        assert(dec_digits(v) =~= dec_digits(v / 10) + seq![digit_byte(v % 10)]);
        assert(dec_digits(v) =~= b);
    }
}

/// Render `n` as decimal digit bytes.
pub fn u64_to_dec(n: u64) -> (v: Vec<u8>)
    ensures
        v@ == dec_digits(n as int),
    decreases n,
{
    if n < 10 {
        let mut v: Vec<u8> = Vec::new();
        v.push(48 + n as u8);
        proof {
            assert(v@ =~= dec_digits(n as int));
        }
        v
    } else {
        let mut v = u64_to_dec(n / 10);
        v.push(48 + (n % 10) as u8);
        proof {
            assert(v@ =~= dec_digits(n as int));
        }
        v
    }
}

/// Read a canonical decimal numeral; exactly the canonical numerals
/// whose value fits are accepted.
pub fn dec_to_u64(b: &[u8]) -> (r: Option<u64>)
    ensures
        r matches Some(v) ==> canonical_dec(b@) && dec_value(b@) == v,
        r is None ==> !(canonical_dec(b@) && dec_value(b@) <= u64::MAX),
{
    let n = b.len();
    if n == 0 {
        return None;
    }
    if n > 1 && b[0] == 48 {
        return None;
    }
    let mut value: u64 = 0;
    let mut i: usize = 0;
    while i < n
        invariant
            n == b@.len(),
            n > 0,
            n > 1 ==> b@[0] != 48,
            0 <= i <= n,
            all_digits(b@.take(i as int)),
            value == dec_value(b@.take(i as int)),
        decreases n - i,
    {
        let c = b[i];
        if !(48 <= c && c <= 57) {
            proof {
                assert(!is_digit(b@[i as int]));
            }
            return None;
        }
        let d = (c - 48) as u64;
        proof {
            assert(b@.take(i as int + 1).drop_last() =~= b@.take(i as int));
            assert(b@.take(i as int + 1).last() == b@[i as int]);
            assert(all_digits(b@.take(i as int + 1))) by {
                assert(forall|k: int|
                    0 <= k < i + 1 ==> b@.take(i as int + 1)[k] == #[trigger] b@[k]);
            }
        }
        if value > (u64::MAX - d) / 10 {
            proof {
                lemma_dec_value_nonneg(b@.take(i as int));
                assert(dec_value(b@.take(i as int + 1)) == value * 10 + d);
                assert(value * 10 + d > u64::MAX) by {
                    assert(value >= (u64::MAX - d) / 10 + 1);
                    assert(((u64::MAX - d) / 10 + 1) * 10 + d > u64::MAX) by {
                        assert((u64::MAX - d) / 10 * 10 + 9 >= u64::MAX - d);
                    }
                    assert(value * 10 >= ((u64::MAX - d) / 10 + 1) * 10) by (nonlinear_arith)
                        requires
                            value >= (u64::MAX - d) / 10 + 1,
                    ;
                }
                if canonical_dec(b@) {
                    lemma_dec_value_prefix(b@, i as int + 1);
                }
            }
            return None;
        }
        value = value * 10 + d;
        i += 1;
    }
    proof {
        assert(b@.take(n as int) =~= b@);
    }
    Some(value)
}

} // verus!
