use vstd::prelude::*;

use crate::ascii::{D0, D9};

verus! {

// Canonical decimal numerals: the textual form of the cost parameters and
// of the version number inside an encoded hash string.  A numeral is
// canonical when it is nonempty, all digits, and free of leading zeros.

pub open spec fn is_digit(c: u8) -> bool {
    D0 <= c <= D9
}

pub open spec fn all_digits(s: Seq<u8>) -> bool {
    forall|i: int| 0 <= i < s.len() ==> is_digit(#[trigger] s[i])
}

/// The canonical decimal numeral of `n`, most significant digit first.
pub open spec fn dec_digits(n: nat) -> Seq<u8>
    decreases n,
{
    if n < 10 {
        seq![(D0 + n) as u8]
    } else {
        dec_digits(n / 10) + seq![(D0 + n % 10) as u8]
    }
}

/// The value of a digit string, most significant digit first.
pub open spec fn digits_val(s: Seq<u8>) -> int
    decreases s.len(),
{
    if s.len() == 0 {
        0
    } else {
        digits_val(s.drop_last()) * 10 + (s.last() - D0)
    }
}

/// A canonical numeral: nonempty, all digits, no leading zero.
pub open spec fn canonical_dec(s: Seq<u8>) -> bool {
    &&& s.len() >= 1
    &&& all_digits(s)
    &&& (s.len() > 1 ==> s[0] != D0)
}

/// The number a canonical numeral denotes, if it is one and fits in `u32`.
pub open spec fn parse_u32(s: Seq<u8>) -> Option<u32> {
    if canonical_dec(s) && digits_val(s) <= u32::MAX {
        Some(digits_val(s) as u32)
    } else {
        None
    }
}

pub proof fn lemma_val_nonneg(s: Seq<u8>)
    requires
        all_digits(s),
    ensures
        digits_val(s) >= 0,
    decreases s.len(),
{
    if s.len() > 0 {
        assert(all_digits(s.drop_last()));
        lemma_val_nonneg(s.drop_last());
    }
}

pub proof fn lemma_val_pos(s: Seq<u8>)
    requires
        all_digits(s),
        s.len() >= 1,
        s[0] != D0,
    ensures
        digits_val(s) >= 1,
    decreases s.len(),
{
    if s.len() == 1 {
        assert(digits_val(s.drop_last()) == 0);
    } else {
        assert(all_digits(s.drop_last()));
        lemma_val_pos(s.drop_last());
    }
}

/// The printed numeral is made of digits, has no leading zero, and its
/// value is `n` again.
pub proof fn lemma_dec_digits(n: nat)
    ensures
        dec_digits(n).len() >= 1,
        all_digits(dec_digits(n)),
        canonical_dec(dec_digits(n)),
        n >= 1 ==> dec_digits(n)[0] != D0,
        digits_val(dec_digits(n)) == n,
    decreases n,
{
    if n < 10 {
        let s = dec_digits(n);
        assert(s == seq![(D0 + n) as u8]);
        assert(s.drop_last() =~= Seq::<u8>::empty());
        assert(digits_val(s.drop_last()) == 0);
        assert(s.last() == (D0 + n) as u8);
        assert(digits_val(s) == n);
    } else {
        lemma_dec_digits(n / 10);
        let hi = dec_digits(n / 10);
        let s = dec_digits(n);
        assert(s == hi + seq![(D0 + n % 10) as u8]);
        assert(s.drop_last() =~= hi);
        assert(s.last() == (D0 + n % 10) as u8);
        assert(digits_val(s) == (n / 10) * 10 + n % 10);
        assert((n / 10) * 10 + n % 10 == n) by (nonlinear_arith);
        assert(s[0] == hi[0]);
        assert(n / 10 >= 1);
    }
}

/// A canonical numeral is the printed form of its own value: printing is
/// injective and parsing inverts it.
pub proof fn lemma_dec_canonical(s: Seq<u8>)
    requires
        canonical_dec(s),
        digits_val(s) >= 0,
    ensures
        dec_digits(digits_val(s) as nat) == s,
    decreases s.len(),
{
    let n = digits_val(s) as nat;
    if s.len() == 1 {
        assert(s.drop_last() =~= Seq::<u8>::empty());
        assert(digits_val(s.drop_last()) == 0);
        assert(is_digit(s[0]));
        assert(s.last() == s[0]);
        assert(n < 10);
        assert(dec_digits(n) == seq![(D0 + n) as u8]);
        assert((D0 + n) as u8 == s[0]);
        assert(dec_digits(n) =~= s);
    } else {
        let hi = s.drop_last();
        assert(all_digits(hi));
        assert(hi[0] == s[0]);
        lemma_val_pos(hi);
        lemma_val_nonneg(hi);
        assert(canonical_dec(hi));
        lemma_dec_canonical(hi);
        let d = (s.last() - D0) as int;
        assert(0 <= d < 10);
        assert(digits_val(s) == digits_val(hi) * 10 + d);
        assert(n >= 10) by (nonlinear_arith)
            requires
                digits_val(hi) >= 1,
                0 <= d < 10,
                n == digits_val(hi) * 10 + d,
        ;
        assert(n / 10 == digits_val(hi) && n % 10 == d) by (nonlinear_arith)
            requires
                digits_val(hi) >= 0,
                0 <= d < 10,
                n == digits_val(hi) * 10 + d,
        ;
        assert(dec_digits(n) == dec_digits(n / 10) + seq![(D0 + n % 10) as u8]);
        assert(dec_digits(n / 10) == hi);
        assert((D0 + n % 10) as u8 == s.last());
        assert(dec_digits(n) =~= s);
    }
}

/// Appending one digit multiplies the value by ten and adds the digit.
pub proof fn lemma_val_push(s: Seq<u8>, c: u8)
    ensures
        digits_val(s.push(c)) == digits_val(s) * 10 + (c - D0),
{
    assert(s.push(c).drop_last() =~= s);
    assert(s.push(c).last() == c);
}

/// Prints `n` as its canonical decimal numeral.
pub fn u32_to_dec(n: u32) -> (r: Vec<u8>)
    ensures
        r@ == dec_digits(n as nat),
    decreases n,
{
    if n < 10 {
        let mut v: Vec<u8> = Vec::new();
        v.push(D0 + (n as u8));
        proof {
            assert(v@ =~= dec_digits(n as nat));
        }
        v
    } else {
        let mut v = u32_to_dec(n / 10);
        v.push(D0 + ((n % 10) as u8));
        proof {
            assert(v@ =~= dec_digits(n as nat));
        }
        v
    }
}

/// Parses a canonical decimal numeral that fits in `u32`; rejects anything
/// else, exactly as `parse_u32` does.
pub fn parse_u32_exec(s: &[u8]) -> (r: Option<u32>)
    ensures
        r == parse_u32(s@),
{
    let n = s.len();
    if n == 0 {
        return None;
    }
    if n > 1 && s[0] == D0 {
        return None;
    }
    let mut acc: u64 = 0;
    let mut i: usize = 0;
    while i < n
        invariant
            0 <= i <= n,
            n == s@.len(),
            n >= 1,
            n > 1 ==> s@[0] != D0,
            all_digits(s@.take(i as int)),
            acc == digits_val(s@.take(i as int)),
            acc <= u32::MAX,
        decreases n - i,
    {
        let c = s[i];
        if c < D0 || c > D9 {
            assert(!is_digit(s@[i as int]));
            return None;
        }
        proof {
            assert(s@.take(i as int).push(c) =~= s@.take((i + 1) as int));
            lemma_val_push(s@.take(i as int), c);
        }
        acc = acc * 10 + ((c - D0) as u64);
        i = i + 1;
        if acc > 0xFFFF_FFFF {
            proof {
                if all_digits(s@) {
                    lemma_val_tail_ge(s@, i as int);
                }
            }
            return None;
        }
    }
    proof {
        assert(s@.take(n as int) =~= s@);
    }
    Some(acc as u32)
}

/// Extending a digit string to the right never decreases its value.
proof fn lemma_val_tail_ge(s: Seq<u8>, i: int)
    requires
        0 <= i <= s.len(),
        all_digits(s),
        digits_val(s.take(i)) >= 0,
    ensures
        digits_val(s) >= digits_val(s.take(i)),
    decreases s.len() - i,
{
    if i < s.len() {
        assert(s.take(i + 1).drop_last() =~= s.take(i));
        assert(digits_val(s.take(i + 1)) == digits_val(s.take(i)) * 10 + (s[i] - D0));
        assert(digits_val(s.take(i + 1)) >= digits_val(s.take(i))) by (nonlinear_arith)
            requires
                digits_val(s.take(i + 1)) == digits_val(s.take(i)) * 10 + (s[i] - D0),
                digits_val(s.take(i)) >= 0,
                s[i] >= D0,
        ;
        lemma_val_tail_ge(s, i + 1);
    } else {
        assert(s.take(i) =~= s);
    }
}

} // verus!
