//! Canonical decimal text: the minimal digit sequence of a natural number,
//! and the numeric value of a digit run inside a byte sequence.

use vstd::prelude::*;

verus! {

/// ASCII decimal digit.
pub open spec fn is_ascii_digit(b: u8) -> bool {
    48 <= b <= 57
}

/// The minimal decimal digit text of `n`: no leading zero, and `"0"` for zero.
pub open spec fn dec_digits(n: nat) -> Seq<u8>
    decreases n,
{
    if n < 10 {
        seq![(48 + n) as u8]
    } else {
        dec_digits(n / 10).push((48 + n % 10) as u8)
    }
}

/// The value of the digit bytes `s[i..j)`, read most significant first.
pub open spec fn digits_value(s: Seq<u8>, i: int, j: int) -> int
    decreases j - i
        when i <= j
{
    if j <= i {
        0
    } else {
        digits_value(s, i, j - 1) * 10 + (s[j - 1] - 48)
    }
}

pub proof fn lemma_dec_digits(n: nat)
    ensures
        dec_digits(n).len() >= 1,
        forall|k: int| 0 <= k < dec_digits(n).len() ==> is_ascii_digit(#[trigger] dec_digits(n)[k]),
        n > 0 ==> dec_digits(n)[0] != 48,
        n < 10 <==> dec_digits(n).len() == 1,
    decreases n,
{
    if n >= 10 {
        lemma_dec_digits(n / 10);
        assert(n / 10 >= 1);
        assert forall|k: int| 0 <= k < dec_digits(n).len() implies is_ascii_digit(
            #[trigger] dec_digits(n)[k],
        ) by {
            if k < dec_digits(n / 10).len() {
                assert(dec_digits(n)[k] == dec_digits(n / 10)[k]);
            }
        }
        assert(dec_digits(n)[0] == dec_digits(n / 10)[0]);
    }
}

/// Reading back the digit text of `n` yields `n`.
pub proof fn lemma_digits_value_of_dec_digits(n: nat, s: Seq<u8>, i: int)
    requires
        0 <= i,
        i + dec_digits(n).len() <= s.len(),
        s.subrange(i, i + dec_digits(n).len() as int) == dec_digits(n),
    ensures
        digits_value(s, i, i + dec_digits(n).len() as int) == n,
    decreases n,
{
    let l = dec_digits(n);
    let j = i + l.len() as int;
    assert(s.subrange(i, j)[l.len() - 1] == s[j - 1]);
    if n < 10 {
        assert(s[j - 1] == l[0]);
        assert((48 + n) as u8 == 48 + n);
        assert(digits_value(s, i, j) == digits_value(s, i, i) * 10 + (s[j - 1] - 48));
    } else {
        let prev = dec_digits(n / 10);
        assert(l == prev.push((48 + n % 10) as u8));
        assert forall|k: int| 0 <= k < prev.len() implies s.subrange(i, i + prev.len() as int)[k]
            == prev[k] by {
            assert(s.subrange(i, i + prev.len() as int)[k] == s[i + k]);
            assert(s.subrange(i, j)[k] == s[i + k]);
            assert(l[k] == prev[k]);
        }
        assert(s.subrange(i, i + prev.len() as int) =~= prev);
        lemma_digits_value_of_dec_digits(n / 10, s, i);
        assert(s[j - 1] == l[l.len() - 1]);
        assert(s[j - 1] == (48 + n % 10) as u8);
        assert((48 + n % 10) as u8 == 48 + n % 10);
        assert(j - 1 == i + prev.len());
        assert(digits_value(s, i, j - 1) == n / 10);
        assert(digits_value(s, i, j) == digits_value(s, i, j - 1) * 10 + (s[j - 1] - 48));
        assert(n == (n / 10) * 10 + n % 10);
    }
}

pub proof fn lemma_digits_value_nonneg(s: Seq<u8>, i: int, j: int)
    requires
        0 <= i <= j,
        forall|t: int| i <= t < j ==> is_ascii_digit(#[trigger] s[t]),
    ensures
        digits_value(s, i, j) >= 0,
    decreases j - i,
{
    if j > i {
        lemma_digits_value_nonneg(s, i, j - 1);
    }
}

/// A longer digit run never has a smaller value.
pub proof fn lemma_digits_value_mono(s: Seq<u8>, i: int, t: int, j: int)
    requires
        0 <= i <= t <= j,
        forall|k: int| i <= k < j ==> is_ascii_digit(#[trigger] s[k]),
    ensures
        digits_value(s, i, t) <= digits_value(s, i, j),
    decreases j - t,
{
    if t < j {
        lemma_digits_value_mono(s, i, t, j - 1);
        lemma_digits_value_nonneg(s, i, j - 1);
    }
}

} // verus!
