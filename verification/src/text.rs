//! The byte-level text model shared by the scanner and the writer:
//! what counts as whitespace, the value of a run of digit bytes, and the
//! decimal spelling of a natural number.
use vstd::prelude::*;

verus! {

/// Bytes at or below ASCII space separate tokens.
pub open spec fn is_space(b: u8) -> bool {
    b <= 32
}

/// The value of a run of bytes read as decimal digits, most significant
/// first: every byte contributes `byte - '0'`.
pub open spec fn digits_value(s: Seq<u8>) -> int
    decreases s.len(),
{
    if s.len() == 0 {
        0
    } else {
        digits_value(s.drop_last()) * 10 + (s.last() - 48)
    }
}

/// Every byte of `s` is at least the byte `'0'`.
pub open spec fn all_at_least_zero_digit(s: Seq<u8>) -> bool {
    forall|i: int| 0 <= i < s.len() ==> #[trigger] s[i] >= 48
}

/// The shortest decimal spelling of `n` in ASCII digits ("0" for zero).
pub open spec fn decimal(n: nat) -> Seq<u8>
    decreases n,
{
    if n < 10 {
        seq![(48 + n) as u8]
    } else {
        decimal(n / 10).push((48 + n % 10) as u8)
    }
}

/// The digits of `s` never go below `'0'`, so its value is not negative.
pub proof fn lemma_digits_value_nonneg(s: Seq<u8>)
    requires
        all_at_least_zero_digit(s),
    ensures
        digits_value(s) >= 0,
    decreases s.len(),
{
    if s.len() > 0 {
        assert(s.last() == s[s.len() - 1]);
        lemma_digits_value_nonneg(s.drop_last());
    }
}

/// Reading fewer digits never gives a larger value.
pub proof fn lemma_digits_value_prefix(s: Seq<u8>, k: int)
    requires
        0 <= k <= s.len(),
        all_at_least_zero_digit(s),
    ensures
        0 <= digits_value(s.take(k)) <= digits_value(s),
    decreases s.len(),
{
    if k == s.len() {
        assert(s.take(k) =~= s);
        lemma_digits_value_nonneg(s);
    } else {
        let t = s.drop_last();
        assert(t.take(k) =~= s.take(k));
        lemma_digits_value_prefix(t, k);
        lemma_digits_value_nonneg(t);
        assert(s.last() == s[s.len() - 1]);
    }
}

/// Extending a run by one byte multiplies its value by ten and adds the digit.
pub proof fn lemma_digits_value_push(s: Seq<u8>, b: u8)
    ensures
        digits_value(s.push(b)) == digits_value(s) * 10 + (b - 48),
{
    assert(s.push(b).drop_last() =~= s);
}

/// Every byte of a decimal spelling is one of `'0'` to `'9'`, and the
/// spelling has between one and ten bytes for a value below 2^32.
pub proof fn lemma_decimal_digits(n: nat)
    ensures
        decimal(n).len() >= 1,
        forall|i: int| 0 <= i < decimal(n).len() ==> 48 <= #[trigger] decimal(n)[i] <= 57,
        n <= u32::MAX ==> decimal(n).len() <= 10,
    decreases n,
{
    if n >= 10 {
        lemma_decimal_digits(n / 10);
        let d = decimal(n / 10);
        assert forall|i: int| 0 <= i < decimal(n).len() implies 48 <= #[trigger] decimal(n)[i]
            <= 57 by {
            if i < d.len() {
                assert(decimal(n)[i] == d[i]);
            }
        }
        if n <= u32::MAX {
            lemma_decimal_len_bound(n);
        }
    }
}

/// The spelling of a u32 has at most ten bytes.
proof fn lemma_decimal_len_bound(n: nat)
    requires
        n <= u32::MAX,
    ensures
        decimal(n).len() <= 10,
{
    reveal_with_fuel(pow10, 11);
    assert(pow10(10) == 10_000_000_000);
    lemma_decimal_len_below(n, 10);
}

/// The spelling of a value below 10^k has at most k bytes.
proof fn lemma_decimal_len_below(n: nat, k: nat)
    requires
        k >= 1,
        n < pow10(k),
    ensures
        decimal(n).len() <= k,
    decreases k,
{
    if n >= 10 {
        assert(k >= 2) by {
            if k == 1 {
                assert(pow10(1) == 10 * pow10(0));
            }
        }
        assert(pow10(k) == 10 * pow10((k - 1) as nat));
        assert(n / 10 < pow10((k - 1) as nat));
        lemma_decimal_len_below(n / 10, (k - 1) as nat);
    }
}

/// Ten to the power `k`.
pub open spec fn pow10(k: nat) -> nat
    decreases k,
{
    if k == 0 {
        1
    } else {
        10 * pow10((k - 1) as nat)
    }
}

/// Reading a decimal spelling back as digits gives the number it spells.
pub proof fn lemma_decimal_value(n: nat)
    ensures
        digits_value(decimal(n)) == n,
        all_at_least_zero_digit(decimal(n)),
    decreases n,
{
    lemma_decimal_digits(n);
    if n < 10 {
        let d = decimal(n);
        assert(d.drop_last() =~= Seq::<u8>::empty());
        assert(digits_value(d.drop_last()) == 0);
        assert(d.last() == d[0]);
        assert(d[0] == 48 + n);
    } else {
        lemma_decimal_value(n / 10);
        let b: u8 = (48 + n % 10) as u8;
        assert(b == 48 + n % 10);
        lemma_digits_value_push(decimal(n / 10), b);
        assert(decimal(n) == decimal(n / 10).push(b));
    }
}

} // verus!
