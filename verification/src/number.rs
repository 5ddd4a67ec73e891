//! Decimal numbers as text.
use vstd::prelude::*;

verus! {

/// The decimal digits of `n`.
pub open spec fn decimal(n: nat) -> Seq<u8>
    decreases n,
{
    if n < 10 {
        seq![(0x30 + n) as u8]
    } else {
        decimal(n / 10).push((0x30 + n % 10) as u8)
    }
}

/// Whether `s` is made of digits.
pub open spec fn all_digits(s: Seq<u8>) -> bool {
    forall|i: int| 0 <= i < s.len() ==> 0x30 <= #[trigger] s[i] <= 0x39
}

/// The number that the digits `s` spell.
pub open spec fn digits_value(s: Seq<u8>) -> nat
    decreases s.len(),
{
    if s.len() == 0 {
        0
    } else {
        (digits_value(s.drop_last()) * 10 + (s.last() - 0x30)) as nat
    }
}

/// The number up to `max` that `s` spells: at least one digit, with a plus sign or without.
pub open spec fn number_of(s: Seq<u8>, max: nat) -> Option<nat> {
    let digits = if s.len() > 0 && s[0] == 0x2b {
        s.drop_first()
    } else {
        s
    };
    if digits.len() > 0 && all_digits(digits) && digits_value(digits) <= max {
        Some(digits_value(digits))
    } else {
        None
    }
}

/// Writes a number in decimal digits.
pub fn to_decimal(n: u64) -> (r: Vec<u8>)
    ensures
        r@ == decimal(n as nat),
    decreases n,
{
    if n < 10 {
        let mut r: Vec<u8> = Vec::new();
        r.push(0x30 + n as u8);
        assert(r@ =~= decimal(n as nat));
        r
    } else {
        let mut r = to_decimal(n / 10);
        r.push(0x30 + (n % 10) as u8);
        r
    }
}

/// Reads a number of at most `max`.
pub fn parse_int(s: &[u8], max: u16) -> (r: Option<u16>)
    ensures
        match r {
            Some(v) => number_of(s@, max as nat) == Some(v as nat),
            None => number_of(s@, max as nat) is None,
        },
{
    let start: usize = if s.len() > 0 && s[0] == 0x2b {
        1
    } else {
        0
    };
    let ghost digits = s@.skip(start as int);
    proof {
        if start == 1 {
            assert(s@.drop_first() =~= digits);
        } else {
            assert(s@ =~= digits);
        }
    }
    if s.len() == start {
        return None;
    }
    let mut v: u32 = 0;
    let mut i: usize = start;
    assert(digits.take(0) =~= Seq::empty());
    while i < s.len()
        invariant
            start <= i <= s@.len(),
            start <= 1,
            digits == s@.skip(start as int),
            digits.len() > 0,
            number_of(s@, max as nat) == if all_digits(digits) && digits_value(digits) <= max {
                Some(digits_value(digits))
            } else {
                None
            },
            all_digits(digits.take(i - start)),
            v == digits_value(digits.take(i - start)),
            v <= max,
        decreases s@.len() - i,
    {
        let b: u8 = s[i];
        let ghost n = i - start;
        assert(b == digits[n]);
        if b < 0x30 || b > 0x39 {
            assert(!all_digits(digits));
            return None;
        }
        v = v * 10 + (b - 0x30) as u32;
        proof {
            let more = digits.take(n + 1);
            assert(more.drop_last() =~= digits.take(n));
            assert forall|j: int| 0 <= j < more.len() implies 0x30 <= #[trigger] more[j]
                <= 0x39 by {
                if j < n {
                    assert(more[j] == digits.take(n)[j]);
                }
            }
        }
        if v > max as u32 {
            proof {
                lemma_longer(digits, n + 1);
            }
            return None;
        }
        i += 1;
    }
    assert(digits.take(i - start) =~= digits);
    Some(v as u16)
}

/// More digits spell a number that is not smaller.
proof fn lemma_longer(s: Seq<u8>, n: int)
    requires
        0 <= n <= s.len(),
    ensures
        all_digits(s) ==> digits_value(s.take(n)) <= digits_value(s),
    decreases s.len() - n,
{
    if n == s.len() {
        assert(s.take(n) =~= s);
    } else {
        assert(s.take(n + 1).drop_last() =~= s.take(n));
        lemma_longer(s, n + 1);
        if all_digits(s) {
            assert(0x30 <= s[n] <= 0x39);
        }
    }
}

/// A number that was written in digits is read back.
pub proof fn law_number_round_trip(n: nat, max: nat)
    requires
        n <= max,
    ensures
        number_of(decimal(n), max) == Some(n),
{
    lemma_decimal(n);
}

proof fn lemma_decimal(n: nat)
    ensures
        decimal(n).len() > 0,
        all_digits(decimal(n)),
        digits_value(decimal(n)) == n,
    decreases n,
{
    if n < 10 {
        assert(decimal(n).drop_last() =~= Seq::empty());
        assert(digits_value(decimal(n).drop_last()) == 0);
    } else {
        lemma_decimal(n / 10);
        let init = decimal(n / 10);
        assert(decimal(n).drop_last() =~= init);
        assert forall|i: int| 0 <= i < decimal(n).len() implies 0x30 <= #[trigger] decimal(n)[i]
            <= 0x39 by {
            if i < init.len() {
                assert(decimal(n)[i] == init[i]);
            }
        }
    }
}

/// A number is written without leading zeros: one digit up to nine, else the digits of a tenth
/// of it and the last digit behind them.
pub proof fn law_decimal_digits(n: nat)
    ensures
        n < 10 ==> decimal(n).len() == 1 && decimal(n)[0] == 0x30 + n,
        n >= 10 ==> {
            &&& decimal(n).len() == decimal(n / 10).len() + 1
            &&& decimal(n).drop_last() == decimal(n / 10)
            &&& decimal(n).last() == 0x30 + n % 10
        },
        decimal(n).len() > 0,
        n > 0 ==> decimal(n)[0] != 0x30,
        forall|i: int| 0 <= i < decimal(n).len() ==> 0x30 <= #[trigger] decimal(n)[i] <= 0x39,
    decreases n,
{
    lemma_decimal(n);
    if n >= 10 {
        law_decimal_digits(n / 10);
        assert(decimal(n).drop_last() =~= decimal(n / 10));
        assert(decimal(n)[0] == decimal(n / 10)[0]);
    }
}

/// What digits spell: each digit counts ten times what it counts one place further right.
pub proof fn law_digits_value(s: Seq<u8>, d: u8)
    requires
        0x30 <= d <= 0x39,
    ensures
        digits_value(Seq::empty()) == 0,
        digits_value(s.push(d)) == 10 * digits_value(s) + (d - 0x30),
{
    assert(s.push(d).drop_last() =~= s);
}

/// Which texts are numbers: at least one digit and nothing but digits, with one plus sign
/// before them or none, and no more than `max`. The number is what the digits spell.
pub proof fn law_number_of(digits: Seq<u8>, max: nat)
    ensures
        ({
            let is_number = digits.len() > 0 && (forall|i: int|
                0 <= i < digits.len() ==> 0x30 <= #[trigger] digits[i] <= 0x39) && digits_value(
                digits,
            ) <= max;
            let signed = seq![0x2bu8] + digits;
            &&& is_number ==> number_of(digits, max) == Some(digits_value(digits))
            &&& is_number ==> number_of(signed, max) == Some(digits_value(digits))
            &&& !is_number ==> number_of(signed, max) is None
            &&& !is_number && (digits.len() > 0 ==> digits[0] != 0x2b) ==> number_of(
                digits,
                max,
            ) is None
        }),
{
    let signed = seq![0x2bu8] + digits;
    assert(signed.drop_first() =~= digits);
}

} // verus!
