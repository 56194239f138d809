//! Numbers as ASCII decimal text, as file names and marker records hold them.

use vstd::prelude::*;

verus! {

/// The decimal digits of `n`, most significant first, as ASCII bytes.
pub open spec fn decimal(n: nat) -> Seq<u8>
    decreases n,
{
    if n < 10 {
        seq![(48 + n) as u8]
    } else {
        decimal(n / 10).push((48 + n % 10) as u8)
    }
}

/// `count` ASCII zeros.
pub open spec fn zeros(count: nat) -> Seq<u8> {
    Seq::new(count, |i: int| 48u8)
}

/// The decimal digits of `n`, with zeros in front up to `width` bytes.
pub open spec fn zero_padded(n: nat, width: nat) -> Seq<u8> {
    if decimal(n).len() >= width {
        decimal(n)
    } else {
        zeros((width - decimal(n).len()) as nat) + decimal(n)
    }
}

/// Whether `b` is an ASCII decimal digit.
pub open spec fn is_digit(b: u8) -> bool {
    48 <= b <= 57
}

/// The number that `s` spells in decimal digits; `None` where `s` is empty
/// or holds a byte that is no digit.
pub open spec fn decimal_value(s: Seq<u8>) -> Option<nat>
    decreases s.len(),
{
    if s.len() == 0 || !is_digit(s.last()) {
        None
    } else if s.len() == 1 {
        Some((s.last() - 48) as nat)
    } else {
        match decimal_value(s.drop_last()) {
            Some(v) => Some(v * 10 + (s.last() - 48) as nat),
            None => None,
        }
    }
}

/// The digits of a number spell that number.
pub proof fn lemma_decimal_value(n: nat)
    ensures
        decimal_value(decimal(n)) == Some(n),
        decimal(n).len() >= 1,
    decreases n,
{
    if n >= 10 {
        lemma_decimal_value(n / 10);
        let s = decimal(n);
        assert(s.drop_last() =~= decimal(n / 10));
        assert(s.last() == (48 + n % 10) as u8);
    }
}

/// Zeros in front of digits do not change the number they spell.
pub proof fn lemma_leading_zeros(count: nat, s: Seq<u8>)
    requires
        decimal_value(s) is Some,
    ensures
        decimal_value(zeros(count) + s) == decimal_value(s),
    decreases s.len(),
{
    let t = zeros(count) + s;
    assert(t.last() == s.last());
    if s.len() == 1 {
        if count > 0 {
            lemma_only_zeros(count);
            assert(t.drop_last() =~= zeros(count));
        } else {
            assert(t =~= s);
        }
    } else {
        assert(t.drop_last() =~= zeros(count) + s.drop_last());
        lemma_leading_zeros(count, s.drop_last());
    }
}

/// A string of zeros spells zero.
pub proof fn lemma_only_zeros(count: nat)
    requires
        count > 0,
    ensures
        decimal_value(zeros(count)) == Some(0nat),
    decreases count,
{
    if count > 1 {
        assert(zeros(count).drop_last() =~= zeros((count - 1) as nat));
        lemma_only_zeros((count - 1) as nat);
    }
}

/// The padded digits of a number spell that number.
pub proof fn lemma_zero_padded_value(n: nat, width: nat)
    ensures
        decimal_value(zero_padded(n, width)) == Some(n),
        zero_padded(n, width).len() >= width,
        zero_padded(n, width).len() >= 1,
{
    lemma_decimal_value(n);
    if decimal(n).len() < width {
        lemma_leading_zeros((width - decimal(n).len()) as nat, decimal(n));
    }
}

/// A number of 64 bits has at most twenty digits.
pub proof fn lemma_decimal_len(n: nat)
    requires
        n <= u64::MAX,
    ensures
        decimal(n).len() <= 20,
{
    reveal_with_fuel(decimal, 21);
}

/// The decimal digits of `n`.
pub fn format_decimal(n: u64) -> (out: Vec<u8>)
    ensures
        out@ == decimal(n as nat),
{
    format_padded(n, 0)
}

/// The decimal digits of `n`, with zeros in front up to `width` bytes.
pub fn format_padded(n: u64, width: usize) -> (out: Vec<u8>)
    ensures
        out@ == zero_padded(n as nat, width as nat),
{
    // The digits, least significant first.
    let mut digits: Vec<u8> = Vec::new();
    let mut rest: u64 = n;
    while rest >= 10
        invariant
            decimal(n as nat) == decimal(rest as nat) + digits@.reverse(),
        decreases rest,
    {
        let d: u8 = (48 + rest % 10) as u8;
        proof {
            let before = digits@;
            assert(decimal(rest as nat) == decimal((rest / 10) as nat).push(d));
            assert(before.push(d).reverse() =~= seq![d] + before.reverse());
            assert(decimal((rest / 10) as nat).push(d) + before.reverse() =~= decimal(
                (rest / 10) as nat,
            ) + (seq![d] + before.reverse()));
        }
        digits.push(d);
        rest = rest / 10;
    }
    proof {
        let before = digits@;
        let d: u8 = (48 + rest) as u8;
        assert(decimal(rest as nat) =~= seq![d]);
        assert(before.push(d).reverse() =~= seq![d] + before.reverse());
        lemma_decimal_len(n as nat);
    }
    digits.push((48 + rest) as u8);
    assert(digits@.reverse() == decimal(n as nat));
    let mut out: Vec<u8> = Vec::new();
    let count = digits.len();
    let mut i: usize = count;
    assert(out@ =~= zeros(0));
    while i < width
        invariant
            count <= i,
            i <= width || i == count,
            count == digits@.len(),
            out@ == zeros((i - count) as nat),
        decreases width - i,
    {
        out.push(48u8);
        assert(out@ =~= zeros((i + 1 - count) as nat));
        i += 1;
    }
    let ghost pad = out@;
    let mut j: usize = count;
    while j > 0
        invariant
            j <= count,
            count == digits@.len(),
            out@ == pad + digits@.reverse().take(count - j),
        decreases j,
    {
        j -= 1;
        out.push(digits[j]);
        proof {
            let r = digits@.reverse();
            assert(r[count - 1 - j] == digits@[j as int]);
            assert(r.take(count - j) =~= r.take(count - j - 1).push(r[count - 1 - j]));
        }
    }
    proof {
        let r = digits@.reverse();
        assert(r.take(count as int) =~= r);
        if count >= width {
            assert(pad =~= Seq::<u8>::empty());
            assert(out@ =~= r);
        } else {
            assert(i == width);
        }
    }
    out
}

/// The number of 64 bits that `s` spells in decimal digits.
pub fn parse_decimal(s: &[u8]) -> (res: Option<u64>)
    ensures
        res == match decimal_value(s@) {
            Some(v) => if v <= u64::MAX {
                Some(v as u64)
            } else {
                None
            },
            None => None,
        },
{
    if s.len() == 0 {
        return None;
    }
    let mut value: u64 = 0;
    let mut i: usize = 0;
    while i < s.len()
        invariant
            i <= s@.len(),
            s@.len() > 0,
            i > 0 ==> decimal_value(s@.take(i as int)) == Some(value as nat),
            i == 0 ==> value == 0,
        decreases s@.len() - i,
    {
        let b: u8 = s[i];
        proof {
            assert(s@.take(i + 1).drop_last() =~= s@.take(i as int));
            assert(s@.take(i + 1).last() == b);
        }
        if b < 48 || b > 57 {
            proof {
                lemma_value_needs_digits(s@, i as int);
            }
            return None;
        }
        let d: u64 = (b - 48) as u64;
        if value > (u64::MAX - d) / 10 {
            proof {
                lemma_value_grows(s@, i + 1);
                assert(decimal_value(s@.take(i + 1)) == Some((value * 10 + d) as nat));
            }
            return None;
        }
        value = value * 10 + d;
        i += 1;
    }
    assert(s@.take(i as int) =~= s@);
    Some(value)
}

/// A byte that is no digit leaves the whole string without a value.
pub proof fn lemma_value_needs_digits(s: Seq<u8>, i: int)
    requires
        0 <= i < s.len(),
        !is_digit(s[i]),
    ensures
        decimal_value(s) is None,
    decreases s.len(),
{
    if i < s.len() - 1 {
        lemma_value_needs_digits(s.drop_last(), i);
    }
}

/// What a string spells is at least what any front part of it spells.
pub proof fn lemma_value_grows(s: Seq<u8>, n: int)
    requires
        0 < n <= s.len(),
    ensures
        decimal_value(s) is Some ==> decimal_value(s.take(n)) is Some && decimal_value(
            s.take(n),
        )->0 <= decimal_value(s)->0,
    decreases s.len(),
{
    if n == s.len() {
        assert(s.take(n) =~= s);
    } else if decimal_value(s) is Some {
        assert(s.drop_last().take(n) =~= s.take(n));
        lemma_value_grows(s.drop_last(), n);
    }
}

} // verus!
