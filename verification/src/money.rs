//! Exact integer money.
//!
//! Amounts are `i128` in an asset's smallest unit. A single ledger leg
//! always fits `i64`, but the library accumulates, and cumulative gross
//! flow can exceed `i64`; `i128` carries the headroom. Every addition is
//! checked: its contract demands that the sum fits, so no accumulation can
//! wrap. No float ever touches a value, in arithmetic or in rendering.
use crate::text::{int_str, nat_str, push_int, push_nat, push_str, push_char};
use vstd::prelude::*;
use vstd::string::*;

verus! {

/// A signed amount in an asset's smallest unit.
pub type Amount = i128;

/// Addition of two amounts. The sum must fit `i128`: an overflow is a bug
/// or a crafted input, and no caller can reach one.
pub fn add(a: Amount, b: Amount) -> (r: Amount)
    requires
        i128::MIN <= a + b <= i128::MAX,
    ensures
        r == a + b,
{
    a + b
}

/// Add `b` into the accumulator `a` in place.
pub fn add_assign(a: &mut Amount, b: Amount)
    requires
        i128::MIN <= *old(a) + b <= i128::MAX,
    ensures
        *final(a) == *old(a) + b,
{
    *a = self::add(*a, b);
}

/// `10^n`.
pub open spec fn pow10(n: nat) -> nat
    decreases n,
{
    if n == 0 {
        1
    } else {
        10 * pow10((n - 1) as nat)
    }
}

/// `d`, left-padded with `'0'` to at least `width` characters.
pub open spec fn zero_pad(d: Seq<char>, width: nat) -> Seq<char> {
    if d.len() >= width {
        d
    } else {
        Seq::new((width - d.len()) as nat, |i: int| '0') + d
    }
}

/// The magnitude of an integer.
pub open spec fn magnitude(x: int) -> nat {
    if x < 0 {
        (-x) as nat
    } else {
        x as nat
    }
}

/// The rendering of `amount` (smallest units) at `decimals` places: the
/// sign, the whole part, and (for a nonzero scale) a `.` and the fraction
/// zero-padded to exactly `decimals` digits, then `suffix`. A scale whose
/// `10^decimals` does not fit `u128` (more than 38 places) is not scaled:
/// the raw amount is shown with a note.
pub open spec fn render_spec(amount: int, decimals: nat, suffix: Seq<char>) -> Seq<char> {
    if decimals > 38 {
        int_str(amount) + " (raw, "@ + nat_str(decimals) + " decimals)"@ + suffix
    } else {
        let scale = pow10(decimals);
        let sign = if amount < 0 {
            seq!['-']
        } else {
            Seq::<char>::empty()
        };
        let whole = magnitude(amount) / scale;
        if decimals == 0 {
            sign + nat_str(whole) + suffix
        } else {
            sign + nat_str(whole) + seq!['.'] + zero_pad(
                nat_str(magnitude(amount) % scale),
                decimals,
            ) + suffix
        }
    }
}

proof fn lemma_pow10_monotone(a: nat, b: nat)
    requires
        a <= b,
    ensures
        pow10(a) <= pow10(b),
    decreases b,
{
    if a < b {
        lemma_pow10_monotone(a, (b - 1) as nat);
    }
}

proof fn lemma_pow10_38()
    ensures
        pow10(38) == 100000000000000000000000000000000000000,
{
    reveal_with_fuel(pow10, 39);
}

/// `10^decimals` as a `u128`, for `decimals <= 38`.
fn scale_of(decimals: u8) -> (r: u128)
    requires
        decimals <= 38,
    ensures
        r == pow10(decimals as nat),
{
    let mut s: u128 = 1;
    let mut i: u8 = 0;
    while i < decimals
        invariant
            i <= decimals <= 38,
            s == pow10(i as nat),
        decreases decimals - i,
    {
        proof {
            lemma_pow10_monotone(i as nat, 37);
            lemma_pow10_38();
            assert(pow10(38) == 10 * pow10(37));
        }
        s = s * 10;
        i += 1;
    }
    s
}

/// Format `amount` (smallest units) at `decimals` places, exactly, by
/// integer split; `suffix` is appended as-is (e.g. `" ℏ"` or `""`).
pub fn render(amount: Amount, decimals: u8, suffix: &str) -> (r: String)
    ensures
        r@ == render_spec(amount as int, decimals as nat, suffix@),
{
    let mut out = String::new();
    if decimals > 38 {
        push_int(&mut out, amount);
        push_str(&mut out, " (raw, ");
        push_nat(&mut out, decimals as u128);
        push_str(&mut out, " decimals)");
        push_str(&mut out, suffix);
        assert(out@ =~= render_spec(amount as int, decimals as nat, suffix@));
        return out;
    }
    let scale = scale_of(decimals);
    proof {
        lemma_pow10_monotone(0, decimals as nat);
    }
    let abs: u128 = if amount < 0 {
        ((-(amount + 1)) as u128) + 1
    } else {
        amount as u128
    };
    assert(abs == magnitude(amount as int));
    if amount < 0 {
        push_char(&mut out, '-');
    }
    let ghost sign = out@;
    let whole = abs / scale;
    push_nat(&mut out, whole);
    if decimals == 0 {
        push_str(&mut out, suffix);
        assert(out@ =~= render_spec(amount as int, decimals as nat, suffix@));
        return out;
    }
    push_char(&mut out, '.');
    let frac = abs % scale;
    let mut digits = String::new();
    push_nat(&mut digits, frac);
    let n = digits.as_str().unicode_len();
    let ghost before = out@;
    if n < decimals as usize {
        let mut k: usize = 0;
        let pad: usize = decimals as usize - n;
        while k < pad
            invariant
                k <= pad,
                out@ == before + Seq::new(k as nat, |i: int| '0'),
            decreases pad - k,
        {
            push_char(&mut out, '0');
            assert(before + Seq::new((k + 1) as nat, |i: int| '0') =~= (before + Seq::new(
                k as nat,
                |i: int| '0',
            )).push('0'));
            k += 1;
        }
    }
    push_str(&mut out, digits.as_str());
    push_str(&mut out, suffix);
    assert(digits@ =~= nat_str(frac as nat));
    assert(out@ =~= render_spec(amount as int, decimals as nat, suffix@));
    out
}

} // verus!
