//! Counting the decimal digits of unsigned numbers.

use vstd::prelude::*;

verus! {

/// The number of decimal digits of `n`, with zero having none.
pub open spec fn decimal_len(n: nat) -> nat
    decreases n,
{
    if n == 0 {
        0
    } else {
        1 + decimal_len(n / 10)
    }
}

/// Ten to the power `k`.
pub open spec fn pow10(k: nat) -> nat
    decreases k,
{
    if k == 0 {
        1
    } else {
        10 * pow10((k - 1) as nat)
    }
}

proof fn lemma_decimal_len_bound(n: nat, k: nat)
    requires
        n < pow10(k),
    ensures
        decimal_len(n) <= k,
    decreases k,
{
    if n > 0 && k > 0 {
        lemma_decimal_len_bound(n / 10, (k - 1) as nat);
    }
}

/// The number of decimal digits of `n`.
fn count_digits(n: u64) -> (r: u64)
    ensures
        r == decimal_len(n as nat),
        r <= 20,
{
    proof {
        reveal_with_fuel(pow10, 21);
        assert(pow10(20) == 100_000_000_000_000_000_000);
        lemma_decimal_len_bound(n as nat, 20);
    }
    let mut rest = n;
    let mut count: u64 = 0;
    while rest > 0
        invariant
            count + decimal_len(rest as nat) == decimal_len(n as nat),
            decimal_len(n as nat) <= 20,
        decreases rest,
    {
        rest = rest / 10;
        count += 1;
    }
    count
}

/// Adds the ability for numbers to count their decimal digits.
pub trait Digits: Sized {
    /// The number's value.
    spec fn value(&self) -> nat;

    /// Counts the number of digits in a number. **Example:** {{0 = 0}, {1 = 1},
    /// {10 = 2}, {100 = 3}}
    fn digits(&self) -> (r: Self)
        ensures
            r.value() == decimal_len(self.value()),
    ;
}

impl Digits for u64 {
    open spec fn value(&self) -> nat {
        *self as nat
    }

    fn digits(&self) -> (r: u64) {
        count_digits(*self)
    }
}

impl Digits for usize {
    open spec fn value(&self) -> nat {
        *self as nat
    }

    fn digits(&self) -> (r: usize) {
        count_digits(*self as u64) as usize
    }
}

impl Digits for u32 {
    open spec fn value(&self) -> nat {
        *self as nat
    }

    fn digits(&self) -> (r: u32) {
        count_digits(*self as u64) as u32
    }
}

impl Digits for u16 {
    open spec fn value(&self) -> nat {
        *self as nat
    }

    fn digits(&self) -> (r: u16) {
        count_digits(*self as u64) as u16
    }
}

impl Digits for u8 {
    open spec fn value(&self) -> nat {
        *self as nat
    }

    fn digits(&self) -> (r: u8) {
        count_digits(*self as u64) as u8
    }
}

} // verus!
