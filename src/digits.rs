//! Base-3 decomposition of 64-bit integers.

use vstd::prelude::*;
use vstd::arithmetic::div_mod::{lemma_breakdown, lemma_div_denominator};

verus! {

/// `3^i`.
pub open spec fn pow3(i: nat) -> nat
    decreases i,
{
    if i == 0 {
        1
    } else {
        3 * pow3((i - 1) as nat)
    }
}

/// The `i`-th base-3 digit of `x`, least significant first.
pub open spec fn digit(x: nat, i: nat) -> nat {
    (x / pow3(i)) % 3
}

/// `Σ_{i < n} d[i]·3^i`, the value that the first `n` digits of `d` stand for.
pub open spec fn digits_value(d: Seq<u8>, n: nat) -> nat
    decreases n,
{
    if n == 0 {
        0
    } else {
        digits_value(d, (n - 1) as nat) + d[n - 1] as nat * pow3((n - 1) as nat)
    }
}

pub proof fn lemma_pow3_positive(i: nat)
    ensures
        pow3(i) >= 1,
    decreases i,
{
    if i > 0 {
        lemma_pow3_positive((i - 1) as nat);
    }
}

pub proof fn lemma_pow3_monotone(i: nat, j: nat)
    requires
        i <= j,
    ensures
        pow3(i) <= pow3(j),
    decreases j - i,
{
    if i < j {
        lemma_pow3_monotone(i, (j - 1) as nat);
        lemma_pow3_positive((j - 1) as nat);
    }
}

/// Every `u64` is below `3^41`.
pub proof fn lemma_u64_below_pow3_41()
    ensures
        pow3(41) > u64::MAX,
{
    reveal_with_fuel(pow3, 42);
}

/// The low `i + 1` digits of `x` extend the low `i` digits by one.
proof fn lemma_mod_pow3_step(x: nat, i: nat)
    ensures
        x % pow3(i + 1) == x % pow3(i) + pow3(i) * digit(x, i),
{
    lemma_pow3_positive(i);
    lemma_breakdown(x as int, pow3(i) as int, 3);
    assert(pow3(i + 1) == pow3(i) * 3);
}

/// The first `n` digits of `x` spell `x mod 3^n`.
pub proof fn lemma_digits_value_prefix(d: Seq<u8>, x: nat, n: nat)
    requires
        n <= d.len(),
        forall|i: int| 0 <= i < n ==> d[i] as nat == digit(x, i as nat),
    ensures
        digits_value(d, n) == x % pow3(n),
    decreases n,
{
    if n == 0 {
        assert(x % 1 == 0);
    } else {
        let m = (n - 1) as nat;
        lemma_digits_value_prefix(d, x, m);
        lemma_mod_pow3_step(x, m);
        assert(d[m as int] as nat * pow3(m) == pow3(m) * digit(x, m)) by (nonlinear_arith)
            requires
                d[m as int] as nat == digit(x, m),
        ;
    }
}

/// Digits at and above `n` vanish exactly when `x < 3^n`.
pub proof fn lemma_high_digits_zero(x: nat, n: nat)
    requires
        x <= u64::MAX,
        n <= 41,
    ensures
        (forall|i: int| n <= i < 41 ==> #[trigger] digit(x, i as nat) == 0) <==> x < pow3(n),
{
    if x < pow3(n) {
        assert forall|i: int| n <= i < 41 implies #[trigger] digit(x, i as nat) == 0 by {
            lemma_pow3_monotone(n, i as nat);
            assert(x / pow3(i as nat) == 0) by (nonlinear_arith)
                requires
                    x < pow3(i as nat),
            ;
        }
    }
    if forall|i: int| n <= i < 41 ==> #[trigger] digit(x, i as nat) == 0 {

        lemma_mod_pow3_range(x, n, 41);
        lemma_u64_below_pow3_41();
        assert(x % pow3(41) == x) by (nonlinear_arith)
            requires
                x < pow3(41),
        ;
        lemma_pow3_positive(n);
        assert(x % pow3(n) < pow3(n)) by (nonlinear_arith)
            requires
                pow3(n) >= 1,
        ;
    }
}

/// With the digits in `[n, m)` zero, `x mod 3^m` equals `x mod 3^n`.
proof fn lemma_mod_pow3_range(x: nat, n: nat, m: nat)
    requires
        n <= m,
        forall|i: int| n <= i < m ==> #[trigger] digit(x, i as nat) == 0,
    ensures
        x % pow3(m) == x % pow3(n),
    decreases m - n,
{
    if n < m {
        let k = (m - 1) as nat;
        lemma_mod_pow3_range(x, n, k);
        lemma_mod_pow3_step(x, k);
        assert(digit(x, (k as int) as nat) == 0);
        assert(digit(x, k) == 0);
        assert(pow3(k) * digit(x, k) == 0) by (nonlinear_arith)
            requires
                digit(x, k) == 0,
        ;
    }
}

/// The 41 base-3 digits of `x`, least significant first. Digit `i` is
/// `⌊x / 3^i⌋ mod 3`.
pub fn base3_digits(x: u64) -> (r: [u8; 41])
    ensures
        forall|i: int| 0 <= i < 41 ==> r@[i] as nat == #[trigger] digit(x as nat, i as nat),
        forall|i: int| 0 <= i < 41 ==> #[trigger] r@[i] <= 2,
{
    let mut digits: [u8; 41] = [0u8; 41];
    let mut y: u64 = x;
    let mut i: usize = 0;
    assert(pow3(0) == 1);
    while i < 41
        invariant
            i <= 41,
            y as nat == x as nat / pow3(i as nat),
            forall|j: int| 0 <= j < i ==> digits@[j] as nat == #[trigger] digit(x as nat, j as nat),
        decreases 41 - i,
    {
        let rem: u64 = y % 3;
        digits[i] = rem as u8;
        proof {
            lemma_pow3_positive(i as nat);
            lemma_div_denominator(x as int, pow3(i as nat) as int, 3);
            assert(pow3(i as nat + 1) == pow3(i as nat) * 3);
        }
        y = y / 3;
        i = i + 1;
    }
    assert forall|j: int| 0 <= j < 41 implies #[trigger] digits@[j] <= 2 by {
        assert(digits@[j] as nat == digit(x as nat, j as nat));
    }
    digits
}

/// The digits of `x` spell `x`, and each is 0, 1 or 2.
pub proof fn lemma_digits_spell_value(x: u64, d: [u8; 41])
    requires
        forall|i: int| 0 <= i < 41 ==> d@[i] as nat == #[trigger] digit(x as nat, i as nat),
    ensures
        digits_value(d@, 41) == x,
        forall|i: int| 0 <= i < 41 ==> #[trigger] d@[i] <= 2,
{
    lemma_digits_value_prefix(d@, x as nat, 41);
    lemma_u64_below_pow3_41();
    assert(x as nat % pow3(41) == x) by (nonlinear_arith)
        requires
            x < pow3(41),
    ;
    assert forall|i: int| 0 <= i < 41 implies #[trigger] d@[i] <= 2 by {
        assert(d@[i] as nat == digit(x as nat, i as nat));
    }
}

} // verus!
