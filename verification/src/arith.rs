//! Divisibility and greatest common divisors, the number theory behind
//! keeping every rational value in lowest terms.

use vstd::prelude::*;
use vstd::arithmetic::div_mod::{
    lemma_fundamental_div_mod, lemma_fundamental_div_mod_converse, lemma_div_multiples_vanish,
    lemma_mod_multiples_basic,
};

verus! {

/// The absolute value of an integer, as a natural number.
pub open spec fn iabs(x: int) -> nat {
    if x < 0 {
        (-x) as nat
    } else {
        x as nat
    }
}

/// `d` divides `a` exactly.
pub open spec fn divides(d: int, a: int) -> bool {
    exists|k: int| a == #[trigger] (d * k)
}

/// Greatest common divisor by Euclid's recursion.
pub open spec fn gcd(a: nat, b: nat) -> nat
    decreases b,
{
    if b == 0 {
        a
    } else {
        gcd(b, a % b)
    }
}

pub proof fn lemma_divides_mul(d: int, k: int)
    ensures
        divides(d, d * k),
{
    assert(d * k == d * k);
}

/// The gcd of two numbers, the second positive, is positive.
pub proof fn lemma_gcd_pos(a: nat, b: nat)
    requires
        a > 0 || b > 0,
    ensures
        gcd(a, b) > 0,
    decreases b,
{
    if b == 0 {
    } else {
        lemma_gcd_pos(b, a % b);
    }
}

/// The gcd divides both of its arguments.
pub proof fn lemma_gcd_divides(a: nat, b: nat)
    ensures
        divides(gcd(a, b) as int, a as int),
        divides(gcd(a, b) as int, b as int),
    decreases b,
{
    if b == 0 {
        assert(a as int == (a as int) * 1);
        assert(0int == (a as int) * 0);
    } else {
        lemma_gcd_divides(b, a % b);
        let g = gcd(b, a % b) as int;
        let k1 = choose|k: int| b as int == #[trigger] (g * k);
        let k2 = choose|k: int| (a % b) as int == #[trigger] (g * k);
        lemma_fundamental_div_mod(a as int, b as int);
        let q = (a as int) / (b as int);
        assert(a as int == g * (k1 * q + k2)) by (nonlinear_arith)
            requires
                a as int == (b as int) * q + (a % b) as int,
                b as int == g * k1,
                (a % b) as int == g * k2,
        ;
    }
}

/// A common divisor of `a` and `b` divides `a % b`.
pub proof fn lemma_divides_mod(d: int, a: nat, b: nat)
    requires
        b > 0,
        divides(d, a as int),
        divides(d, b as int),
    ensures
        divides(d, (a % b) as int),
{
    let ka = choose|k: int| a as int == #[trigger] (d * k);
    let kb = choose|k: int| b as int == #[trigger] (d * k);
    lemma_fundamental_div_mod(a as int, b as int);
    let q = (a as int) / (b as int);
    assert((a % b) as int == d * (ka - kb * q)) by (nonlinear_arith)
        requires
            a as int == (b as int) * q + (a % b) as int,
            a as int == d * ka,
            b as int == d * kb,
    ;
}

/// Every common divisor of `a` and `b` divides their gcd.
pub proof fn lemma_gcd_greatest(d: int, a: nat, b: nat)
    requires
        divides(d, a as int),
        divides(d, b as int),
    ensures
        divides(d, gcd(a, b) as int),
    decreases b,
{
    if b == 0 {
    } else {
        lemma_divides_mod(d, a, b);
        lemma_gcd_greatest(d, b, a % b);
    }
}

/// The gcd scales with a common positive factor.
pub proof fn lemma_gcd_scale(a: nat, b: nat, c: nat)
    requires
        c > 0,
    ensures
        gcd(a * c, b * c) == gcd(a, b) * c,
    decreases b,
{
    if b == 0 {
        assert(b * c == 0) by (nonlinear_arith)
            requires
                b == 0,
        ;
    } else {
        lemma_fundamental_div_mod(a as int, b as int);
        let q = (a as int) / (b as int);
        let r = a % b;
        assert(b * c > 0) by (nonlinear_arith)
            requires
                b > 0,
                c > 0,
        ;
        assert(a * c == (b * c) * q + (r * c) && 0 <= r * c < b * c) by (nonlinear_arith)
            requires
                a as int == (b as int) * q + r as int,
                0 <= r < b,
                c > 0,
        ;
        lemma_fundamental_div_mod_converse((a * c) as int, (b * c) as int, q, (r * c) as int);
        assert((a * c) % (b * c) == r * c);
        lemma_gcd_scale(b, r, c);
    }
}

/// Euclid's lemma in divisor form: if `d` is coprime to `n` and divides
/// `n * b`, it divides `b`.
pub proof fn lemma_coprime_divides(d: nat, n: nat, b: nat)
    requires
        d > 0,
        gcd(n, d) == 1,
        divides(d as int, (n * b) as int),
    ensures
        divides(d as int, b as int),
{
    if b == 0 {
        assert(0int == (d as int) * 0);
    } else {
        lemma_gcd_scale(n, d, b);
        assert(gcd(n * b, d * b) == b) by {
            assert(gcd(n, d) * b == b) by (nonlinear_arith)
                requires
                    gcd(n, d) == 1,
            ;
        }
        assert(divides(d as int, (d * b) as int)) by {
            assert((d * b) as int == (d as int) * (b as int)) by (nonlinear_arith);
            lemma_divides_mul(d as int, b as int);
        }
        lemma_gcd_greatest(d as int, n * b, d * b);
    }
}

/// Two fractions in lowest terms with positive denominators and equal
/// cross products are identical.
pub proof fn lemma_unique_reduced(an: int, ad: int, bn: int, bd: int)
    requires
        ad > 0,
        bd > 0,
        gcd(iabs(an), ad as nat) == 1,
        gcd(iabs(bn), bd as nat) == 1,
        an * bd == bn * ad,
    ensures
        an == bn,
        ad == bd,
{
    assert(iabs(an) * (bd as nat) == iabs(bn) * (ad as nat)) by (nonlinear_arith)
        requires
            an * bd == bn * ad,
            ad > 0,
            bd > 0,
            iabs(an) == if an < 0 { -an } else { an },
            iabs(bn) == if bn < 0 { -bn } else { bn },
    ;
    let na = iabs(an);
    let nb = iabs(bn);
    // ad divides na * bd, and is coprime to na, so ad divides bd.
    assert(divides(ad, (na * bd) as int)) by {
        assert((na * bd) as int == ad * (nb as int)) by (nonlinear_arith)
            requires
                na * (bd as nat) == nb * (ad as nat),
                ad > 0,
                bd > 0,
        ;
        lemma_divides_mul(ad, nb as int);
    }
    lemma_coprime_divides(ad as nat, na, bd as nat);
    // and symmetrically bd divides ad.
    assert(divides(bd, (nb * ad) as int)) by {
        assert((nb * ad) as int == bd * (na as int)) by (nonlinear_arith)
            requires
                na * (bd as nat) == nb * (ad as nat),
                ad > 0,
                bd > 0,
        ;
        lemma_divides_mul(bd, na as int);
    }
    lemma_coprime_divides(bd as nat, nb, ad as nat);
    let k1 = choose|k: int| bd as int == #[trigger] (ad * k);
    let k2 = choose|k: int| ad as int == #[trigger] (bd * k);
    assert(ad == bd) by (nonlinear_arith)
        requires
            ad > 0,
            bd > 0,
            bd as int == ad * k1,
            ad as int == bd * k2,
    ;
    assert(an == bn) by (nonlinear_arith)
        requires
            an * bd == bn * ad,
            ad == bd,
            ad > 0,
    ;
}

/// Dividing a multiple `m` of `g` by `g` recovers the cofactor.
pub proof fn lemma_div_exact(m: nat, g: nat)
    requires
        g > 0,
        divides(g as int, m as int),
    ensures
        m % g == 0,
        (g * (m / g)) as nat == m,
    decreases m,
{
    let k = choose|k: int| m as int == #[trigger] ((g as int) * k);
    assert(k >= 0) by (nonlinear_arith)
        requires
            m as int == (g as int) * k,
            g > 0,
            m >= 0,
    ;
    lemma_mod_multiples_basic(k, g as int);
    assert((k * (g as int)) % (g as int) == 0);
    assert(m as int == k * (g as int)) by (nonlinear_arith)
        requires
            m as int == (g as int) * k,
    ;
    lemma_div_multiples_vanish(k, g as int);
    assert((m as int) / (g as int) == k);
    assert((g as int) * ((m as int) / (g as int)) == m as int) by (nonlinear_arith)
        requires
            (m as int) / (g as int) == k,
            m as int == (g as int) * k,
    ;
}

/// `gcd(1, b) == 1` for every `b`.
pub proof fn lemma_gcd_one_left(b: nat)
    ensures
        gcd(1, b) == 1,
{
    if b == 0 {
    } else if b == 1 {
        assert(1nat % 1 == 0);
        assert(gcd(1, 1) == gcd(1, 0));
    } else {
        vstd::arithmetic::div_mod::lemma_small_mod(1, b);
        assert(gcd(1, b) == gcd(b, 1));
        assert(b % 1 == 0);
        assert(gcd(b, 1) == gcd(1, 0));
    }
}

/// Exact executable gcd on unsigned 128-bit values.
pub fn gcd_u128(a: u128, b: u128) -> (g: u128)
    ensures
        g as nat == gcd(a as nat, b as nat),
{
    let mut x = a;
    let mut y = b;
    while y != 0
        invariant
            gcd(x as nat, y as nat) == gcd(a as nat, b as nat),
        decreases y,
    {
        let r = x % y;
        x = y;
        y = r;
    }
    x
}

} // verus!
