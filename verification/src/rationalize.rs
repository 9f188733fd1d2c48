//! Snapping an exact rational to a nearby fraction with a bounded
//! denominator: rounding to a fixed denominator (the working precision of
//! the root iteration) and a best-candidate scan over all denominators up
//! to a bound (the display snap). Both fail explicitly when a result does
//! not fit the word range.

use vstd::prelude::*;
use crate::arith::iabs;
use crate::rational::Rat;
use vstd::arithmetic::div_mod::{lemma_fundamental_div_mod, lemma_div_nonincreasing};

verus! {

/// The largest denominator bound the machine arithmetic here admits.
pub open spec fn den_bound() -> int {
    0x100000
}

/// The numerator of `x * q` rounded to the nearest integer, halves away
/// from zero: the best numerator over the fixed denominator `q`.
pub open spec fn near_num(x: Rat, q: int) -> int {
    let m = iabs(x.num as int) as int;
    let p = (2 * m * q + x.den) / (2 * (x.den as int));
    if x.num < 0 {
        -p
    } else {
        p
    }
}

/// `|p * x.den - x.num * q|`: the distance from `p/q` to `x`, scaled by
/// the positive factor `q * x.den`.
pub open spec fn scaled_err(x: Rat, p: int, q: int) -> int {
    iabs(p * x.den - x.num * q) as int
}

/// The best candidate fraction over denominators `1..=q`: each denominator
/// contributes its rounded numerator, and a later candidate replaces an
/// earlier one only when strictly closer, so the simplest (smallest
/// denominator) of the closest candidates wins.
pub open spec fn scan_spec(x: Rat, q: int) -> (int, int)
    decreases q,
{
    if q <= 1 {
        (near_num(x, 1), 1)
    } else {
        let prev = scan_spec(x, q - 1);
        let p = near_num(x, q);
        if scaled_err(x, p, q) * prev.1 < scaled_err(x, prev.0, prev.1) * q {
            (p, q)
        } else {
            prev
        }
    }
}

/// The snap of `x` to denominators up to `max_den`: `x` itself when its
/// denominator is already within the bound, else the reduced best
/// candidate of the scan; `None` when that does not fit the word range.
pub open spec fn rationalize_spec(x: Rat, max_den: int) -> Option<Rat> {
    if x.den <= max_den {
        Some(x)
    } else {
        Rat::norm_spec(scan_spec(x, max_den).0, scan_spec(x, max_den).1)
    }
}

/// The scan's winning denominator stays within `1..=q`.
proof fn lemma_scan_den_range(x: Rat, q: int)
    requires
        q >= 1,
    ensures
        1 <= scan_spec(x, q).1 <= q,
    decreases q,
{
    if q > 1 {
        lemma_scan_den_range(x, q - 1);
    }
}

/// The rounded numerator at denominator `q`, with the bound that makes
/// the scan's products fit 128-bit arithmetic.
fn near_exec(x: Rat, q: i64) -> (p: i128)
    requires
        x.wf(),
        1 <= q <= den_bound(),
    ensures
        p as int == near_num(x, q as int),
        iabs(p as int) * (x.den as int) <= iabs(x.num as int) * q + x.den,
{
    let m: u128 = if x.num < 0 {
        (-x.num) as u128
    } else {
        x.num as u128
    };
    let den: u128 = x.den as u128;
    proof {
        assert(m as int == iabs(x.num as int));
        assert((2 * (m as int)) * (q as int) + (den as int) < 0x1000000000000000000000000)
            by (nonlinear_arith)
            requires
                m <= 0x7fff_ffff_ffff_ffff,
                1 <= q <= 0x100000,
                den <= 0x7fff_ffff_ffff_ffff,
        ;
    }
    let pu: u128 = (2 * m * (q as u128) + den) / (2 * den);
    proof {
        vstd::arithmetic::div_mod::lemma_div_nonincreasing(
            2 * (m as int) * (q as int) + (den as int),
            2 * (den as int),
        );
        lemma_fundamental_div_mod((2 * (m as int) * (q as int) + den as int), (2 * (den as int)));
        assert((pu as int) * (2 * (den as int)) <= 2 * (m as int) * (q as int) + (den as int))
            by (nonlinear_arith)
            requires
                2 * (m as int) * (q as int) + (den as int) == (2 * (den as int)) * ((2 * (
                m as int) * (q as int) + (den as int)) / (2 * (den as int))) + (2 * (m as int)
                    * (q as int) + (den as int)) % (2 * (den as int)),
                pu as int == (2 * (m as int) * (q as int) + (den as int)) / (2 * (den as int)),
                0 <= (2 * (m as int) * (q as int) + (den as int)) % (2 * (den as int)),
        ;
        assert((pu as int) * (den as int) * 2 == (pu as int) * (2 * (den as int)))
            by (nonlinear_arith);
        assert(iabs(if x.num < 0 { -(pu as int) } else { pu as int }) == pu as nat);
        assert(pu as int <= 2 * (m as int) * (q as int) + (den as int)) by (nonlinear_arith)
            requires
                (pu as int) * (2 * (den as int)) <= 2 * (m as int) * (q as int) + (den as int),
                den >= 1,
                pu >= 0,
        ;
    }
    let pi = pu as i128;
    proof {
        assert(iabs(pi as int) * (x.den as int) <= iabs(x.num as int) * q + x.den)
            by (nonlinear_arith)
            requires
                (pi as int) * (2 * (x.den as int)) <= 2 * iabs(x.num as int) * (q as int) + (
                x.den as int),
                x.den >= 1,
                pi >= 0,
                iabs(pi as int) == pi as int,
        ;
    }
    if x.num < 0 {
        -pi
    } else {
        pi
    }
}

/// Round `x` to the fixed denominator `prec` (the working precision of
/// the iteration), reducing the result; `None` when it does not fit.
pub fn round_den(x: Rat, prec: i64) -> (r: Option<Rat>)
    requires
        x.wf(),
        1 <= prec <= den_bound(),
    ensures
        r == Rat::norm_spec(near_num(x, prec as int), prec as int),
        r matches Some(y) ==> y.wf() && y.den <= prec,
    {
    let p = near_exec(x, prec);
    proof {
        lemma_near_abs_bound(x, prec as int, p as int);
    }
    let r = Rat::new_reduced(p, prec as i128);
    proof {
        if r is Some {
            let y = r->Some_0;
            let g = crate::arith::gcd(iabs(p as int), prec as nat) as int;
            crate::arith::lemma_gcd_pos(iabs(p as int), prec as nat);
            lemma_div_nonincreasing(prec as int, g);
        }
    }
    r
}

/// Snap `x` to the simplest nearby fraction with denominator at most
/// `max_den`. A value already within the bound is returned unchanged, so
/// snapping is idempotent; `None` when the reduced best candidate does
/// not fit the word range.
pub fn rationalize(x: Rat, max_den: i64) -> (r: Option<Rat>)
    requires
        x.wf(),
        1 <= max_den <= den_bound(),
    ensures
        r == rationalize_spec(x, max_den as int),
        r matches Some(y) ==> y.wf() && y.den <= max_den,
        x.den <= max_den ==> r == Some(x),
{
    if x.den <= max_den {
        return Some(x);
    }
    let mut bp: i128 = near_exec(x, 1);
    proof {
        lemma_near_abs_bound(x, 1, bp as int);
        lemma_err_product_bounds(x, bp as int, 1);
    }
    let mut bq: i64 = 1;
    let mut be: i128 = abs_i128(bp * (x.den as i128) - (x.num as i128));
    let mut q: i64 = 1;
    proof {
        assert(be as int == scaled_err(x, bp as int, 1));
    }
    while q < max_den
        invariant
            x.wf(),
            1 <= max_den <= den_bound(),
            1 <= q <= max_den,
            1 <= bq <= q,
            (bp as int, bq as int) == scan_spec(x, q as int),
            be as int == scaled_err(x, bp as int, bq as int),
            iabs(bp as int) * (x.den as int) <= iabs(x.num as int) * bq + x.den,
            scaled_err(x, bp as int, bq as int) <= 0x2000000000000000000000,
        decreases max_den - q,
    {
        q = q + 1;
        let p = near_exec(x, q);
        proof {
            lemma_near_abs_bound(x, q as int, p as int);
            lemma_err_product_bounds(x, p as int, q as int);
            lemma_err_product_bounds(x, bp as int, bq as int);
        }
        let e = abs_i128(p * (x.den as i128) - (x.num as i128) * (q as i128));
        proof {
            assert(e as int == scaled_err(x, p as int, q as int));
            assert(e as int * (bq as int) < 0x40000000000000000000000000000000
                && (be as int) * (q as int) < 0x40000000000000000000000000000000)
                by (nonlinear_arith)
                requires
                    e as int == scaled_err(x, p as int, q as int),
                    be as int == scaled_err(x, bp as int, bq as int),
                    scaled_err(x, p as int, q as int) <= 0x2000000000000000000000,
                    scaled_err(x, bp as int, bq as int) <= 0x2000000000000000000000,
                    0 <= e,
                    0 <= be,
                    1 <= bq <= 0x100000,
                    1 <= q <= 0x100000,
            ;
        }
        if e * (bq as i128) < be * (q as i128) {
            bp = p;
            bq = q;
            be = e;
        }
    }
    proof {
        lemma_near_bp_min(x, bp as int, bq as int);
    }
    let r = Rat::new_reduced(bp, bq as i128);
    proof {
        if r is Some {
            let y = r->Some_0;
            let g = crate::arith::gcd(iabs(bp as int), bq as nat) as int;
            crate::arith::lemma_gcd_pos(iabs(bp as int), bq as nat);
            lemma_div_nonincreasing(bq as int, g);
        }
    }
    r
}

/// A candidate numerator within the rounding bound is far from the word
/// minimum.
proof fn lemma_near_bp_min(x: Rat, bp: int, bq: int)
    requires
        x.wf(),
        1 <= bq <= den_bound(),
        iabs(bp) * (x.den as int) <= iabs(x.num as int) * bq + x.den,
    ensures
        bp > i128::MIN,
{
    assert(iabs(bp) <= iabs(x.num as int) * bq + x.den) by (nonlinear_arith)
        requires
            iabs(bp) * (x.den as int) <= iabs(x.num as int) * bq + x.den,
            x.den >= 1,
    ;
    assert(iabs(x.num as int) * bq <= 0x7fff_ffff_ffff_ffff * 0x100000) by (nonlinear_arith)
        requires
            iabs(x.num as int) <= 0x7fff_ffff_ffff_ffff,
            1 <= bq <= 0x100000,
    ;
}

/// The scan's products stay well inside the 128-bit range.
proof fn lemma_err_product_bounds(x: Rat, p: int, q: int)
    requires
        x.wf(),
        1 <= q <= den_bound(),
        iabs(p) * (x.den as int) <= iabs(x.num as int) * q + x.den,
    ensures
        iabs(p * x.den) <= 0x1000000000000000000000,
        iabs(x.num * q) <= 0x800000000000000000000,
        scaled_err(x, p, q) <= 0x2000000000000000000000,
        p * x.den - x.num * q > i128::MIN,
        p * x.den - x.num * q < i128::MAX,
        p > i128::MIN,
{
    assert(iabs(p * x.den) == iabs(p) * (x.den as int) && iabs(x.num * q) == iabs(
        x.num as int,
    ) * q) by (nonlinear_arith)
        requires
            x.den >= 1,
            q >= 1,
    ;
    assert(iabs(x.num as int) * q <= 0x800000000000000000000) by (nonlinear_arith)
        requires
            iabs(x.num as int) <= 0x7fff_ffff_ffff_ffff,
            1 <= q <= 0x100000,
    ;
    assert(iabs(p * x.den - x.num * q) <= iabs(p * x.den) + iabs(x.num * q));
    lemma_near_bp_min(x, p, q);
}

/// The rounded numerator bound gives a plain magnitude bound.
proof fn lemma_near_abs_bound(x: Rat, q: int, p: int)
    requires
        x.wf(),
        1 <= q <= den_bound(),
        iabs(p) * (x.den as int) <= iabs(x.num as int) * q + x.den,
    ensures
        p > i128::MIN,
        iabs(p) <= 0x2000000000000000000000,
{
    assert(iabs(p) <= iabs(x.num as int) * q + x.den) by (nonlinear_arith)
        requires
            iabs(p) * (x.den as int) <= iabs(x.num as int) * q + x.den,
            x.den >= 1,
    ;
    assert(iabs(x.num as int) * q <= 0x800000000000000000000) by (nonlinear_arith)
        requires
            iabs(x.num as int) <= 0x7fff_ffff_ffff_ffff,
            1 <= q <= 0x100000,
    ;
}

/// Absolute value on 128-bit words.
fn abs_i128(v: i128) -> (r: i128)
    requires
        v > i128::MIN,
    ensures
        r as int == iabs(v as int),
{
    if v < 0 {
        -v
    } else {
        v
    }
}

/// Snapping is idempotent: a snapped value, snapped again with the same
/// bound, is unchanged. (The snapped value's denominator is within the
/// bound, so the second snap returns it as it stands.)
pub proof fn lemma_rationalize_idempotent(x: Rat, max_den: int)
    requires
        x.wf(),
        1 <= max_den,
        rationalize_spec(x, max_den) is Some,
    ensures
        rationalize_spec(rationalize_spec(x, max_den)->Some_0, max_den) == rationalize_spec(
            x,
            max_den,
        ),
{
    let y = rationalize_spec(x, max_den)->Some_0;
    if x.den <= max_den {
    } else {
        let best = scan_spec(x, max_den);
        lemma_scan_den_range(x, max_den);
        let g = crate::arith::gcd(iabs(best.0), best.1 as nat) as int;
        crate::arith::lemma_gcd_pos(iabs(best.0), best.1 as nat);
        lemma_div_nonincreasing(best.1, g);
        assert(y.den <= max_den);
    }
}

} // verus!
