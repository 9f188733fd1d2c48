//! Rendering a list of rational roots as a product of linear factors:
//! a root `r` contributes the factor `(x - r)`, printed with the sign
//! convention that a positive root is subtracted and a zero or negative
//! root is added, always with the root's magnitude.

use vstd::prelude::*;
use crate::aberth::{all_wf, factor_spec, FactorError, Factoring};
use crate::arith::iabs;
use crate::complex::Cplx;
use crate::polynomial::Polynomial;
use crate::rational::Rat;

verus! {

/// The character for one decimal digit.
pub open spec fn digit_char(d: int) -> char {
    if d == 0 {
        '0'
    } else if d == 1 {
        '1'
    } else if d == 2 {
        '2'
    } else if d == 3 {
        '3'
    } else if d == 4 {
        '4'
    } else if d == 5 {
        '5'
    } else if d == 6 {
        '6'
    } else if d == 7 {
        '7'
    } else if d == 8 {
        '8'
    } else {
        '9'
    }
}

/// The decimal digits of `n`, most significant first.
pub open spec fn dec_str(n: nat) -> Seq<char>
    decreases n,
{
    if n < 10 {
        seq![digit_char(n as int)]
    } else {
        dec_str(n / 10).push(digit_char((n % 10) as int))
    }
}

/// The printed magnitude of a rational: the numerator's digits, and the
/// denominator's after a slash unless it is one.
pub open spec fn rat_str(r: Rat) -> Seq<char> {
    if r.den == 1 {
        dec_str(iabs(r.num as int))
    } else {
        dec_str(iabs(r.num as int)) + seq!['/'] + dec_str(r.den as nat)
    }
}

/// The factor a root contributes: `(x - r)` for a positive root, else
/// `(x + |r|)`; the printed sign is the negation of the root's sign and
/// the printed magnitude is the root's absolute value.
pub open spec fn factor_str(r: Rat) -> Seq<char> {
    if r.num > 0 {
        seq!['(', 'x', ' ', '-', ' '] + rat_str(r) + seq![')']
    } else {
        seq!['(', 'x', ' ', '+', ' '] + rat_str(r) + seq![')']
    }
}

/// The factored rendering of a root list: each root's factor in order,
/// with no separator; an empty list renders as the empty string.
pub open spec fn render_spec(roots: Seq<Rat>) -> Seq<char>
    decreases roots.len(),
{
    if roots.len() == 0 {
        Seq::empty()
    } else {
        factor_str(roots[0]) + render_spec(roots.subrange(1, roots.len() as int))
    }
}

/// Appending a root appends its factor.
proof fn lemma_render_snoc(roots: Seq<Rat>, r: Rat)
    ensures
        render_spec(roots.push(r)) == render_spec(roots) + factor_str(r),
    decreases roots.len(),
{
    if roots.len() == 0 {
        assert(roots.push(r)[0] == r);
        assert(roots.push(r).subrange(1, roots.push(r).len() as int) =~= Seq::<Rat>::empty());
        assert(render_spec(roots.push(r)) =~= factor_str(r) + render_spec(Seq::<Rat>::empty()));
        assert(factor_str(r) + Seq::<char>::empty() =~= factor_str(r));
        assert(render_spec(roots) + factor_str(r) =~= factor_str(r));
    } else {
        assert(roots.push(r)[0] == roots[0]);
        let s = roots.push(r);
        assert(s.subrange(1, s.len() as int) =~= roots.subrange(1, roots.len() as int).push(r));
        lemma_render_snoc(roots.subrange(1, roots.len() as int), r);
        assert(render_spec(s) =~= render_spec(roots) + factor_str(r));
    }
}

/// Renderer sign law: every root's factor stands in the output, a
/// positive root subtracted, a zero or negative root added, each with
/// the root's magnitude between the sign and the closing parenthesis.
pub proof fn lemma_render_sign(roots: Seq<Rat>, i: int)
    requires
        0 <= i < roots.len(),
    ensures
        render_spec(roots) == render_spec(roots.take(i)) + factor_str(roots[i]) + render_spec(
            roots.skip(i + 1),
        ),
        roots[i].num > 0 ==> factor_str(roots[i]) == seq!['(', 'x', ' ', '-', ' '] + rat_str(
            roots[i],
        ) + seq![')'],
        roots[i].num <= 0 ==> factor_str(roots[i]) == seq!['(', 'x', ' ', '+', ' '] + rat_str(
            roots[i],
        ) + seq![')'],
    decreases i,
{
    if i == 0 {
        assert(roots.take(0) =~= Seq::<Rat>::empty());
        assert(roots.skip(1) =~= roots.subrange(1, roots.len() as int));
        assert(render_spec(roots) =~= render_spec(roots.take(0)) + factor_str(roots[0])
            + render_spec(roots.skip(1)));
    } else {
        let tail = roots.subrange(1, roots.len() as int);
        lemma_render_sign(tail, i - 1);
        assert(tail.take(i - 1) =~= roots.take(i).subrange(1, i));
        assert(roots.take(i).subrange(1, i) =~= roots.take(i).subrange(
            1,
            roots.take(i).len() as int,
        ));
        assert(tail.skip(i) =~= roots.skip(i + 1));
        assert(render_spec(roots) =~= render_spec(roots.take(i)) + factor_str(roots[i])
            + render_spec(roots.skip(i + 1)));
    }
}

/// One decimal digit as a character.
fn digit(d: u64) -> (c: char)
    requires
        d < 10,
    ensures
        c == digit_char(d as int),
{
    if d == 0 {
        '0'
    } else if d == 1 {
        '1'
    } else if d == 2 {
        '2'
    } else if d == 3 {
        '3'
    } else if d == 4 {
        '4'
    } else if d == 5 {
        '5'
    } else if d == 6 {
        '6'
    } else if d == 7 {
        '7'
    } else if d == 8 {
        '8'
    } else {
        '9'
    }
}

/// Append the decimal digits of `n`.
fn push_dec(out: &mut Vec<char>, n: u64)
    ensures
        final(out)@ == old(out)@ + dec_str(n as nat),
    decreases n,
{
    if n < 10 {
        out.push(digit(n));
        proof {
            assert(out@ =~= old(out)@ + dec_str(n as nat));
        }
    } else {
        push_dec(out, n / 10);
        out.push(digit(n % 10));
        proof {
            assert(out@ =~= old(out)@ + dec_str(n as nat));
        }
    }
}

/// Relies on String as FromIterator over chars, through Iterator::collect:
/// the collected string holds exactly the vector's characters in order.
#[verifier::external_body]
fn chars_to_string(v: Vec<char>) -> (s: String)
    ensures
        s@ == v@,
{
    v.into_iter().collect()
}

/// Render a root list as its product of linear factors.
pub fn render_factors(roots: &Vec<Rat>) -> (s: String)
    requires
        forall|i: int| 0 <= i < roots@.len() ==> (#[trigger] roots@[i]).wf(),
    ensures
        s@ == render_spec(roots@),
{
    let mut out: Vec<char> = Vec::new();
    let mut i: usize = 0;
    proof {
        assert(roots@.take(0) =~= Seq::<Rat>::empty());
    }
    while i < roots.len()
        invariant
            forall|j: int| 0 <= j < roots@.len() ==> (#[trigger] roots@[j]).wf(),
            i <= roots@.len(),
            out@ == render_spec(roots@.take(i as int)),
        decreases roots@.len() - i,
    {
        let r = roots[i];
        let ghost before = out@;
        out.push('(');
        out.push('x');
        out.push(' ');
        if r.num > 0 {
            out.push('-');
        } else {
            out.push('+');
        }
        out.push(' ');
        let m: u64 = if r.num < 0 {
            (-r.num) as u64
        } else {
            r.num as u64
        };
        proof {
            assert(m as nat == iabs(r.num as int));
        }
        push_dec(&mut out, m);
        if r.den != 1 {
            out.push('/');
            push_dec(&mut out, r.den as u64);
        }
        out.push(')');
        proof {
            assert(out@ =~= before + factor_str(r));
            lemma_render_snoc(roots@.take(i as int), r);
            assert(roots@.take(i + 1) =~= roots@.take(i as int).push(r));
        }
        i += 1;
    }
    proof {
        assert(roots@.take(roots@.len() as int) =~= roots@);
    }
    chars_to_string(out)
}

impl Polynomial {
    /// Factor this polynomial with a fresh random start and render the
    /// snapped roots as a product of linear factors.
    pub fn pretty_factored(&self) -> (r: Result<String, FactorError>)
        requires
            self.wf(),
        ensures
            r matches Ok(s) ==> (exists|init: Seq<Cplx>, roots: Seq<Rat>, zs: Seq<Cplx>, c: bool|
                all_wf(init) && init.len() == self.degree && factor_spec(
                    self.coefficients@,
                    init,
                    0x4000,
                    100,
                    Polynomial::default_tol(),
                    100,
                ) == Ok::<_, FactorError>((roots, zs, c)) && s@ == render_spec(roots)),
            r matches Err(e) ==> (exists|init: Seq<Cplx>|
                all_wf(init) && init.len() == self.degree && factor_spec(
                    self.coefficients@,
                    init,
                    0x4000,
                    100,
                    Polynomial::default_tol(),
                    100,
                ) == Err::<(Seq<Rat>, Seq<Cplx>, bool), FactorError>(e)),
    {
        let f: Factoring = match self.factors() {
            Ok(f) => f,
            Err(e) => {
                return Err(e);
            },
        };
        let s = render_factors(&f.roots);
        Ok(s)
    }
}

} // verus!
