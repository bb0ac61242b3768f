//! Extracting the roots of a consolidated linear or quadratic equation.
use vstd::prelude::*;
use vstd::arithmetic::div_mod::{lemma_fundamental_div_mod, lemma_mod_multiples_basic};
use vstd::string::*;

use crate::particle::{terms, EquationError, Particle, Term};
use crate::text::{decimal, push_decimal, push_signed, signed_decimal};

verus! {

/// The integer `q` with `num == den · q`, where there is one.
pub open spec fn quotient(num: int, den: int) -> Option<int> {
    if den != 0 && exists|q: int| num == #[trigger] (den * q) {
        Some(choose|q: int| num == #[trigger] (den * q))
    } else {
        None
    }
}

/// The non-negative integer whose square is `d`, where there is one.
pub open spec fn square_root(d: int) -> Option<int> {
    if exists|s: int| s >= 0 && #[trigger] (s * s) == d {
        Some(choose|s: int| s >= 0 && #[trigger] (s * s) == d)
    } else {
        None
    }
}

proof fn lemma_quotient(num: int, den: int, q: int)
    requires
        den != 0,
        num == den * q,
    ensures
        quotient(num, den) == Some(q),
{
    let p = choose|p: int| num == #[trigger] (den * p);
    assert(den * (p - q) == 0) by (nonlinear_arith)
        requires
            num == den * p,
            num == den * q,
    ;
    assert(p == q) by (nonlinear_arith)
        requires
            den * (p - q) == 0,
            den != 0,
    ;
}

proof fn lemma_square_root(d: int, s: int)
    requires
        s >= 0,
        s * s == d,
    ensures
        square_root(d) == Some(s),
{
    let t = choose|t: int| t >= 0 && #[trigger] (t * t) == d;
    if t < s {
        assert(t * t < s * s) by (nonlinear_arith)
            requires
                0 <= t < s,
        ;
    }
    if s < t {
        assert(s * s < t * t) by (nonlinear_arith)
            requires
                0 <= s < t,
        ;
    }
}

const WIDE: i128 = 0x1_0000_0000_0000_0000_0000_0000;

/// `num / den`, where `den` divides `num`.
fn exact_div(num: i128, den: i128) -> (r: Option<i128>)
    requires
        den != 0,
        -WIDE < num < WIDE,
        -WIDE < den < WIDE,
    ensures
        r matches Some(q) ==> quotient(num as int, den as int) == Some(q as int),
        r is None ==> quotient(num as int, den as int) is None,
        r matches Some(q) ==> -num <= q <= num || num <= q <= -num,
{
    let n: u128 = if num < 0 { (0 - num) as u128 } else { num as u128 };
    let d: u128 = if den < 0 { (0 - den) as u128 } else { den as u128 };
    proof {
        lemma_fundamental_div_mod(n as int, d as int);
    }
    if n % d != 0 {
        proof {
            if exists|q: int| num == #[trigger] (den * q) {
                let q = choose|q: int| num == #[trigger] (den * q);
                let aq = if q < 0 { -q } else { q };
                assert(n == d * aq) by (nonlinear_arith)
                    requires
                        num == den * q,
                        aq == if q < 0 { -q } else { q },
                        n == if num < 0 { -num } else { num as int },
                        d == if den < 0 { -den } else { den as int },
                ;
                lemma_mod_multiples_basic(aq, d as int);
                assert(aq * d == d * aq) by (nonlinear_arith);
            }
        }
        return None;
    }
    let q: u128 = n / d;
    assert(q <= n) by (nonlinear_arith)
        requires
            n == d * q,
            d >= 1,
    ;
    let r: i128 = if (num < 0) != (den < 0) { 0 - q as i128 } else { q as i128 };
    assert(num == den * r) by (nonlinear_arith)
        requires
            n == d * q,
            r == if (num < 0) != (den < 0) { -q } else { q as int },
            n == if num < 0 { -num } else { num as int },
            d == if den < 0 { -den } else { den as int },
    ;
    proof {
        lemma_quotient(num as int, den as int, r as int);
    }
    Some(r)
}

const ROOT_BOUND: i128 = 0x2_0000_0000;

/// The square root of `d`, where `d` is a perfect square.
fn exact_sqrt(d: i128) -> (r: Option<i128>)
    requires
        d < ROOT_BOUND * ROOT_BOUND,
    ensures
        r matches Some(s) ==> square_root(d as int) == Some(s as int),
        r is None ==> square_root(d as int) is None,
        r matches Some(s) ==> 0 <= s < ROOT_BOUND,
{
    if d < 0 {
        assert(!exists|s: int| s >= 0 && #[trigger] (s * s) == d) by {
            if exists|s: int| s >= 0 && #[trigger] (s * s) == d {
                let s = choose|s: int| s >= 0 && #[trigger] (s * s) == d;
                assert(s * s >= 0) by (nonlinear_arith)
                    requires
                        s >= 0,
                ;
            }
        }
        return None;
    }
    let mut lo: i128 = 0;
    let mut hi: i128 = ROOT_BOUND;
    while hi - lo > 1
        invariant
            0 <= lo < hi <= ROOT_BOUND,
            lo * lo <= d < hi * hi,
        decreases hi - lo,
    {
        let mid: i128 = lo + (hi - lo) / 2;
        assert(mid * mid <= ROOT_BOUND * ROOT_BOUND) by (nonlinear_arith)
            requires
                0 <= mid <= ROOT_BOUND,
        ;
        if mid * mid <= d {
            lo = mid;
        } else {
            hi = mid;
        }
    }
    if lo * lo == d {
        proof {
            lemma_square_root(d as int, lo as int);
        }
        Some(lo)
    } else {
        assert(!exists|s: int| s >= 0 && #[trigger] (s * s) == d) by {
            if exists|s: int| s >= 0 && #[trigger] (s * s) == d {
                let s = choose|s: int| s >= 0 && #[trigger] (s * s) == d;
                if s <= lo {
                    assert(s * s <= lo * lo) by (nonlinear_arith)
                        requires
                            0 <= s <= lo,
                    ;
                } else {
                    assert(hi * hi <= s * s) by (nonlinear_arith)
                        requires
                            0 <= hi <= s,
                    ;
                }
            }
        }
        None
    }
}

/// How a root `r` is shown in its factor `(x - r)`: the sign that makes
/// `x = r` the root, then the magnitude.
pub open spec fn shown(r: int) -> Seq<char> {
    if r > 0 {
        seq!['-', ' '] + decimal(r as nat)
    } else {
        seq!['+', ' '] + decimal((-r) as nat)
    }
}

pub open spec fn open_factor() -> Seq<char> {
    seq!['(', 'x', ' ']
}

pub open spec fn close_squared() -> Seq<char> {
    seq![')', '\u{b2}', ' ', '=', ' ', '0']
}

pub open spec fn between_factors() -> Seq<char> {
    seq![')', '(', 'x', ' ']
}

pub open spec fn close_factors() -> Seq<char> {
    seq![')', ' ', '=', ' ', '0']
}

pub open spec fn linear_prefix() -> Seq<char> {
    seq!['x', ' ', '=', ' ']
}

/// The factored form of `a x² + b x + c = 0` where its roots are integers:
/// `(x ∓ r)² = 0` for a repeated root `r`, else `(x ∓ r1)(x ∓ r2) = 0` with
/// `r1` the root that adds the square root of the discriminant and `r2`
/// the one that subtracts it.
pub open spec fn solved_quadratic(a: int, b: int, c: int) -> Result<Seq<char>, EquationError> {
    let d = b * b - 4 * a * c;
    let not_integral = Err(EquationError::NonIntegralRoots { a: a as i32, b: b as i32, c: c as i32 });
    if d == 0 {
        match quotient(-b, 2 * a) {
            Some(r) => Ok(open_factor() + shown(r) + close_squared()),
            None => not_integral,
        }
    } else {
        match square_root(d) {
            Some(s) => match quotient(-b + s, 2 * a) {
                Some(r1) => match quotient(-b - s, 2 * a) {
                    Some(r2) => Ok(open_factor() + shown(r1) + between_factors() + shown(r2) + close_factors()),
                    None => not_integral,
                },
                None => not_integral,
            },
            None => not_integral,
        }
    }
}

/// The answer for consolidated terms `c + b x + a x²` (or `c + b x`): more
/// than five terms is a degree this solver does not take; three terms
/// starting with a constant `c` give `x = -c`; five terms with a constant,
/// an unknown and an unknown at the even places give the quadratic's
/// factored form; anything else is not solvable.
pub open spec fn solved(ts: Seq<Term>) -> Result<Seq<char>, EquationError> {
    if ts.len() > 5 {
        Err(EquationError::UnsupportedDegree)
    } else if ts.len() == 3 && ts[0] is Constant {
        Ok(linear_prefix() + signed_decimal(-ts[0]->Constant_0))
    } else if ts.len() == 5 && ts[0] is Constant && ts[2] is Variable && ts[4] is Variable {
        solved_quadratic(ts[4]->Variable_1, ts[2]->Variable_1, ts[0]->Constant_0)
    } else {
        Err(EquationError::Unsolvable)
    }
}

fn push_shown(out: &mut String, r: i128)
    requires
        -0x1_0000_0000_0000_0000 < r < 0x1_0000_0000_0000_0000,
    ensures
        final(out)@ == old(out)@ + shown(r as int),
{
    if r > 0 {
        let minus: &str = "- ";
        proof {
            reveal_strlit("- ");
        }
        assert(minus@ =~= seq!['-', ' ']);
        out.append(minus);
        push_decimal(out, r as u64);
    } else {
        let plus: &str = "+ ";
        proof {
            reveal_strlit("+ ");
        }
        assert(plus@ =~= seq!['+', ' ']);
        out.append(plus);
        push_decimal(out, (0 - r) as u64);
    }
    assert(out@ =~= old(out)@ + shown(r as int));
}

fn quadratic(a: i32, b: i32, c: i32) -> (r: Result<String, EquationError>)
    ensures
        r matches Ok(s) ==> solved_quadratic(a as int, b as int, c as int) == Ok::<Seq<char>, EquationError>(s@),
        r matches Err(e) ==> solved_quadratic(a as int, b as int, c as int) == Err::<Seq<char>, EquationError>(e),
{
    let a = a as i128;
    let b = b as i128;
    let c = c as i128;
    assert(b * b <= 0x4000_0000_0000_0000) by (nonlinear_arith)
        requires
            -0x8000_0000 <= b <= 0x7fff_ffff,
    ;
    assert(-0x4000_0000_0000_0000 <= a * c <= 0x4000_0000_0000_0000) by (nonlinear_arith)
        requires
            -0x8000_0000 <= a <= 0x7fff_ffff,
            -0x8000_0000 <= c <= 0x7fff_ffff,
    ;
    assert(b * b >= 0) by (nonlinear_arith);
    let d: i128 = b * b - 4 * (a * c);
    assert(d == b * b - 4 * a * c) by (nonlinear_arith)
        requires
            d == b * b - 4 * (a * c),
    ;
    let not_integral = Err(EquationError::NonIntegralRoots { a: a as i32, b: b as i32, c: c as i32 });
    let open: &str = "(x ";
    let squared: &str = ")\u{b2} = 0";
    let between: &str = ")(x ";
    let close: &str = ") = 0";
    proof {
        reveal_strlit("(x ");
        reveal_strlit(")\u{b2} = 0");
        reveal_strlit(")(x ");
        reveal_strlit(") = 0");
    }
    assert(open@ =~= open_factor());
    assert(squared@ =~= close_squared());
    assert(between@ =~= between_factors());
    assert(close@ =~= close_factors());
    if a == 0 {
        return not_integral;
    }
    if d == 0 {
        return match exact_div(0 - b, 2 * a) {
            Some(root) => {
                let mut out = String::from_str(open);
                push_shown(&mut out, root);
                out.append(squared);
                Ok(out)
            },
            None => not_integral,
        };
    }
    match exact_sqrt(d) {
        None => not_integral,
        Some(s) => {
            match exact_div(0 - b + s, 2 * a) {
                None => not_integral,
                Some(r1) => match exact_div(0 - b - s, 2 * a) {
                    None => not_integral,
                    Some(r2) => {
                        let mut out = String::from_str(open);
                        push_shown(&mut out, r1);
                        out.append(between);
                        push_shown(&mut out, r2);
                        out.append(close);
                        Ok(out)
                    },
                },
            }
        },
    }
}

/// Solves consolidated terms. More than five particles is a degree above
/// two, which is refused. Three particles starting with a number `c` give
/// `x = -c`. Five particles holding a number `c`, an unknown with
/// coefficient `b` and an unknown with coefficient `a` at places 0, 2 and 4
/// give the factored form of `a x² + b x + c = 0`, as long as its roots
/// are integers; otherwise the coefficients come back in an error. Any
/// other shape is not solvable.
pub fn factorization(particles: &Vec<Particle>) -> (r: Result<String, EquationError>)
    ensures
        r matches Ok(s) ==> solved(terms(particles@)) == Ok::<Seq<char>, EquationError>(s@),
        r matches Err(e) ==> solved(terms(particles@)) == Err::<Seq<char>, EquationError>(e),
{
    let ghost ts = terms(particles@);
    if particles.len() > 5 {
        return Err(EquationError::UnsupportedDegree);
    }
    if particles.len() == 3 {
        if let Particle::Number(n) = &particles[0] {
            let prefix: &str = "x = ";
            proof {
                reveal_strlit("x = ");
            }
            assert(prefix@ =~= linear_prefix());
            let mut out = String::from_str(prefix);
            push_signed(&mut out, -(*n as i64));
            return Ok(out);
        }
    }
    if particles.len() == 5 {
        if let Particle::Number(c) = &particles[0] {
            if let Particle::Unknown(b) = &particles[2] {
                if let Particle::Unknown(a) = &particles[4] {
                    return quadratic(a.value, b.value, *c);
                }
            }
        }
    }
    Err(EquationError::Unsolvable)
}

} // verus!
