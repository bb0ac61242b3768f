//! Consolidating like terms into one term per degree.
use vstd::prelude::*;
use vstd::string::*;

use crate::particle::{terms, EquationError, Particle, Term, Unknown};
use crate::tokenize::fits_i32;

verus! {

/// Every unknown has degree one or more.
pub open spec fn degrees_positive(ts: Seq<Term>) -> bool {
    forall|i: int| 0 <= i < ts.len() ==> match #[trigger] ts[i] {
        Term::Variable(d, _) => d >= 1,
        _ => true,
    }
}

/// The sum of the constants in `ts`.
pub open spec fn constant_sum(ts: Seq<Term>) -> int
    decreases ts.len(),
{
    if ts.len() == 0 {
        0
    } else {
        constant_sum(ts.drop_last()) + match ts.last() {
            Term::Constant(v) => v,
            _ => 0,
        }
    }
}

/// The sum of the coefficients of the unknowns of degree `d` in `ts`.
pub open spec fn degree_sum(ts: Seq<Term>, d: int) -> int
    decreases ts.len(),
{
    if ts.len() == 0 {
        0
    } else {
        degree_sum(ts.drop_last(), d) + match ts.last() {
            Term::Variable(e, v) => if e == d {
                v
            } else {
                0
            },
            _ => 0,
        }
    }
}

/// The highest degree of an unknown in `ts`, and at least one.
pub open spec fn max_degree(ts: Seq<Term>) -> int
    decreases ts.len(),
{
    if ts.len() == 0 {
        1
    } else {
        let m = max_degree(ts.drop_last());
        match ts.last() {
            Term::Variable(d, _) => if d > m {
                d
            } else {
                m
            },
            _ => m,
        }
    }
}

/// The canonical form of `ts`: the sum of the constants, then for each
/// degree from one to the highest a `+` and the unknown of that degree
/// with the summed coefficient.
pub open spec fn canonical(ts: Seq<Term>) -> Seq<Term> {
    Seq::new(
        (2 * max_degree(ts) + 1) as nat,
        |j: int|
            if j == 0 {
                Term::Constant(constant_sum(ts))
            } else if j % 2 == 1 {
                Term::Operator(seq!['+'])
            } else {
                Term::Variable(j / 2, degree_sum(ts, j / 2))
            },
    )
}

/// The canonical form of `ts`, where each of its sums fits in an `i32`.
pub open spec fn organized(ts: Seq<Term>) -> Result<Seq<Term>, EquationError> {
    if fits_i32(constant_sum(ts)) && forall|d: int|
        1 <= d <= max_degree(ts) ==> fits_i32(#[trigger] degree_sum(ts, d)) {
        Ok(canonical(ts))
    } else {
        Err(EquationError::Overflow)
    }
}

const SUM_STEP: i128 = 0x8000_0000;

/// Sums the constants into one number and the unknowns of each degree into
/// one unknown, and lists them as the number followed by, for each degree
/// from one to the highest, a `+` symbol and the unknown of that degree;
/// degrees without an unknown get a zero coefficient. Where a sum leaves
/// the range of `i32`, an overflow error is returned.
pub fn organize_term(particles: Vec<Particle>) -> (r: Result<Vec<Particle>, EquationError>)
    requires
        degrees_positive(terms(particles@)),
    ensures
        r matches Ok(v) ==> organized(terms(particles@)) == Ok::<Seq<Term>, EquationError>(terms(v@)),
        r matches Err(e) ==> organized(terms(particles@)) == Err::<Seq<Term>, EquationError>(e),
{
    let ghost ts = terms(particles@);
    let n = particles.len();
    let mut number: i128 = 0;
    let mut highest: u8 = 1;
    let mut i: usize = 0;
    while i < n
        invariant
            n == particles@.len(),
            ts == terms(particles@),
            i <= n,
            number == constant_sum(ts.take(i as int)),
            -(i as int) * SUM_STEP <= number <= (i as int) * SUM_STEP,
            highest == max_degree(ts.take(i as int)),
        decreases n - i,
    {
        assert(ts.take(i + 1).drop_last() =~= ts.take(i as int));
        match &particles[i] {
            Particle::Number(v) => {
                number = number + *v as i128;
            },
            Particle::Unknown(u) => {
                if u.degree > highest {
                    highest = u.degree;
                }
            },
            Particle::Symbol(_) => {},
        }
        i = i + 1;
    }
    assert(ts.take(n as int) =~= ts);
    let mut values: Vec<i128> = Vec::new();
    while values.len() < highest as usize
        invariant
            values@.len() <= highest,
            forall|d: int| 0 <= d < values@.len() ==> values@[d] == 0,
        decreases highest - values@.len(),
    {
        values.push(0);
    }
    let mut i: usize = 0;
    while i < n
        invariant
            n == particles@.len(),
            ts == terms(particles@),
            degrees_positive(ts),
            highest == max_degree(ts),
            values@.len() == highest,
            i <= n,
            forall|d: int| 0 <= d < highest ==> #[trigger] values@[d] == degree_sum(ts.take(i as int), d + 1),
            forall|d: int| 0 <= d < highest ==> -(i as int) * SUM_STEP <= #[trigger] values@[d] <= (i as int) * SUM_STEP,
        decreases n - i,
    {
        assert(ts.take(i + 1).drop_last() =~= ts.take(i as int));
        match &particles[i] {
            Particle::Unknown(u) => {
                assert(ts[i as int] == Term::Variable(u.degree as int, u.value as int));
                proof {
                    lemma_max_degree_bounds(ts, i as int);
                }
                let k = u.degree as usize - 1;
                values[k] = values[k] + u.value as i128;
            },
            _ => {},
        }
        i = i + 1;
    }
    assert(ts.take(n as int) =~= ts);
    if number < i32::MIN as i128 || number > i32::MAX as i128 {
        return Err(EquationError::Overflow);
    }
    let mut out: Vec<Particle> = Vec::new();
    out.push(Particle::Number(number as i32));
    let mut d: usize = 0;
    while d < values.len()
        invariant
            ts == terms(particles@),
            highest == max_degree(ts),
            values@.len() == highest,
            d <= highest,
            fits_i32(constant_sum(ts)),
            forall|e: int| 0 <= e < highest ==> #[trigger] values@[e] == degree_sum(ts, e + 1),
            forall|e: int| 1 <= e <= d ==> fits_i32(#[trigger] degree_sum(ts, e)),
            terms(out@) == canonical(ts).take(2 * d + 1),
        decreases highest - d,
    {
        let v = values[d];
        if v < i32::MIN as i128 || v > i32::MAX as i128 {
            assert(!fits_i32(degree_sum(ts, d + 1)));
            return Err(EquationError::Overflow);
        }
        let ghost before = out@;
        let ghost c = canonical(ts);
        assert(c[2 * d + 1] == Term::Operator(seq!['+']));
        assert(c[2 * d + 2] == Term::Variable(d + 1, degree_sum(ts, d + 1)));
        let plus: &str = "+";
        proof {
            reveal_strlit("+");
        }
        assert(plus@ =~= seq!['+']);
        out.push(Particle::Symbol(String::from_str(plus)));
        out.push(Particle::Unknown(Unknown { degree: (d + 1) as u8, value: v as i32 }));
        assert(terms(out@) =~= terms(before).push(c[2 * d + 1]).push(c[2 * d + 2]));
        d = d + 1;
        assert(terms(out@) =~= c.take(2 * d + 1));
    }
    assert(canonical(ts).take(2 * d + 1) =~= canonical(ts));
    Ok(out)
}

/// Consolidation gives one constant and one unknown for each degree from
/// one to the highest degree present, alternating with `+` symbols, so
/// `2 · max_degree + 1` particles of which `max_degree + 1` are terms;
/// every unknown of the input has a slot.
pub proof fn lemma_organized_shape(ts: Seq<Term>)
    requires
        degrees_positive(ts),
        organized(ts) is Ok,
    ensures
        ({
            let out = organized(ts)->Ok_0;
            let m = max_degree(ts);
            &&& m >= 1
            &&& out.len() == 2 * m + 1
            &&& out[0] == Term::Constant(constant_sum(ts))
            &&& forall|j: int| 0 <= j < m ==> #[trigger] out[2 * j + 1] == Term::Operator(seq!['+'])
            &&& forall|d: int| 1 <= d <= m ==> #[trigger] out[2 * d] == Term::Variable(d, degree_sum(ts, d))
            &&& forall|i: int| 0 <= i < ts.len() ==> (#[trigger] ts[i] matches Term::Variable(d, _) ==> 1 <= d <= m)
        }),
{
    lemma_max_degree_at_least_one(ts);
    let out = organized(ts)->Ok_0;
    let m = max_degree(ts);
    assert forall|j: int| 0 <= j < m implies #[trigger] out[2 * j + 1] == Term::Operator(seq!['+']) by {
        assert((2 * j + 1) % 2 == 1);
    }
    assert forall|d: int| 1 <= d <= m implies #[trigger] out[2 * d] == Term::Variable(d, degree_sum(ts, d)) by {
        assert((2 * d) % 2 == 0);
        assert((2 * d) / 2 == d);
    }
    assert forall|i: int| 0 <= i < ts.len() implies (#[trigger] ts[i] matches Term::Variable(d, _) ==> 1 <= d <= m) by {
        lemma_max_degree_bounds(ts, i);
    }
}

/// Every unknown's degree lies between one and the highest degree.
proof fn lemma_max_degree_bounds(ts: Seq<Term>, i: int)
    requires
        degrees_positive(ts),
        0 <= i < ts.len(),
    ensures
        ts[i] matches Term::Variable(d, _) ==> 1 <= d <= max_degree(ts),
        max_degree(ts) >= 1,
    decreases ts.len(),
{
    lemma_max_degree_at_least_one(ts);
    if i < ts.len() - 1 {
        assert(degrees_positive(ts.drop_last()));
        lemma_max_degree_bounds(ts.drop_last(), i);
    }
}

proof fn lemma_max_degree_at_least_one(ts: Seq<Term>)
    ensures
        max_degree(ts) >= 1,
    decreases ts.len(),
{
    if ts.len() > 0 {
        lemma_max_degree_at_least_one(ts.drop_last());
    }
}

} // verus!
