//! Moving every term of the right-hand side to the left.
use vstd::prelude::*;
use vstd::string::*;

use crate::particle::{terms, EquationError, Particle, Term, Unknown};
use crate::tokenize::fits_i32;

verus! {

pub open spec fn is_equals(t: Term) -> bool {
    t == Term::Operator(seq!['='])
}

/// `k` is where the equality marker first stands in `ts`.
pub open spec fn first_equals(ts: Seq<Term>, k: int) -> bool {
    0 <= k < ts.len() && is_equals(ts[k]) && forall|j: int| 0 <= j < k ==> !is_equals(ts[j])
}

/// A term moved to the other side of the equality: numbers change sign,
/// operators stay as they are.
pub open spec fn negated(t: Term) -> Term {
    match t {
        Term::Constant(v) => Term::Constant(-v),
        Term::Variable(d, v) => Term::Variable(d, -v),
        Term::Operator(s) => Term::Operator(s),
    }
}

/// The negation of `t` fits where `t` itself stands.
pub open spec fn negation_fits(t: Term) -> bool {
    match t {
        Term::Constant(v) => fits_i32(-v),
        Term::Variable(_, v) => fits_i32(-v),
        Term::Operator(_) => true,
    }
}

/// The left-hand side followed by the negated right-hand side, where the
/// marker stands at `k`.
pub open spec fn moved(ts: Seq<Term>, k: int) -> Seq<Term> {
    ts.take(k) + ts.skip(k + 1).map_values(|t: Term| negated(t))
}

/// The terms of `lhs = rhs` as those of `lhs - rhs`; an error where no `=`
/// stands in `ts`, or where a negated value leaves the range of `i32`.
pub open spec fn transposed(ts: Seq<Term>) -> Result<Seq<Term>, EquationError> {
    if exists|k: int| first_equals(ts, k) {
        let k = choose|k: int| first_equals(ts, k);
        if forall|j: int| k < j < ts.len() ==> negation_fits(#[trigger] ts[j]) {
            Ok(moved(ts, k))
        } else {
            Err(EquationError::Overflow)
        }
    } else {
        Err(EquationError::MissingEquals)
    }
}

/// Transposing can be undone: negating the moved right-hand side again and
/// putting the `=` back in front of it gives the original terms.
pub proof fn lemma_transposition_round_trip(ts: Seq<Term>, k: int)
    requires
        first_equals(ts, k),
        transposed(ts) is Ok,
    ensures
        transposed(ts)->Ok_0.take(k) + seq![Term::Operator(seq!['='])] + transposed(ts)->Ok_0.skip(
            k,
        ).map_values(|t: Term| negated(t)) == ts,
{
    assert forall|m: int| first_equals(ts, m) implies m == k by {
        if m < k {
            assert(!is_equals(ts[m]));
        }
        if k < m {
            assert(is_equals(ts[k]));
        }
    }
    let t = transposed(ts)->Ok_0;
    assert(t == moved(ts, k));
    let back = t.take(k) + seq![Term::Operator(seq!['='])] + t.skip(k).map_values(|t: Term| negated(t));
    assert forall|i: int| 0 <= i < ts.len() implies back[i] == ts[i] by {
        if i > k {
            assert(t[i - 1] == negated(ts[i]));
            assert(back[i] == negated(t[i - 1]));
        }
    }
    assert(back =~= ts);
}

/// A copy of `p`.
fn copy_particle(p: &Particle) -> (r: Particle)
    ensures
        r@ == p@,
{
    match p {
        Particle::Number(n) => Particle::Number(*n),
        Particle::Unknown(u) => Particle::Unknown(*u),
        Particle::Symbol(s) => Particle::Symbol(s.clone()),
    }
}

fn is_equals_particle(p: &Particle) -> (r: bool)
    ensures
        r == is_equals(p@),
{
    match p {
        Particle::Symbol(s) => {
            let text = s.as_str();
            let r = text.unicode_len() == 1 && text.get_char(0) == '=';
            assert(r ==> s@ =~= seq!['=']);
            r
        },
        _ => false,
    }
}

fn negation_fits_particle(p: &Particle) -> (r: bool)
    ensures
        r == negation_fits(p@),
{
    match p {
        Particle::Number(n) => *n != i32::MIN,
        Particle::Unknown(u) => u.value != i32::MIN,
        Particle::Symbol(_) => true,
    }
}

fn negate(p: &Particle) -> (r: Particle)
    requires
        negation_fits(p@),
    ensures
        r@ == negated(p@),
{
    match p {
        Particle::Number(n) => Particle::Number(-*n),
        Particle::Unknown(u) => Particle::Unknown(Unknown { degree: u.degree, value: -u.value }),
        Particle::Symbol(s) => Particle::Symbol(s.clone()),
    }
}

/// Rewrites `lhs = rhs` as `lhs - rhs`: every particle after the first `=`
/// is negated and kept in order after the left-hand side, and the `=` is
/// removed. Without an `=`, or where a negated value would leave the range
/// of `i32`, the particles are left as they are and an error is returned.
pub fn transposition(particles: &mut Vec<Particle>) -> (r: Result<(), EquationError>)
    ensures
        r is Ok ==> transposed(terms(old(particles)@)) == Ok::<Seq<Term>, EquationError>(terms(final(particles)@)),
        r matches Err(e) ==> transposed(terms(old(particles)@)) == Err::<Seq<Term>, EquationError>(e),
        r is Err ==> final(particles)@ == old(particles)@,
{
    let ghost ts = terms(particles@);
    let n = particles.len();
    let mut k: usize = 0;
    while k < n && !is_equals_particle(&particles[k])
        invariant
            n == particles@.len(),
            ts == terms(particles@),
            k <= n,
            forall|j: int| 0 <= j < k ==> !is_equals(#[trigger] ts[j]),
        decreases n - k,
    {
        k = k + 1;
    }
    if k == n {
        assert(!exists|m: int| first_equals(ts, m)) by {
            if exists|m: int| first_equals(ts, m) {
                let m = choose|m: int| first_equals(ts, m);
                assert(!is_equals(ts[m]));
            }
        }
        return Err(EquationError::MissingEquals);
    }
    assert(first_equals(ts, k as int));
    assert forall|m: int| first_equals(ts, m) implies m == k by {
        if m < k {
            assert(!is_equals(ts[m]));
        }
        if k < m {
            assert(is_equals(ts[k as int]));
        }
    }
    assert((choose|m: int| first_equals(ts, m)) == k);
    let mut j: usize = k + 1;
    while j < n
        invariant
            n == particles@.len(),
            ts == terms(particles@),
            k < j <= n,
            first_equals(ts, k as int),
            (choose|m: int| first_equals(ts, m)) == k,
            forall|i: int| k < i < j ==> negation_fits(#[trigger] ts[i]),
        decreases n - j,
    {
        if !negation_fits_particle(&particles[j]) {
            assert(!negation_fits(ts[j as int]));
            return Err(EquationError::Overflow);
        }
        j = j + 1;
    }
    let mut out: Vec<Particle> = Vec::new();
    let mut i: usize = 0;
    while i < k
        invariant
            n == particles@.len(),
            ts == terms(particles@),
            i <= k < n,
            terms(out@) == ts.take(i as int),
        decreases k - i,
    {
        let ghost before = out@;
        out.push(copy_particle(&particles[i]));
        assert(terms(out@) =~= terms(before).push(ts[i as int]));
        i = i + 1;
        assert(ts.take(i as int) =~= ts.take(i - 1).push(ts[i - 1]));
    }
    let ghost rhs = ts.skip(k + 1);
    let mut i: usize = k + 1;
    while i < n
        invariant
            n == particles@.len(),
            ts == terms(particles@),
            rhs == ts.skip(k + 1),
            k < i <= n,
            forall|m: int| k < m < n ==> negation_fits(#[trigger] ts[m]),
            terms(out@) == ts.take(k as int) + rhs.take(i - k - 1).map_values(|t: Term| negated(t)),
        decreases n - i,
    {
        let ghost before = out@;
        out.push(negate(&particles[i]));
        assert(terms(out@) =~= terms(before).push(negated(ts[i as int])));
        i = i + 1;
        assert(rhs.take(i - k - 1).map_values(|t: Term| negated(t)) =~= rhs.take(i - k - 2).map_values(
            |t: Term| negated(t),
        ).push(negated(ts[i - 1])));
    }
    assert(rhs.take(n - k - 1) =~= rhs);
    *particles = out;
    Ok(())
}

} // verus!
