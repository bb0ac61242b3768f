//! The whole solver, from the text of an equation to its answer, and the
//! laws that relate its stages.
use vstd::prelude::*;

use crate::factor::{factorization, solved};
use crate::organize::{degrees_positive, lemma_organized_shape, organize_term, organized};
use crate::particle::{EquationError, Term};
use crate::tokenize::{data_preprocessing, scan, step, tokenized, words};
use crate::transpose::{first_equals, is_equals, moved, negated, transposed, transposition};

verus! {

/// The answer for the equation written in `s`, or the first stage's error.
pub open spec fn solution(s: Seq<char>) -> Result<Seq<char>, EquationError> {
    match tokenized(s) {
        Err(e) => Err(e),
        Ok(ts) => match transposed(ts) {
            Err(e) => Err(e),
            Ok(moved_terms) => match organized(moved_terms) {
                Err(e) => Err(e),
                Ok(canonical_terms) => solved(canonical_terms),
            },
        },
    }
}

proof fn lemma_scan_degrees(toks: Seq<Seq<char>>)
    requires
        scan(toks) is Ok,
    ensures
        degrees_positive(scan(toks)->Ok_0.0),
    decreases toks.len(),
{
    if toks.len() > 0 {
        lemma_scan_degrees(toks.drop_last());
        let (ts, sign) = scan(toks.drop_last())->Ok_0;
        let (t, next) = step(toks.last(), sign)->Ok_0;
        if t != Term::Constant(0) {
            assert(ts.push(t).last() == t);
        }
    }
}

/// What the tokenizer yields has no unknown of degree zero.
pub proof fn lemma_tokenized_degrees(s: Seq<char>)
    requires
        tokenized(s) is Ok,
    ensures
        degrees_positive(tokenized(s)->Ok_0),
{
    lemma_scan_degrees(words(s));
}

/// Transposition keeps the degrees of the unknowns.
pub proof fn lemma_transposed_degrees(ts: Seq<Term>)
    requires
        degrees_positive(ts),
        transposed(ts) is Ok,
    ensures
        degrees_positive(transposed(ts)->Ok_0),
{
    let k = choose|k: int| first_equals(ts, k);
    let t = transposed(ts)->Ok_0;
    assert forall|i: int| 0 <= i < t.len() implies match #[trigger] t[i] {
        Term::Variable(d, _) => d >= 1,
        _ => true,
    } by {
        if i >= k {
            assert(t[i] == negated(ts[i + 1]));
        } else {
            assert(t[i] == ts[i]);
        }
    }
}

/// An equation with an unknown of degree three or more gets no answer; where
/// the earlier stages pass, the solver refuses it for its degree.
pub proof fn lemma_high_degree_rejected(s: Seq<char>, i: int)
    requires
        tokenized(s) is Ok,
        0 <= i < tokenized(s)->Ok_0.len(),
        tokenized(s)->Ok_0[i] matches Term::Variable(d, _) && d > 2,
    ensures
        solution(s) is Err,
        transposed(tokenized(s)->Ok_0) is Ok && organized(transposed(tokenized(s)->Ok_0)->Ok_0) is Ok
            ==> solution(s) == Err::<Seq<char>, EquationError>(EquationError::UnsupportedDegree),
{
    let ts = tokenized(s)->Ok_0;
    lemma_tokenized_degrees(s);
    if transposed(ts) is Ok {
        lemma_transposed_degrees(ts);
        let k = choose|k: int| first_equals(ts, k);
        let t = transposed(ts)->Ok_0;
        let j = if i < k {
            i
        } else {
            i - 1
        };
        assert(i != k);
        assert(t[j] matches Term::Variable(d, _) && d > 2) by {
            if i > k {
                assert(t[j] == negated(ts[i]));
            } else {
                assert(t[j] == ts[i]);
            }
        }
        if organized(t) is Ok {
            lemma_organized_shape(t);
            assert(organized(t)->Ok_0.len() > 5);
        }
    }
}

/// An equation without `=` is refused at transposition, before the solver.
pub proof fn lemma_missing_equals_rejected(s: Seq<char>)
    requires
        tokenized(s) is Ok,
        forall|i: int| 0 <= i < tokenized(s)->Ok_0.len() ==> !is_equals(#[trigger] tokenized(s)->Ok_0[i]),
    ensures
        transposed(tokenized(s)->Ok_0) == Err::<Seq<Term>, EquationError>(EquationError::MissingEquals),
        solution(s) == Err::<Seq<char>, EquationError>(EquationError::MissingEquals),
{
    let ts = tokenized(s)->Ok_0;
    assert(!exists|k: int| first_equals(ts, k)) by {
        if exists|k: int| first_equals(ts, k) {
            let k = choose|k: int| first_equals(ts, k);
            assert(is_equals(ts[k]));
        }
    }
}

/// Solves the equation written in `expression`: tokenizes it, moves the
/// right-hand side to the left, consolidates like terms and extracts the
/// roots, stopping at the first stage that fails.
pub fn solve_equation(expression: &String) -> (r: Result<String, EquationError>)
    ensures
        r matches Ok(s) ==> solution(expression@) == Ok::<Seq<char>, EquationError>(s@),
        r matches Err(e) ==> solution(expression@) == Err::<Seq<char>, EquationError>(e),
{
    let mut particles = match data_preprocessing(expression) {
        Ok(v) => v,
        Err(e) => return Err(e),
    };
    proof {
        lemma_tokenized_degrees(expression@);
    }
    match transposition(&mut particles) {
        Ok(()) => {},
        Err(e) => return Err(e),
    }
    proof {
        lemma_transposed_degrees(tokenized(expression@)->Ok_0);
    }
    let canonical_particles = match organize_term(particles) {
        Ok(v) => v,
        Err(e) => return Err(e),
    };
    factorization(&canonical_particles)
}

} // verus!
