//! The particles an equation is made of, and their mathematical view.
use vstd::prelude::*;

verus! {

/// A power of the variable with its coefficient: `value · x^degree`.
#[derive(PartialEq, Eq, Structural, Debug, Clone, Copy)]
pub struct Unknown {
    pub degree: u8,
    pub value: i32,
}

/// One classified unit of an equation.
#[derive(PartialEq, Debug, Clone)]
pub enum Particle {
    /// A bare numeric term.
    Number(i32),
    /// A power of the variable with its coefficient.
    Unknown(Unknown),
    /// An operator or the equality marker, as written (`+`, `=`).
    Symbol(String),
}

/// What a particle means, over mathematical integers and character sequences.
pub ghost enum Term {
    Constant(int),
    Variable(int, int),
    Operator(Seq<char>),
}

impl View for Particle {
    type V = Term;

    open spec fn view(&self) -> Term {
        match self {
            Particle::Number(n) => Term::Constant(*n as int),
            Particle::Unknown(u) => Term::Variable(u.degree as int, u.value as int),
            Particle::Symbol(s) => Term::Operator(s@),
        }
    }
}

/// Why an equation could not be solved.
#[derive(PartialEq, Eq, Structural, Debug, Clone, Copy)]
pub enum EquationError {
    /// A token names the variable but is not of the form
    /// `[coefficient]x` or `[coefficient]x<exponent glyph>`.
    Malformed,
    /// The equation has no `=`.
    MissingEquals,
    /// A coefficient or constant left the range of `i32`.
    Overflow,
    /// The equation has a term of degree three or more.
    UnsupportedDegree,
    /// The consolidated terms are not in the shape the solver reads.
    Unsolvable,
    /// The quadratic's roots are not integers, so they can only be shown
    /// approximately; the coefficients `a x² + b x + c` are handed back.
    NonIntegralRoots { a: i32, b: i32, c: i32 },
}

/// The view of a sequence of particles.
pub open spec fn terms(ps: Seq<Particle>) -> Seq<Term> {
    ps.map_values(|p: Particle| p@)
}

} // verus!
