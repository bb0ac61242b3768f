//! Turning the text of an equation into particles.
use vstd::prelude::*;
use vstd::string::*;

use crate::particle::{terms, EquationError, Particle, Term, Unknown};
use crate::text::{i32_of, is_space, parse_i32, space};

verus! {

/// The token `s[start..i]` if it is not empty.
pub open spec fn flush(s: Seq<char>, start: int, i: int) -> Seq<Seq<char>> {
    if start < i {
        seq![s.subrange(start, i)]
    } else {
        seq![]
    }
}

/// The whitespace-separated tokens of `s[start..]`, where no whitespace
/// stands in `s[start..i]`.
pub open spec fn words_from(s: Seq<char>, start: int, i: int) -> Seq<Seq<char>>
    decreases s.len() - i,
{
    if i >= s.len() {
        flush(s, start, s.len() as int)
    } else if is_space(s[i]) {
        flush(s, start, i) + words_from(s, i + 1, i + 1)
    } else {
        words_from(s, start, i + 1)
    }
}

/// The whitespace-separated tokens of `s`, in order.
pub open spec fn words(s: Seq<char>) -> Seq<Seq<char>> {
    words_from(s, 0, 0)
}

/// The tokens that a list of bounds picks out of `s`.
pub open spec fn spans(s: Seq<char>, b: Seq<(usize, usize)>) -> Seq<Seq<char>> {
    Seq::new(b.len(), |j: int| s.subrange(b[j].0 as int, b[j].1 as int))
}

/// The degree that an exponent glyph stands for.
pub open spec fn glyph_degree(c: char) -> Option<int> {
    if c == '\u{b9}' {
        Some(1)
    } else if c == '\u{b2}' {
        Some(2)
    } else if c == '\u{b3}' {
        Some(3)
    } else if c == '\u{2074}' {
        Some(4)
    } else {
        None
    }
}

/// The coefficient written before the variable: an integer, or `-` for
/// minus one; anything else counts as one.
pub open spec fn coefficient_of(p: Seq<char>) -> int {
    match i32_of(p) {
        Some(v) => v,
        None => if p == seq!['-'] {
            -1
        } else {
            1
        },
    }
}

pub open spec fn fits_i32(v: int) -> bool {
    i32::MIN <= v && v <= i32::MAX
}

/// `i` is where the variable marker first stands in `t`.
pub open spec fn first_marker(t: Seq<char>, i: int) -> bool {
    0 <= i < t.len() && t[i] == 'x' && forall|j: int| 0 <= j < i ==> t[j] != 'x'
}

/// The particle of a token whose variable marker first stands at `i`.
pub open spec fn unknown_step(t: Seq<char>, i: int, sign: int) -> Result<(Term, int), EquationError> {
    let degree = if i == t.len() - 1 {
        Some(1int)
    } else if i == t.len() - 2 {
        glyph_degree(t[t.len() - 1])
    } else {
        None
    };
    match degree {
        None => Err(EquationError::Malformed),
        Some(d) => {
            let v = coefficient_of(t.take(i)) * sign;
            if fits_i32(v) {
                Ok((Term::Variable(d, v), sign))
            } else {
                Err(EquationError::Overflow)
            }
        },
    }
}

/// The particle of one token, and the sign that the next one takes,
/// given the sign that this one takes.
pub open spec fn step(t: Seq<char>, sign: int) -> Result<(Term, int), EquationError> {
    match i32_of(t) {
        Some(n) => if fits_i32(n * sign) {
            Ok((Term::Constant(n * sign), sign))
        } else {
            Err(EquationError::Overflow)
        },
        None => if exists|i: int| first_marker(t, i) {
            unknown_step(t, choose|i: int| first_marker(t, i), sign)
        } else if t == seq!['-'] {
            Ok((Term::Operator(seq!['+']), -1))
        } else {
            Ok((Term::Operator(t), 1))
        },
    }
}

/// The particles of the tokens `toks`, without zero constants, and the sign
/// that a next token would take; or the first token's error.
pub open spec fn scan(toks: Seq<Seq<char>>) -> Result<(Seq<Term>, int), EquationError>
    decreases toks.len(),
{
    if toks.len() == 0 {
        Ok((seq![], 1))
    } else {
        match scan(toks.drop_last()) {
            Err(e) => Err(e),
            Ok((ts, sign)) => match step(toks.last(), sign) {
                Err(e) => Err(e),
                Ok((t, next)) => Ok(
                    (if t == Term::Constant(0) {
                        ts
                    } else {
                        ts.push(t)
                    }, next),
                ),
            },
        }
    }
}

/// The particles of the equation `s`.
pub open spec fn tokenized(s: Seq<char>) -> Result<Seq<Term>, EquationError> {
    match scan(words(s)) {
        Ok((ts, _)) => Ok(ts),
        Err(e) => Err(e),
    }
}

/// The characters of `s`.
fn chars_of(s: &str) -> (r: Vec<char>)
    ensures
        r@ == s@,
{
    let n = s.unicode_len();
    let mut r: Vec<char> = Vec::new();
    let mut i: usize = 0;
    while i < n
        invariant
            n == s@.len(),
            i <= n,
            r@ == s@.take(i as int),
        decreases n - i,
    {
        r.push(s.get_char(i));
        i = i + 1;
        assert(r@ =~= s@.take(i as int));
    }
    assert(r@ =~= s@);
    r
}

/// The bounds of the whitespace-separated tokens of `t`, in order.
fn word_bounds(t: &Vec<char>) -> (r: Vec<(usize, usize)>)
    ensures
        spans(t@, r@) == words(t@),
        forall|j: int| 0 <= j < r@.len() ==> (#[trigger] r@[j]).0 < r@[j].1 <= t@.len(),
{
    let ghost s = t@;
    let mut r: Vec<(usize, usize)> = Vec::new();
    let mut start: usize = 0;
    let mut i: usize = 0;
    while i < t.len()
        invariant
            s == t@,
            start <= i <= s.len(),
            spans(s, r@) + words_from(s, start as int, i as int) == words(s),
            forall|j: int| 0 <= j < r@.len() ==> (#[trigger] r@[j]).0 < r@[j].1 <= s.len(),
        decreases s.len() - i,
    {
        let ghost old_r = r@;
        if space(t[i]) {
            if start < i {
                r.push((start, i));
            }
            assert(spans(s, r@) =~= spans(s, old_r) + flush(s, start as int, i as int));
            assert(spans(s, r@) + words_from(s, i + 1, i + 1) =~= spans(s, old_r) + (flush(
                s,
                start as int,
                i as int,
            ) + words_from(s, i + 1, i + 1)));
            start = i + 1;
        }
        i = i + 1;
    }
    let ghost old_r = r@;
    if start < i {
        r.push((start, i));
    }
    assert(spans(s, r@) =~= spans(s, old_r) + flush(s, start as int, i as int));
    r
}

/// The degree of an exponent glyph.
fn glyph(c: char) -> (r: Option<u8>)
    ensures
        r matches Some(d) ==> glyph_degree(c) == Some(d as int),
        r is None ==> glyph_degree(c) is None,
{
    if c == '\u{b9}' {
        Some(1)
    } else if c == '\u{b2}' {
        Some(2)
    } else if c == '\u{b3}' {
        Some(3)
    } else if c == '\u{2074}' {
        Some(4)
    } else {
        None
    }
}

/// The coefficient written in `t[from..to]`.
fn coefficient(t: &Vec<char>, from: usize, to: usize) -> (r: i32)
    requires
        from <= to <= t@.len(),
    ensures
        r as int == coefficient_of(t@.subrange(from as int, to as int)),
{
    match parse_i32(t, from, to) {
        Some(v) => v,
        None => {
            let ghost p = t@.subrange(from as int, to as int);
            if to > from && to - from == 1 && t[from] == '-' {
                assert(p =~= seq!['-']);
                -1
            } else {
                assert(p != seq!['-']) by {
                    if p == seq!['-'] {
                        assert(p.len() == 1 && p[0] == t@[from as int]);
                    }
                }
                1
            }
        },
    }
}

/// `v · sign`, where that fits in an `i32`.
fn apply_sign(v: i32, sign: i32) -> (r: Result<i32, EquationError>)
    requires
        sign == 1 || sign == -1,
    ensures
        r matches Ok(w) ==> fits_i32(v * sign) && w == v * sign,
        r is Err ==> !fits_i32(v * sign) && r == Err::<i32, EquationError>(EquationError::Overflow),
{
    if sign == 1 {
        Ok(v)
    } else if v == i32::MIN {
        Err(EquationError::Overflow)
    } else {
        Ok(-v)
    }
}

/// Classifies the token `t[from..to]`, which takes the sign `sign`.
fn classify(text: &str, t: &Vec<char>, from: usize, to: usize, sign: i32) -> (r: Result<(Particle, i32), EquationError>)
    requires
        t@ == text@,
        from < to <= t@.len(),
        sign == 1 || sign == -1,
    ensures
        r matches Ok((p, next)) ==> step(t@.subrange(from as int, to as int), sign as int) == Ok::<(Term, int), EquationError>((p@, next as int)),
        r matches Err(e) ==> step(t@.subrange(from as int, to as int), sign as int) == Err::<(Term, int), EquationError>(e),
        r matches Ok((_, next)) ==> next == 1 || next == -1,
{
    let ghost tok = t@.subrange(from as int, to as int);
    match parse_i32(t, from, to) {
        Some(n) => {
            return match apply_sign(n, sign) {
                Ok(v) => Ok((Particle::Number(v), sign)),
                Err(e) => Err(e),
            };
        },
        None => {},
    }
    let mut i: usize = from;
    while i < to && t[i] != 'x'
        invariant
            from <= i <= to <= t@.len(),
            forall|j: int| from <= j < i ==> t@[j] != 'x',
        decreases to - i,
    {
        i = i + 1;
    }
    if i < to {
        let ghost m = (i - from) as int;
        assert(first_marker(tok, m));
        assert forall|k: int| first_marker(tok, k) implies k == m by {
            if k < m {
                assert(tok[k] == t@[from + k]);
            }
            if m < k {
                assert(tok[m] == 'x');
            }
        }
        assert((choose|k: int| first_marker(tok, k)) == m);
        assert(tok[tok.len() - 1] == t@[to - 1]);
        let degree: Option<u8> = if i == to - 1 {
            Some(1)
        } else if i == to - 2 {
            glyph(t[to - 1])
        } else {
            None
        };
        match degree {
            None => Err(EquationError::Malformed),
            Some(d) => {
                let c = coefficient(t, from, i);
                assert(tok.take(m) =~= t@.subrange(from as int, i as int));
                match apply_sign(c, sign) {
                    Ok(v) => Ok((Particle::Unknown(Unknown { degree: d, value: v }), sign)),
                    Err(e) => Err(e),
                }
            },
        }
    } else {
        assert(!exists|k: int| first_marker(tok, k)) by {
            if exists|k: int| first_marker(tok, k) {
                let k = choose|k: int| first_marker(tok, k);
                assert(tok[k] == t@[from + k]);
            }
        }
        if to == from + 1 && t[from] == '-' {
            assert(tok =~= seq!['-']);
            let plus: &str = "+";
            proof {
                reveal_strlit("+");
            }
            assert(plus@ =~= seq!['+']);
            Ok((Particle::Symbol(String::from_str(plus)), -1))
        } else {
            assert(tok != seq!['-']) by {
                if tok == seq!['-'] {
                    assert(tok.len() == 1 && tok[0] == t@[from as int]);
                }
            }
            Ok((Particle::Symbol(String::from_str(text.substring_char(from, to))), 1))
        }
    }
}

/// Once the tokens up to some point fail, all of them fail with that error.
proof fn lemma_scan_error(toks: Seq<Seq<char>>, m: int, e: EquationError)
    requires
        0 <= m <= toks.len(),
        scan(toks.take(m)) == Err::<(Seq<Term>, int), EquationError>(e),
    ensures
        scan(toks) == Err::<(Seq<Term>, int), EquationError>(e),
    decreases toks.len(),
{
    if m == toks.len() {
        assert(toks.take(m) =~= toks);
    } else {
        assert(toks.drop_last().take(m) =~= toks.take(m));
        lemma_scan_error(toks.drop_last(), m, e);
    }
}

/// Splits `expression` on whitespace and classifies each token: an integer
/// becomes a number, a token with the variable marker `x` an unknown, and
/// anything else a symbol. A lone `-` becomes a `+` symbol and makes the
/// following numbers and unknowns negative, until the next symbol. Zero
/// numbers are left out.
pub fn data_preprocessing(expression: &String) -> (r: Result<Vec<Particle>, EquationError>)
    ensures
        r matches Ok(v) ==> tokenized(expression@) == Ok::<Seq<Term>, EquationError>(terms(v@)),
        r matches Err(e) ==> tokenized(expression@) == Err::<Seq<Term>, EquationError>(e),
        r matches Ok(v) ==> forall|i: int| 0 <= i < v@.len() ==> (#[trigger] v@[i])@ != Term::Constant(0),
{
    let text = expression.as_str();
    let t = chars_of(text);
    let b = word_bounds(&t);
    let ghost toks = words(t@);
    let mut out: Vec<Particle> = Vec::new();
    let mut sign: i32 = 1;
    let mut k: usize = 0;
    assert(toks.take(0) =~= seq![]);
    assert(terms(out@) =~= seq![]);
    while k < b.len()
        invariant
            t@ == text@,
            text@ == expression@,
            toks == words(t@),
            spans(t@, b@) == toks,
            forall|j: int| 0 <= j < b@.len() ==> (#[trigger] b@[j]).0 < b@[j].1 <= t@.len(),
            k <= b@.len(),
            sign == 1 || sign == -1,
            scan(toks.take(k as int)) == Ok::<(Seq<Term>, int), EquationError>((terms(out@), sign as int)),
            forall|i: int| 0 <= i < out@.len() ==> (#[trigger] out@[i])@ != Term::Constant(0),
        decreases b@.len() - k,
    {
        let (from, to) = b[k];
        let ghost old_out = out@;
        assert(toks.take(k + 1).drop_last() =~= toks.take(k as int));
        assert(toks.take(k + 1).last() == t@.subrange(from as int, to as int));
        match classify(text, &t, from, to, sign) {
            Err(e) => {
                proof {
                    lemma_scan_error(toks, k + 1, e);
                    assert(toks.take(toks.len() as int) =~= toks);
                }
                return Err(e);
            },
            Ok((p, next)) => {
                let zero = match &p {
                    Particle::Number(n) => *n == 0,
                    _ => false,
                };
                if !zero {
                    out.push(p);
                    assert(terms(out@) =~= terms(old_out).push(p@));
                }
                sign = next;
            },
        }
        k = k + 1;
    }
    assert(toks.take(k as int) =~= toks);
    Ok(out)
}

} // verus!
