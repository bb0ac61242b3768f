use factoring::{
    data_preprocessing, factorization, organize_term, solve_equation, transposition, EquationError,
    Particle, Unknown,
};

fn unknown(degree: u8, value: i32) -> Particle {
    Particle::Unknown(Unknown { degree, value })
}

fn symbol(s: &str) -> Particle {
    Particle::Symbol(String::from(s))
}

fn solve(s: &str) -> Result<String, EquationError> {
    solve_equation(&String::from(s))
}

#[test]
fn is_preprocessed() {
    let data = data_preprocessing(&String::from("x² + 2x + 1 = 0")).unwrap();

    let result = vec![
        Particle::Unknown(Unknown {
            degree: 2,
            value: 1,
        }),
        Particle::Symbol(String::from("+")),
        Particle::Unknown(Unknown {
            degree: 1,
            value: 2,
        }),
        Particle::Symbol(String::from("+")),
        Particle::Number(1),
        Particle::Symbol(String::from("=")),
    ];

    // The right-hand side `0` is a zero constant, which the tokenizer drops.

    assert_eq!(data, result);
}

#[test]
fn zero_constants_dropped_zero_unknowns_kept() {
    let data = data_preprocessing(&String::from("0x + 0 = 5")).unwrap();
    assert_eq!(data, vec![unknown(1, 0), symbol("+"), symbol("="), Particle::Number(5)]);
    assert!(!data.contains(&Particle::Number(0)));
}

#[test]
fn lone_minus_becomes_plus_and_negates() {
    let data = data_preprocessing(&String::from("x² - 3x + 2 = 0")).unwrap();
    assert_eq!(
        data,
        vec![unknown(2, 1), symbol("+"), unknown(1, -3), symbol("+"), Particle::Number(2), symbol("=")]
    );
}

#[test]
fn minus_carries_until_next_symbol() {
    let data = data_preprocessing(&String::from("- 3 x = 0")).unwrap();
    assert_eq!(data, vec![symbol("+"), Particle::Number(-3), unknown(1, -1), symbol("=")]);
}

#[test]
fn coefficient_fallbacks() {
    let data = data_preprocessing(&String::from("-x +x abcx x¹ -7x")).unwrap();
    assert_eq!(data, vec![unknown(1, -1), unknown(1, 1), unknown(1, 1), unknown(1, 1), unknown(1, -7)]);
}

#[test]
fn every_exponent_glyph() {
    let data = data_preprocessing(&String::from("x¹ 2x² 3x³ 4x⁴")).unwrap();
    assert_eq!(data, vec![unknown(1, 1), unknown(2, 2), unknown(3, 3), unknown(4, 4)]);
}

#[test]
fn other_whitespace_separates() {
    let data = data_preprocessing(&String::from("  x\t=\n 3  ")).unwrap();
    assert_eq!(data, vec![unknown(1, 1), symbol("="), Particle::Number(3)]);
}

#[test]
fn malformed_tokens_refused() {
    assert_eq!(data_preprocessing(&String::from("x2 = 0")), Err(EquationError::Malformed));
    assert_eq!(data_preprocessing(&String::from("2xy = 0")), Err(EquationError::Malformed));
    assert_eq!(data_preprocessing(&String::from("x²y = 0")), Err(EquationError::Malformed));
}

#[test]
fn negated_minimum_overflows() {
    assert_eq!(data_preprocessing(&String::from("- -2147483648 = 0")), Err(EquationError::Overflow));
    assert_eq!(
        data_preprocessing(&String::from("-2147483648 = 0")).unwrap(),
        vec![Particle::Number(i32::MIN), symbol("=")]
    );
}

#[test]
fn transposition_moves_and_negates() {
    let mut particles = data_preprocessing(&String::from("x + 2 = 2x + 1")).unwrap();
    transposition(&mut particles).unwrap();
    assert_eq!(
        particles,
        vec![unknown(1, 1), symbol("+"), Particle::Number(2), unknown(1, -2), symbol("+"), Particle::Number(-1)]
    );
}

#[test]
fn transposition_round_trip() {
    let original = data_preprocessing(&String::from("x² + 4 = 3x + 1")).unwrap();
    let mut particles = original.clone();
    transposition(&mut particles).unwrap();
    let k = original.iter().position(|p| *p == symbol("=")).unwrap();
    let mut back: Vec<Particle> = particles[..k].to_vec();
    back.push(symbol("="));
    for p in &particles[k..] {
        back.push(match p {
            Particle::Number(n) => Particle::Number(-n),
            Particle::Unknown(u) => unknown(u.degree, -u.value),
            Particle::Symbol(s) => Particle::Symbol(s.clone()),
        });
    }
    assert_eq!(back, original);
}

#[test]
fn transposition_without_equals() {
    let mut particles = vec![unknown(1, 1), symbol("+"), Particle::Number(1)];
    assert_eq!(transposition(&mut particles), Err(EquationError::MissingEquals));
    assert_eq!(particles, vec![unknown(1, 1), symbol("+"), Particle::Number(1)]);
}

#[test]
fn transposition_negation_overflow() {
    let mut particles = vec![unknown(1, 1), symbol("="), Particle::Number(i32::MIN)];
    assert_eq!(transposition(&mut particles), Err(EquationError::Overflow));
}

#[test]
fn organize_fills_every_degree() {
    let organized = organize_term(vec![
        Particle::Number(1),
        unknown(1, 2),
        unknown(3, 1),
        Particle::Number(4),
        unknown(1, -5),
    ])
    .unwrap();
    assert_eq!(
        organized,
        vec![
            Particle::Number(5),
            symbol("+"),
            unknown(1, -3),
            symbol("+"),
            unknown(2, 0),
            symbol("+"),
            unknown(3, 1)
        ]
    );
    assert_eq!(organized.len(), 2 * 3 + 1);
}

#[test]
fn organize_without_unknowns() {
    assert_eq!(
        organize_term(vec![]).unwrap(),
        vec![Particle::Number(0), symbol("+"), unknown(1, 0)]
    );
}

#[test]
fn organize_sum_overflow() {
    assert_eq!(
        organize_term(vec![Particle::Number(i32::MAX), Particle::Number(1)]),
        Err(EquationError::Overflow)
    );
    assert_eq!(
        organize_term(vec![unknown(2, i32::MIN), unknown(2, -1)]),
        Err(EquationError::Overflow)
    );
    assert_eq!(
        organize_term(vec![Particle::Number(i32::MAX), Particle::Number(1), Particle::Number(-1)]).unwrap(),
        vec![Particle::Number(i32::MAX), symbol("+"), unknown(1, 0)]
    );
}

#[test]
fn factorization_linear() {
    let particles = vec![Particle::Number(6), symbol("+"), unknown(1, 1)];
    assert_eq!(factorization(&particles), Ok(String::from("x = -6")));
    let particles = vec![Particle::Number(-4), symbol("+"), unknown(1, 9)];
    assert_eq!(factorization(&particles), Ok(String::from("x = 4")));
    let particles = vec![Particle::Number(i32::MIN), symbol("+"), unknown(1, 1)];
    assert_eq!(factorization(&particles), Ok(String::from("x = 2147483648")));
}

#[test]
fn factorization_shapes() {
    assert_eq!(factorization(&vec![]), Err(EquationError::Unsolvable));
    assert_eq!(factorization(&vec![Particle::Number(1)]), Err(EquationError::Unsolvable));
    let swapped = vec![unknown(1, 1), symbol("+"), Particle::Number(1), symbol("+"), unknown(2, 1)];
    assert_eq!(factorization(&swapped), Err(EquationError::Unsolvable));
    let cubic = vec![
        Particle::Number(1),
        symbol("+"),
        unknown(1, 0),
        symbol("+"),
        unknown(2, 0),
        symbol("+"),
        unknown(3, 1),
    ];
    assert_eq!(factorization(&cubic), Err(EquationError::UnsupportedDegree));
}

#[test]
fn factorization_zero_leading_coefficient() {
    let particles = vec![Particle::Number(1), symbol("+"), unknown(1, 2), symbol("+"), unknown(2, 0)];
    assert_eq!(
        factorization(&particles),
        Err(EquationError::NonIntegralRoots { a: 0, b: 2, c: 1 })
    );
}

#[test]
fn linear_equation_solved() {
    assert_eq!(solve("2 x + 4 = 0"), Ok(String::from("x = -6")));
    assert_eq!(solve("2x + 4 = 0"), Ok(String::from("x = -4")));
}

#[test]
fn repeated_root() {
    assert_eq!(solve("x² + 2x + 1 = 0"), Ok(String::from("(x + 1)² = 0")));
    assert_eq!(solve("2x² + 4x + 2 = 0"), Ok(String::from("(x + 1)² = 0")));
    assert_eq!(solve("x² - 2x + 1 = 0"), Ok(String::from("(x - 1)² = 0")));
}

#[test]
fn repeated_root_spaced_coefficient() {
    assert_eq!(
        solve("x² + 2 x + 1 = 0"),
        Err(EquationError::NonIntegralRoots { a: 1, b: 1, c: 3 })
    );
}

#[test]
fn distinct_roots() {
    assert_eq!(solve("x² - 3x + 2 = 0"), Ok(String::from("(x - 2)(x - 1) = 0")));
    assert_eq!(solve("x² + 3x + 2 = 0"), Ok(String::from("(x + 1)(x + 2) = 0")));
    assert_eq!(solve("x² - 2x = 0"), Ok(String::from("(x - 2)(x + 0) = 0")));
    assert_eq!(solve("x² = 4"), Ok(String::from("(x - 2)(x + 2) = 0")));
}

#[test]
fn distinct_roots_spaced_coefficient() {
    assert_eq!(
        solve("x² - 3 x + 2 = 0"),
        Err(EquationError::NonIntegralRoots { a: 1, b: -1, c: -1 })
    );
}

#[test]
fn fractional_and_complex_roots() {
    assert_eq!(
        solve("2x² + 3x + 1 = 0"),
        Err(EquationError::NonIntegralRoots { a: 2, b: 3, c: 1 })
    );
    assert_eq!(
        solve("x² + 1 = 0"),
        Err(EquationError::NonIntegralRoots { a: 1, b: 0, c: 1 })
    );
}

#[test]
fn cubic_rejected() {
    assert_eq!(solve("x³ + 1 = 0"), Err(EquationError::UnsupportedDegree));
    assert_eq!(solve("x⁴ = x"), Err(EquationError::UnsupportedDegree));
}

#[test]
fn missing_equals_rejected() {
    assert_eq!(solve("x² + 2x + 1"), Err(EquationError::MissingEquals));
}

#[test]
fn malformed_equation_rejected() {
    assert_eq!(solve("xx = 1"), Err(EquationError::Malformed));
}

#[test]
fn large_coefficients_exact() {
    assert_eq!(
        solve("x² - 65536x = 0"),
        Ok(String::from("(x - 65536)(x + 0) = 0"))
    );
    assert_eq!(
        solve("x² + 2147483647x = 0"),
        Ok(String::from("(x + 0)(x + 2147483647) = 0"))
    );
}
