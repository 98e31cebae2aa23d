use hyperion::grammar::{
    chars_of, open_paran, parse_axiom, parse_condition, parse_conditional, parse_lit_value,
    parse_number, parse_operator, parse_parameters, parse_probability, parse_rule, parse_suffix,
    Expected, ExpectedSet, ParseError, Token,
};

fn kinds(ks: &[Expected]) -> ExpectedSet {
    let mut set = ExpectedSet::one(Expected::End);
    set.end = false;
    for k in ks {
        match k {
            Expected::Symbol => set.symbol = true,
            Expected::Value => set.value = true,
            Expected::Number => set.number = true,
            Expected::Operator => set.operator = true,
            Expected::Relation => set.relation = true,
            Expected::OpenParen => set.open_paren = true,
            Expected::CloseParen => set.close_paren = true,
            Expected::Colon => set.colon = true,
            Expected::Arrow => set.arrow = true,
            Expected::End => set.end = true,
        }
    }
    set
}
use hyperion::{
    Condition, Conditional, ConditionalValue, DerivationError, EvalError, LSystem, LSystemBuilder, Module, Operator, RandomSource, State, Value, Variables,
    SCALE,
};

fn num(x: f64) -> Value {
    Value::Num((x * SCALE as f64).round() as i64)
}

/// A small linear congruential generator, seeded by the test.
struct Lcg(u64);

impl RandomSource for Lcg {
    fn draw(&mut self) -> u64 {
        self.0 = self
            .0
            .wrapping_mul(6364136223846793005)
            .wrapping_add(1442695040888963407);
        self.0 >> 33
    }
}

fn system(start: &str, rules: &[&str]) -> LSystem<Token> {
    let mut b = LSystemBuilder::new_str(start).unwrap();
    for r in rules {
        b = b.rule_str(r).unwrap();
    }
    b.build()
}

fn word(s: &str) -> State<Token> {
    parse_axiom(s).unwrap().inner
}

#[test]
fn sample_zero_is_axiom() {
    let sys = system("A(1)B[C]", &["A(x) -> A(x+1)B", "B -> C"]);
    let out = sys.sample(0, &mut Lcg(7)).unwrap();
    assert_eq!(out, sys.initial.inner);
}

#[test]
fn deterministic_rules_give_equal_samples() {
    let sys = system("A(1)", &["A(x) -> F(x)[+A(x*0.5)]A(x+1)", "F(y) -> F(y*2)"]);
    let a = sys.sample(4, &mut Lcg(1)).unwrap();
    let b = sys.sample(4, &mut Lcg(99)).unwrap();
    assert_eq!(a, b);
    assert!(a.len() > 10);
}

#[test]
fn weighted_selection_frequency() {
    let sys = system("A", &["A : 0.3 -> B", "A : 0.7 -> C"]);
    assert_eq!(sys.rules.rules[0].probability, 300_000);
    assert_eq!(sys.rules.rules[1].probability, 700_000);
    let mut rng = Lcg(2024);
    let trials = 10_000;
    let mut firsts = 0;
    for _ in 0..trials {
        let out = sys.sample(1, &mut rng).unwrap();
        assert_eq!(out.len(), 1);
        if out.modules[0].token == Token::External('B') {
            firsts += 1;
        } else {
            assert_eq!(out.modules[0].token, Token::External('C'));
        }
    }
    let freq = firsts as f64 / trials as f64;
    assert!((freq - 0.3).abs() < 0.03, "observed {freq}");
}

#[test]
fn context_skips_brackets() {
    let sys = system("[X]A[Y]", &["X < A -> Z"]);
    assert_eq!(sys.rules.rules[0].previous, Some(Token::External('X')));
    let out = sys.sample(1, &mut Lcg(3)).unwrap();
    assert_eq!(out, word("[X]Z[Y]"));
}

#[test]
fn context_needs_true_predecessor() {
    let sys = system("YA", &["X < A -> Z"]);
    let out = sys.sample(1, &mut Lcg(3)).unwrap();
    assert_eq!(out, word("YA"));
}

#[test]
fn right_context_matches() {
    let sys = system("AB[C]AD", &["A D> -> Z"]);
    assert_eq!(sys.rules.rules[0].next, Some(Token::External('D')));
    let out = sys.sample(1, &mut Lcg(3)).unwrap();
    assert_eq!(out, word("AB[C]ZD"));
}

#[test]
fn guarded_recursion() {
    let sys = system("B(3)", &["B(i) : i > 0 -> F(1,1) B(i-1)"]);
    let mut rng = Lcg(5);
    assert_eq!(sys.sample(1, &mut rng).unwrap(), word("F(1,1)B(2)"));
    let g3 = sys.sample(3, &mut rng).unwrap();
    assert_eq!(g3, word("F(1,1)F(1,1)F(1,1)B(0)"));
    assert_eq!(sys.sample(4, &mut rng).unwrap(), g3);
}

#[test]
fn expression_uses_both_scopes() {
    let v = Value::Expr(Box::new(Value::Var('l')), Operator::Mul, Box::new(Value::Var('b')));
    let mut locals = Variables::new();
    locals.insert('l', num(1.0));
    let mut globals = Variables::new();
    globals.insert('b', num(0.9));
    assert_eq!(v.evaluate(&locals, &globals), Ok(num(0.9)));
}

#[test]
fn locals_shadow_globals_and_unbound_stays() {
    let mut locals = Variables::new();
    locals.insert('x', num(2.0));
    let mut globals = Variables::new();
    globals.insert('x', num(5.0));
    globals.insert('x', num(7.0));
    assert_eq!(Value::Var('x').evaluate(&locals, &globals), Ok(num(2.0)));
    assert_eq!(Value::Var('x').evaluate(&Variables::new(), &globals), Ok(num(7.0)));
    assert_eq!(Value::Var('q').evaluate(&locals, &globals), Ok(Value::Var('q')));
}

fn eval(a: Value, op: Operator, b: Value) -> Result<Value, EvalError> {
    Value::Expr(Box::new(a), op, Box::new(b)).evaluate(&Variables::new(), &Variables::new())
}

#[test]
fn fixed_point_arithmetic() {
    assert_eq!(eval(num(1.5), Operator::Add, num(2.25)), Ok(num(3.75)));
    assert_eq!(eval(num(1.5), Operator::Sub, num(2.25)), Ok(num(-0.75)));
    assert_eq!(eval(num(1.5), Operator::Mul, num(2.25)), Ok(num(3.375)));
    assert_eq!(eval(num(1.0), Operator::Div, num(3.0)), Ok(Value::Num(333_333)));
    assert_eq!(eval(num(-1.0), Operator::Div, num(3.0)), Ok(Value::Num(-333_333)));
    assert_eq!(
        eval(num(4.0), Operator::Exponent, num(0.5)),
        Ok(Value::Expr(Box::new(num(4.0)), Operator::Exponent, Box::new(num(0.5))))
    );
}

#[test]
fn evaluation_errors() {
    let color = Value::Color(SCALE, 0, 0, SCALE);
    assert_eq!(eval(color, Operator::Add, num(1.0)), Err(EvalError::TypeMismatch));
    assert_eq!(eval(num(1.0), Operator::Div, num(0.0)), Err(EvalError::DivisionByZero));
    assert_eq!(
        eval(Value::Num(i64::MAX), Operator::Add, num(1.0)),
        Err(EvalError::Overflow)
    );
    assert_eq!(
        eval(Value::Var('u'), Operator::Mul, num(1.0)),
        Err(EvalError::TypeMismatch)
    );
}

#[test]
fn guard_error_surfaces_from_sample() {
    let sys = system("B(1)", &["B(i) : i | 0 -> C"]);
    assert_eq!(
        sys.sample(1, &mut Lcg(1)),
        Err(DerivationError { position: 0, cause: EvalError::TypeMismatch })
    );
    let sys = system("FB(1)", &["B(i) -> C(i/0)"]);
    assert_eq!(
        sys.sample(1, &mut Lcg(1)),
        Err(DerivationError { position: 1, cause: EvalError::DivisionByZero })
    );
}

#[test]
fn globals_feed_templates() {
    let sys = system("A(2)", &["A(x) -> F(x*s)"]).into_builder_with('s', num(1.5));
    let out = sys.sample(1, &mut Lcg(0)).unwrap();
    assert_eq!(out, word("F(3)"));
}

trait WithVar {
    fn into_builder_with(self, k: char, v: Value) -> LSystem<Token>;
}

impl WithVar for LSystem<Token> {
    fn into_builder_with(self, k: char, v: Value) -> LSystem<Token> {
        let b = LSystemBuilder { initial: self.initial, rules: self.rules, variables: self.variables };
        b.variable(k, v).build()
    }
}

#[test]
fn literal_pattern_parameters_must_match() {
    let sys = system("A(1)A(2)", &["A(1) -> B"]);
    let out = sys.sample(1, &mut Lcg(0)).unwrap();
    assert_eq!(out, word("BA(2)"));
}

#[test]
fn numbers_parse_to_millionths() {
    let a = parse_axiom("F(-2.5, +3, 0.1234567, 12)").unwrap();
    assert_eq!(
        a.inner.modules[0].params,
        vec![num(-2.5), num(3.0), Value::Num(123_456), num(12.0)]
    );
}

#[test]
fn parse_errors() {
    assert_eq!(
        parse_axiom("").unwrap_err(),
        ParseError { position: 0, expected: kinds(&[Expected::Symbol]) }
    );
    assert_eq!(
        parse_axiom("A(1) )").unwrap_err(),
        ParseError { position: 5, expected: kinds(&[Expected::Symbol, Expected::End]) }
    );
    assert_eq!(
        parse_rule("A B").unwrap_err(),
        ParseError { position: 2, expected: kinds(&[Expected::Arrow, Expected::Colon]) }
    );
    assert_eq!(
        parse_rule("A -> ").unwrap_err(),
        ParseError { position: 5, expected: kinds(&[Expected::Symbol]) }
    );
    assert_eq!(
        parse_axiom("F(99999999999999)").unwrap_err(),
        ParseError { position: 1, expected: kinds(&[Expected::Symbol, Expected::OpenParen, Expected::End]) }
    );
    let digits: Vec<char> = " 99999999999999".chars().collect();
    assert_eq!(
        parse_number(&digits, 0),
        Err(ParseError { position: 1, expected: kinds(&[Expected::Number]) })
    );
    let digits: Vec<char> = "-9223372036854.775807".chars().collect();
    assert_eq!(parse_number(&digits, 0), Ok((-i64::MAX, digits.len())));
}

#[test]
fn nested_guard_parses() {
    let r = parse_rule("A(x) : x & : x < 3 : 0.5 -> B").unwrap();
    assert_eq!(r.probability, 500_000);
    let c = r.condition.unwrap();
    assert_eq!(c.cond, hyperion::Conditional::And);
    assert!(matches!(c.b, hyperion::ConditionalValue::Condition(_)));
}

#[test]
fn axiom_from_tokens() {
    let a = hyperion::Axiom::from_tokens(vec![Token::F, Token::Push]);
    assert_eq!(
        a.inner,
        State::new(vec![Module::new(Token::F), Module::new(Token::Push)])
    );
}

#[test]
fn parser_error_kinds() {
    let s = chars_of("  ?");
    let err = |k| ParseError { position: 2, expected: ExpectedSet::one(k) };
    assert_eq!(parse_lit_value(&s, 0).unwrap_err(), err(Expected::Value));
    assert_eq!(parse_operator(&s, 2).unwrap_err(), err(Expected::Operator));
    assert_eq!(parse_conditional(&s, 2).unwrap_err(), err(Expected::Relation));
    let blank_rel = chars_of(" =");
    assert_eq!(parse_conditional(&blank_rel, 0).unwrap_err().position, 0);
    assert_eq!(parse_conditional(&blank_rel, 1), Ok((Conditional::EqualTo, 2)));
    let blank_op = chars_of(" *");
    assert!(parse_operator(&blank_op, 0).is_err());
    assert_eq!(parse_operator(&blank_op, 1), Ok((Operator::Mul, 2)));
    assert_eq!(open_paran(&s, 0).unwrap_err(), err(Expected::OpenParen));
    assert_eq!(parse_condition(&s, 0).unwrap_err(), err(Expected::Colon));
    assert_eq!(parse_probability(&s, 0).unwrap_err(), err(Expected::Colon));
    assert_eq!(parse_suffix(&s, 0).unwrap_err(), err(Expected::Symbol));
    let p = chars_of("(1;");
    assert_eq!(
        parse_parameters(&p, 0),
        Err(ParseError { position: 2, expected: kinds(&[Expected::CloseParen]) })
    );
    let ok = chars_of("(1, x*2 )");
    let (vs, end) = parse_parameters(&ok, 0).unwrap();
    assert_eq!(end, ok.len());
    assert_eq!(
        vs,
        vec![
            num(1.0),
            Value::Expr(Box::new(Value::Var('x')), Operator::Mul, Box::new(num(2.0)))
        ]
    );
}

#[test]
fn right_context_is_symbol_then_angle() {
    let r = parse_rule("A D> -> Z").unwrap();
    assert_eq!(r.next, Some(Token::External('D')));
    let r = parse_rule("A(x) -> B").unwrap();
    assert_eq!(r.next, None);
    assert!(parse_rule("A>D->Z").is_err());
}

#[test]
fn trailing_junk_names_accepted_kinds() {
    let e = LSystemBuilder::new_str("A(0) #").unwrap_err();
    assert_eq!(e.position, 5);
    assert!(e.expected.contains(Expected::Symbol));
    assert!(e.expected.contains(Expected::End));
    assert!(!e.expected.contains(Expected::OpenParen));
    let e = LSystemBuilder::new_str("A #").unwrap_err();
    assert!(e.expected.contains(Expected::OpenParen));
}

#[test]
fn nested_guard_type_errors() {
    let cond = |rel| {
        let inner = |a: f64, b: f64| Condition {
            a: ConditionalValue::Value(num(a)),
            cond: Conditional::EqualTo,
            b: ConditionalValue::Value(num(b)),
        };
        Condition {
            a: ConditionalValue::Condition(Box::new(inner(0.0, 1.0))),
            cond: rel,
            b: ConditionalValue::Condition(Box::new(inner(1.0, 1.0))),
        }
    };
    let none = Variables::new();
    assert_eq!(cond(Conditional::GreaterThan).is_true(&none, &none), Err(EvalError::TypeMismatch));
    assert_eq!(cond(Conditional::LessThan).is_true(&none, &none), Err(EvalError::TypeMismatch));
    assert_eq!(cond(Conditional::And).is_true(&none, &none), Ok(false));
    assert_eq!(cond(Conditional::Or).is_true(&none, &none), Ok(false));
    let holds_or_value = |rel| Condition {
        a: ConditionalValue::Condition(Box::new(Condition {
            a: ConditionalValue::Value(num(1.0)),
            cond: Conditional::EqualTo,
            b: ConditionalValue::Value(num(1.0)),
        })),
        cond: rel,
        b: ConditionalValue::Value(num(2.0)),
    };
    assert_eq!(holds_or_value(Conditional::Or).is_true(&none, &none), Ok(true));
    assert_eq!(
        holds_or_value(Conditional::And).is_true(&none, &none),
        Err(EvalError::TypeMismatch)
    );
    let mixed = Condition {
        a: ConditionalValue::Condition(Box::new(cond(Conditional::Or))),
        cond: Conditional::And,
        b: ConditionalValue::Value(num(1.0)),
    };
    assert_eq!(mixed.is_true(&none, &none), Ok(false));
}

#[test]
fn short_decimal_forms() {
    let a = parse_axiom("F(.5, 5., -.25)").unwrap();
    assert_eq!(a.inner.modules[0].params, vec![num(0.5), num(5.0), num(-0.25)]);
    assert!(parse_axiom("F(.)").is_err());
}

#[test]
fn whole_powers_are_computed() {
    assert_eq!(eval(num(2.0), Operator::Exponent, num(3.0)), Ok(num(8.0)));
    assert_eq!(eval(num(0.5), Operator::Exponent, num(2.0)), Ok(num(0.25)));
    assert_eq!(eval(num(2.0), Operator::Exponent, num(-1.0)), Ok(num(0.5)));
    assert_eq!(eval(num(7.0), Operator::Exponent, num(0.0)), Ok(num(1.0)));
    assert_eq!(eval(num(-1.0), Operator::Exponent, num(3.0)), Ok(num(-1.0)));
    assert_eq!(
        eval(num(-1.0), Operator::Exponent, Value::Num(1_000_000_000_000_000_000)),
        Ok(num(1.0))
    );
    assert_eq!(
        eval(num(0.5), Operator::Exponent, Value::Num(9_000_000_000_000_000_000)),
        Ok(num(0.0))
    );
    assert_eq!(
        eval(num(10.0), Operator::Exponent, num(20.0)),
        Err(EvalError::Overflow)
    );
    assert_eq!(
        eval(num(0.0), Operator::Exponent, num(-1.0)),
        Err(EvalError::DivisionByZero)
    );
}

#[test]
fn whole_power_feeds_later_generations() {
    let sys = system("A(3)", &["A(n) -> A(n^2)"]);
    let out = sys.sample(2, &mut Lcg(0)).unwrap();
    assert_eq!(out, word("A(81)"));
}
