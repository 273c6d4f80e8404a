use fractran::parse::{parse_int, split_str, trim_str, ParseError};
use fractran::program::{run, Phase, Program, Step};
use fractran::rational::{gcd_u64, Rational};

fn frac(n: i64, d: i64) -> Rational {
    Rational::new(n, d).unwrap()
}

fn pair(f: &Rational) -> (i64, i64) {
    (f.numerator(), f.denominator())
}

fn take(prog: Program, n: usize) -> Vec<i64> {
    let mut r = run(prog);
    let mut out = Vec::new();
    while out.len() < n {
        match r.next() {
            Some(v) => out.push(v),
            None => break,
        }
    }
    out
}

#[test]
fn gcd_of_magnitudes() {
    assert_eq!(gcd_u64(12, 18), 6);
    assert_eq!(gcd_u64(0, 7), 7);
    assert_eq!(gcd_u64(7, 0), 7);
    assert_eq!(gcd_u64(17, 5), 1);
    assert_eq!(gcd_u64(1 << 63, 1 << 62), 1 << 62);
}

#[test]
fn new_refuses_zero_denominator() {
    assert!(Rational::new(1, 0).is_none());
    assert_eq!(pair(&frac(3, 4)), (3, 4));
}

#[test]
fn reduce_to_lowest_terms() {
    assert_eq!(pair(&frac(12, 8).reduce()), (3, 2));
    assert_eq!(pair(&frac(6, -4).reduce()), (3, -2));
    assert_eq!(pair(&frac(-6, 4).reduce()), (-3, 2));
    assert_eq!(pair(&frac(0, 5).reduce()), (0, 1));
    assert_eq!(pair(&frac(7, 7).reduce()), (1, 1));
    assert_eq!(pair(&frac(i64::MIN, -2).reduce()), (i64::MIN / 2, -1));
    assert_eq!(pair(&frac(i64::MIN, i64::MIN).reduce()), (-1, -1));
}

#[test]
fn reduced_keeps_value_and_is_coprime() {
    for &(a, b) in &[(84i64, 36i64), (-35, 49), (100, -75), (1, 9), (0, -3)] {
        let r = frac(a, b).reduce();
        let (n, d) = pair(&r);
        assert_eq!((n as i128) * (b as i128), (a as i128) * (d as i128));
        assert_eq!(gcd_u64(n.unsigned_abs(), d.unsigned_abs()), 1);
    }
}

#[test]
fn multiply_is_not_reduced() {
    let f = frac(3, 2).multiply_by_integer(4).unwrap();
    assert_eq!(pair(&f), (12, 2));
    assert!(frac(i64::MAX, 1).multiply_by_integer(2).is_none());
}

#[test]
fn as_integer_only_for_denominator_one() {
    assert_eq!(frac(8, 4).as_integer(), Some(2));
    assert_eq!(frac(-6, 3).as_integer(), Some(-2));
    assert_eq!(frac(3, 2).as_integer(), None);
    assert_eq!(frac(6, -3).as_integer(), None);
    assert_eq!(frac(0, 9).as_integer(), Some(0));
}

#[test]
fn doubling_never_halts() {
    let prog = Program::new(vec![frac(2, 1)], 3);
    assert_eq!(take(prog, 5), vec![3, 6, 12, 24, 48]);
}

#[test]
fn half_of_odd_halts_at_once() {
    let prog = Program::new(vec![frac(1, 2)], 1);
    let mut r = run(prog);
    assert_eq!(r.next(), Some(1));
    assert_eq!(r.next(), None);
    assert_eq!(r.phase(), Phase::Halted);
    assert_eq!(r.next(), None);
    assert_eq!(r.into_program().state(), 1);
}

#[test]
fn parse_and_trace() {
    let prog: Program = "2/3, 3/2, 6".parse().unwrap();
    let fracs: Vec<(i64, i64)> = prog.instructions().iter().map(pair).collect();
    assert_eq!(fracs, vec![(2, 3), (3, 2)]);
    assert_eq!(prog.state(), 6);
    assert_eq!(take(prog, 6), vec![6, 4, 6, 4, 6, 4]);
}

#[test]
fn first_applicable_instruction_wins() {
    let mut prog = Program::new(vec![frac(5, 7), frac(3, 2), frac(1, 2)], 4);
    assert_eq!(prog.step(), Step::Next(6));
    assert_eq!(prog.state(), 6);
    assert_eq!(prog.next(), Some(9));
    assert_eq!(prog.next(), None);
    assert_eq!(prog.state(), 9);
}

#[test]
fn halt_is_idempotent() {
    let mut prog = Program::new(vec![frac(1, 2), frac(2, 5)], 3);
    for _ in 0..4 {
        assert_eq!(prog.step(), Step::Halt);
        assert_eq!(prog.state(), 3);
    }
    assert_eq!(prog.next(), None);
    assert_eq!(prog.state(), 3);
}

#[test]
fn empty_program_halts() {
    let prog = Program::new(Vec::new(), 5);
    assert_eq!(take(prog, 3), vec![5]);
}

#[test]
fn overflow_ends_the_run() {
    let mut prog = Program::new(vec![frac(3, 1)], i64::MAX / 2);
    assert_eq!(prog.step(), Step::Overflow);
    assert_eq!(prog.state(), i64::MAX / 2);
    let mut r = run(prog);
    assert_eq!(r.next(), Some(i64::MAX / 2));
    assert_eq!(r.next(), None);
    assert_eq!(r.phase(), Phase::Overflowed);
    assert_eq!(r.next(), None);
}

#[test]
fn malformed_fraction_is_reported() {
    assert_eq!(
        "abc, 5".parse::<Program>().unwrap_err(),
        ParseError::MalformedFraction("abc".to_string())
    );
    assert_eq!(
        Program::parse("1/2/3, 5").unwrap_err(),
        ParseError::MalformedFraction("1/2/3".to_string())
    );
    assert_eq!(
        Program::parse("1/x, 5").unwrap_err(),
        ParseError::MalformedFraction("1/x".to_string())
    );
    assert_eq!(
        Program::parse("1 / 2, 5").unwrap_err(),
        ParseError::MalformedFraction("1 / 2".to_string())
    );
}

#[test]
fn malformed_program_is_reported() {
    assert_eq!(
        "5".parse::<Program>().unwrap_err(),
        ParseError::MalformedProgram("5".to_string())
    );
    assert_eq!(
        Program::parse("").unwrap_err(),
        ParseError::MalformedProgram("".to_string())
    );
    assert_eq!(
        Program::parse("1/2, x").unwrap_err(),
        ParseError::MalformedProgram("x".to_string())
    );
    assert_eq!(
        Program::parse("1/2, 3/4").unwrap_err(),
        ParseError::MalformedProgram("3/4".to_string())
    );
}

#[test]
fn zero_denominator_is_reported() {
    assert_eq!(
        Program::parse("1/0, 5").unwrap_err(),
        ParseError::ZeroDenominator("1/0".to_string())
    );
    assert_eq!(
        "4/0".parse::<Rational>().unwrap_err(),
        ParseError::ZeroDenominator("4/0".to_string())
    );
}

#[test]
fn first_bad_fraction_is_reported() {
    assert_eq!(
        Program::parse("a, 1/0, b").unwrap_err(),
        ParseError::MalformedFraction("a".to_string())
    );
}

#[test]
fn parse_trims_items() {
    let prog = Program::parse("  17/91 ,78/85,\t-2/1 ,\n 2 \n").unwrap();
    let fracs: Vec<(i64, i64)> = prog.instructions().iter().map(pair).collect();
    assert_eq!(fracs, vec![(17, 91), (78, 85), (-2, 1)]);
    assert_eq!(prog.state(), 2);
    let f: Rational = " +3/-4 ".parse().unwrap();
    assert_eq!(pair(&f), (3, -4));
}

#[test]
fn parse_int_forms() {
    assert_eq!(parse_int("42"), Some(42));
    assert_eq!(parse_int("+7"), Some(7));
    assert_eq!(parse_int("-0"), Some(0));
    assert_eq!(parse_int("007"), Some(7));
    assert_eq!(parse_int("-9223372036854775808"), Some(i64::MIN));
    assert_eq!(parse_int("9223372036854775807"), Some(i64::MAX));
    assert_eq!(parse_int("9223372036854775808"), None);
    assert_eq!(parse_int("-9223372036854775809"), None);
    assert_eq!(parse_int("123456789012345678901234567890"), None);
    assert_eq!(parse_int(""), None);
    assert_eq!(parse_int("-"), None);
    assert_eq!(parse_int("+"), None);
    assert_eq!(parse_int(" 5"), None);
    assert_eq!(parse_int("5x"), None);
    assert_eq!(parse_int("--5"), None);
}

#[test]
fn trim_and_split() {
    assert_eq!(trim_str(" \t a b \n"), "a b");
    assert_eq!(trim_str("\u{3000}x\u{a0}"), "x");
    assert_eq!(trim_str("   "), "");
    assert_eq!(split_str("a,,b", ','), vec!["a", "", "b"]);
    assert_eq!(split_str("", ','), vec![""]);
    assert_eq!(split_str(",", ','), vec!["", ""]);
}
