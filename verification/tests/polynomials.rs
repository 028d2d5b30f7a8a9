use mathrs::mstructs::CoefficientMap;
use mathrs::mstructs::Expression;
use mathrs::polynomials::closed_forms::parse_polynomial;
use mathrs::polynomials::closed_forms::degree_two_coefficients;
use mathrs::polynomials::closed_forms::ParseError;

fn expr(var: &str, formula: &str) -> Expression {
    Expression { vars: vec![var.to_string()], formula: formula.to_string() }
}

fn parsed(var: &str, formula: &str) -> CoefficientMap {
    parse_polynomial(expr(var, formula)).expect("formula should parse")
}

fn coeff(map: &CoefficientMap, exp: u32) -> f64 {
    map.get(exp).expect("exponent should be present").parse::<f64>().unwrap()
}

#[test]
fn parse_polynomial_test() {
    // check simplest case, all addition, explicit coefficients
    let coefficient_map1 = parsed("x", "3x^2+4x+1");

    assert_eq!(coeff(&coefficient_map1, 0), 1.0_f64);
    assert_eq!(coeff(&coefficient_map1, 1), 4.0_f64);
    assert_eq!(coeff(&coefficient_map1, 2), 3.0_f64);

    // no degree 1 term, no coefficient for degree 2 term
    let coefficient_map2 = parsed("x", "x^2+4");

    assert_eq!(coeff(&coefficient_map2, 0), 4.0_f64);
    assert_eq!(coeff(&coefficient_map2, 2), 1.0_f64);

    // check explicit negative coefficients
    let coefficient_map3 = parsed("x", "-3x^2+-4x+-1");

    assert_eq!(coeff(&coefficient_map3, 0), -1.0_f64);
    assert_eq!(coeff(&coefficient_map3, 1), -4.0_f64);
    assert_eq!(coeff(&coefficient_map3, 2), -3.0_f64);
}

// The quadratic formula itself works on f64 and lives outside the verified
// library, so the two roots are computed here from the coefficient texts the
// library hands out.
fn roots_of(var: &str, formula: &str) -> (f64, f64) {
    let (c0, c1, c2) = degree_two_coefficients(expr(var, formula)).expect("should parse");
    let c0: f64 = c0.parse().unwrap();
    let c1: f64 = c1.parse().unwrap();
    let c2: f64 = c2.parse().unwrap();
    let d = c1.powi(2) - 4.0 * c0 * c2;
    let r1 = (-1.0 * c1 + d.sqrt()) / (2.0 * c2);
    let r2 = (-1.0 * c1 - d.sqrt()) / (2.0 * c2);
    (r1, r2)
}

#[test]
fn two_deg_test() {
    let sols_2_m2 = roots_of("x", "x^2+-4");

    assert_eq!(sols_2_m2.0, 2.0_f64);
    assert_eq!(sols_2_m2.1, -2.0_f64);
}

#[test]
fn round_trip_rebuilt_formula() {
    // A formula rebuilt from the map {2: "2.5", 1: "-3", 0: "0.5"} parses
    // back to that map.
    let map = parsed("x", "2.5x^2+-3x+0.5");

    assert_eq!(map.get(2).unwrap().as_str(), "2.5");
    assert_eq!(map.get(1).unwrap().as_str(), "-3");
    assert_eq!(map.get(0).unwrap().as_str(), "0.5");
}

#[test]
fn no_degree_one_entry() {
    let map = parsed("x", "x^2+4");

    assert!(map.get(1).is_none());
    assert!(map.get(3).is_none());
}

#[test]
fn implicit_one_coefficient() {
    // An empty prefix before x^2 stands for a coefficient of one; the bare x
    // term is only one character long and so is read as a constant instead.
    let map = parsed("x", "x^2+x");

    assert_eq!(map.get(2).unwrap().as_str(), "1");
    assert_eq!(coeff(&map, 2), 1.0_f64);
    assert!(map.get(1).is_none());
    assert_eq!(map.get(0).unwrap().as_str(), "x");
}

#[test]
fn unsupported_exponent_error() {
    let r = parse_polynomial(expr("x", "3x^q+1"));

    assert_eq!(r.err().unwrap(), ParseError::UnsupportedExponent);
}

#[test]
fn malformed_caret_term_error() {
    let r = parse_polynomial(expr("x", "1+^2"));

    assert_eq!(r.err().unwrap(), ParseError::MalformedTerm);
}

#[test]
fn empty_formula_has_no_terms() {
    let map = parsed("x", "");

    assert!(map.get(0).is_none());
    assert!(map.get(1).is_none());
    assert!(map.get(2).is_none());
}

#[test]
fn later_term_overwrites_earlier() {
    let map = parsed("x", "1x^2+2x^2");

    assert_eq!(map.get(2).unwrap().as_str(), "2");
    assert!(map.get(0).is_none());
}

#[test]
fn multi_digit_exponent_is_not_misparsed() {
    // A term such as 3x^23 has no single-digit exponent: it falls through to
    // the constant case whole, and its text is rejected as a number rather
    // than silently read as some other exponent.
    let map = parsed("x", "3x^23");

    assert_eq!(map.get(0).unwrap().as_str(), "3x^23");
    assert!(map.get(0).unwrap().parse::<f64>().is_err());
    assert!(map.get(2).is_none());
    assert!(map.get(3).is_none());
}

#[test]
fn bare_variable_term_is_a_constant() {
    // A term of length one is always read as a constant, even when it is the
    // variable itself; its text is then no number.
    let map = parsed("x", "x");

    assert_eq!(map.get(0).unwrap().as_str(), "x");
    assert!(map.get(0).unwrap().parse::<f64>().is_err());
}

#[test]
fn variable_symbol_is_last_char_of_name() {
    let map = parsed("ab", "2ab+1");

    assert_eq!(map.get(1).unwrap().as_str(), "2a");
    assert_eq!(map.get(0).unwrap().as_str(), "1");
}

#[test]
fn degree_two_coefficients_default_to_zero() {
    let (c0, c1, c2) = degree_two_coefficients(expr("x", "x^2+4")).unwrap();

    assert_eq!(c0, "4");
    assert_eq!(c1, "0");
    assert_eq!(c2, "1");
}

#[test]
fn degree_two_coefficients_report_parse_errors() {
    let r = degree_two_coefficients(expr("x", "x^2+3x^w"));

    assert_eq!(r.err().unwrap(), ParseError::UnsupportedExponent);
}

#[test]
fn roots_satisfy_the_polynomial() {
    let (r1, r2) = roots_of("x", "2x^2+3x+-5");

    assert!((2.0 * r1 * r1 + 3.0 * r1 + -5.0).abs() < 1e-9);
    assert!((2.0 * r2 * r2 + 3.0 * r2 + -5.0).abs() < 1e-9);
    assert_eq!(r1, 1.0_f64);
    assert_eq!(r2, -2.5_f64);
}

#[test]
fn repeated_root_when_discriminant_is_zero() {
    // x^2 + 2x + 1 has discriminant zero: both roots coincide.
    let (r1, r2) = roots_of("x", "x^2+2x+1");

    assert_eq!(r1, r2);
    assert_eq!(r1, -1.0_f64);
}

#[test]
fn degenerate_leading_coefficient_follows_ieee_division() {
    // With no degree-two term both divisions are by zero: with c1 positive
    // the first numerator is exactly zero, so the first root is NaN, and the
    // second numerator is -2*c1, so the second root is negative infinity.
    let (r1, r2) = roots_of("x", "2x+4");

    assert!(r1.is_nan());
    assert!(r2.is_infinite() && r2.is_sign_negative());
}

#[test]
fn negative_discriminant_gives_nan_roots() {
    // x^2 + 4 has discriminant -16: no real roots, both come back NaN.
    let (r1, r2) = roots_of("x", "x^2+4");

    assert!(r1.is_nan());
    assert!(r2.is_nan());
}
