use flatten_adapter::rpn::Rpn;

#[test]
fn trivial_case() {
    let input = "0";
    let mut rpn = Rpn::new(input.to_string());
    assert_eq!(rpn.eval(), 0);
}

#[test]
fn simple_addition() {
    let input = "1 2 +";
    let mut rpn = Rpn::new(input.to_string());
    assert_eq!(rpn.eval(), 3);
}

#[test]
fn complex_evaluation() {
    let input = "3 4 + 2 * 7 /";
    let mut rpn = Rpn::new(input.to_string());
    assert_eq!(rpn.eval(), 2);
}

#[test]
fn multiple_digits() {
    let input = "12 34 +";
    let mut rpn = Rpn::new(input.to_string());
    assert_eq!(rpn.eval(), 46);
}

#[test]
fn subtraction_can_go_negative() {
    let mut rpn = Rpn::new("1 2 -".to_string());
    assert_eq!(rpn.eval(), -1);
}

#[test]
fn multiplication() {
    let mut rpn = Rpn::new("3 4 *".to_string());
    assert_eq!(rpn.eval(), 12);
}

#[test]
fn division_truncates_towards_zero() {
    let mut rpn = Rpn::new("0 7 - 2 /".to_string());
    assert_eq!(rpn.eval(), -3);
}

#[test]
fn surrounding_whitespace_is_ignored() {
    let mut rpn = Rpn::new("  25   17  + ".to_string());
    assert_eq!(rpn.eval(), 42);
}

#[test]
fn largest_number_fits() {
    let mut rpn = Rpn::new("32767 0 +".to_string());
    assert_eq!(rpn.eval(), 32767);
}
