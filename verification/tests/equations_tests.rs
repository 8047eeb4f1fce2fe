use equation_tools::equations::bodmas::space_out_expression;
use equation_tools::equations::linear_eq::extract_variable_coefficient;
use equation_tools::equations::pemdas::{space_out_operators, split_sign};

#[test]
fn space_out_expression_binary_signs() {
    assert_eq!(space_out_expression("4-8"), "4 -8");
    assert_eq!(space_out_expression("2*3+5"), "2*3 +5");
    assert_eq!(space_out_expression("-4+(1-2)-3"), "-4 +(1 -2) -3");
    assert_eq!(space_out_expression("x-1"), "x-1");
    assert_eq!(space_out_expression(""), "");
}

#[test]
fn space_out_operators_binary_signs() {
    assert_eq!(space_out_operators("2+3*4"), "2 +3*4");
    assert_eq!(space_out_operators("[2]-1"), "[2] -1");
    assert_eq!(space_out_operators("2*-3"), "2*-3");
}

#[test]
fn space_out_is_idempotent_on_examples() {
    let once = space_out_operators("1+2-(3+4)");
    assert_eq!(space_out_operators(&once), once);
}

#[test]
fn extract_variable_single_letter() {
    assert_eq!(extract_variable_coefficient("2x +3 =10"), Ok("x".to_string()));
    assert_eq!(extract_variable_coefficient("x +x =4x"), Ok("x".to_string()));
}

#[test]
fn extract_variable_none() {
    assert_eq!(extract_variable_coefficient("2 +3 =5"), Ok(String::new()));
}

#[test]
fn extract_variable_two_letters() {
    assert_eq!(extract_variable_coefficient("x +y =3"), Err(('x', 'y')));
}

#[test]
fn split_sign_cases() {
    assert_eq!(split_sign("-7/9"), (-1, "7/9".to_string()));
    assert_eq!(split_sign("+(4-8)"), (1, "(4-8)".to_string()));
    assert_eq!(split_sign("89"), (1, "89".to_string()));
    assert_eq!(split_sign("--2"), (-1, "-2".to_string()));
    assert_eq!(split_sign(""), (1, String::new()));
}

#[test]
fn spacing_is_invisible_to_parse_equation() {
    use_parse_equation_check("2+3*4-(1-2)");
    use_parse_equation_check("-4-8");
}

fn use_parse_equation_check(s: &str) {
    assert_eq!(
        equation_tools::utils::element_seperator::parse_equation(&space_out_operators(s)),
        equation_tools::utils::element_seperator::parse_equation(s)
    );
}
