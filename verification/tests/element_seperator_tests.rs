use equation_tools::utils::element_seperator::{
    identify_elements, map_elements, parse_equation, validate_equation, ElementKind, MapError,
};

#[test]
fn test_basic_equation_mapping() {
    let equation = "3 +4*2 /(1-5) ^2 ^3";
    let mapped = map_elements(equation);
    assert_eq!(mapped.left_side.len(), 2);
    assert!(!mapped.is_equation);
    assert!(mapped.right_side.is_none());
}

#[test]
fn test_equation_with_equals() {
    let mapped = map_elements("2*x +3 =10");
    assert!(mapped.is_equation);
    assert!(mapped.right_side.is_some());
    assert_eq!(mapped.left_side.len(), 2);
    assert_eq!(mapped.right_side.unwrap().len(), 1);
}

#[test]
fn test_multiplication_priority() {
    let elements = identify_elements("+2*8 -7/9 +89");
    assert_eq!(elements[0].element_type, "Multiplication");
    assert_eq!(elements[1].element_type, "Fraction");
    assert_eq!(elements[2].element_type, "Constant");
}

#[test]
fn test_bracket_with_sign() {
    let elements = identify_elements("+(4-8)");
    assert_eq!(elements[0].element_type, "Bracket");
    assert_eq!(elements[0].value, "+(4-8)");
}

#[test]
fn parse_equation_spaces_signs() {
    assert_eq!(parse_equation("2*x + 3 = 10"), "2*x +3=10");
    assert_eq!(parse_equation("-5x + 4*67"), "-5x +4*67");
    assert_eq!(parse_equation("+4-8"), "+4 -8");
    assert_eq!(parse_equation(""), "");
}

#[test]
fn map_basic_terms() {
    let mapped = map_elements("3 +4*2 /(1-5) ^2 ^3");
    let values: Vec<&str> = mapped.left_side.iter().map(|e| e.value.as_str()).collect();
    assert_eq!(values, vec!["3", "+4*2/(1-5)^2^3"]);
    assert_eq!(mapped.left_side[1].element_type, "Multiplication");
}

#[test]
fn validate_rejects_bad_start() {
    assert_eq!(validate_equation("*2 +3"), Err(MapError::StartsWithOperator));
    assert_eq!(validate_equation("/2"), Err(MapError::StartsWithOperator));
    assert_eq!(validate_equation("2*x +3 =10"), Ok(()));
}

#[test]
fn validate_rejects_two_equals() {
    assert_eq!(validate_equation("x = 2 = 3"), Err(MapError::MultipleEquals));
}

#[test]
fn validate_rejects_unbalanced() {
    assert_eq!(validate_equation("2) +3"), Err(MapError::UnbalancedBrackets));
    assert_eq!(validate_equation("(2 +3"), Ok(()));
}

#[test]
fn identify_every_kind() {
    let elements = identify_elements("x +3.5 2##3 2^3 [ ] -(x) 4/2 abc");
    let kinds: Vec<&str> = elements.iter().map(|e| e.element_type.as_str()).collect();
    assert_eq!(
        kinds,
        vec!["Variable", "Constant", "Exponent", "Power", "Bracket", "Bracket", "Bracket", "Fraction", "Variable"]
    );
}

#[test]
fn identify_merges_open_groups() {
    let elements = identify_elements("+(4 -8) +2");
    assert_eq!(elements.len(), 2);
    assert_eq!(elements[0].value, "+(4-8)");
    assert_eq!(elements[1].value, "+2");
    let open = identify_elements("(1 +2");
    assert_eq!(open.len(), 1);
    assert_eq!(open[0].value, "(1+2");
    assert_eq!(open[0].element_type, "Variable");
}

#[test]
fn element_kind_names() {
    assert_eq!(ElementKind::Variable.name(), "Variable");
    assert_eq!(ElementKind::Exponent.name(), "Exponent");
    assert_eq!(ElementKind::Multiplication.name(), "Multiplication");
}

#[test]
fn parse_equation_is_idempotent_on_example() {
    let once = parse_equation("-5x + 4*67 + 90 - 90+9/2 = 10");
    assert_eq!(once, "-5x +4*67 +90 -90 +9/2=10");
    assert_eq!(parse_equation(&once), once);
}

#[test]
fn terms_keep_text_and_signs() {
    let mapped = map_elements("-5x + 4*67 + 90 - 90+9/2 = 10");
    let left: Vec<&str> = mapped.left_side.iter().map(|e| e.value.as_str()).collect();
    assert_eq!(left, vec!["-5x", "+4*67", "+90", "-90", "+9/2"]);
    assert_eq!(left.concat(), "-5x+4*67+90-90+9/2");
    for e in &mapped.left_side[1..] {
        assert!(e.value.starts_with('+') || e.value.starts_with('-'));
    }
    let right = mapped.right_side.unwrap();
    assert_eq!(right.len(), 1);
    assert_eq!(right[0].value, "10");
    assert_eq!(right[0].element_type, "Constant");
}

#[test]
fn trims_other_white_space() {
    let mapped = map_elements("\t 2*x +3 \n");
    assert_eq!(mapped.left_side.len(), 2);
    assert_eq!(mapped.left_side[1].value, "+3");
}

#[test]
fn terms_close_their_brackets() {
    let elements = identify_elements("(1 +(2 -3)) +4 -(5");
    let values: Vec<&str> = elements.iter().map(|e| e.value.as_str()).collect();
    assert_eq!(values, vec!["(1+(2-3))", "+4", "-(5"]);
    for v in &values[..values.len() - 1] {
        assert_eq!(v.matches('(').count(), v.matches(')').count());
    }
}
