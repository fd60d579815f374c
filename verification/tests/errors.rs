use regex_nfa::grammar::CompileError;
use regex_nfa::regex_to_nfa;

fn error_of(pattern: &str) -> CompileError {
    regex_to_nfa(pattern).unwrap_err()
}

#[test]
fn error_cases() {
    assert_eq!(error_of(""), CompileError::EmptyExpression);
    assert_eq!(error_of("(a"), CompileError::UnclosedGroup);
    assert_eq!(error_of("a)"), CompileError::TrailingInput);
    assert_eq!(error_of("*a"), CompileError::UnexpectedToken);
}

#[test]
fn empty_expression_cases() {
    assert_eq!(error_of("()"), CompileError::EmptyExpression);
    assert_eq!(error_of("a|"), CompileError::EmptyExpression);
    assert_eq!(error_of("|a"), CompileError::EmptyExpression);
    assert_eq!(error_of("|"), CompileError::EmptyExpression);
    assert_eq!(error_of("("), CompileError::EmptyExpression);
    assert_eq!(error_of("(a|)"), CompileError::EmptyExpression);
    assert_eq!(error_of("a||b"), CompileError::EmptyExpression);
    assert_eq!(error_of(")"), CompileError::EmptyExpression);
}

#[test]
fn unexpected_token_cases() {
    assert_eq!(error_of("*"), CompileError::UnexpectedToken);
    assert_eq!(error_of("a**"), CompileError::UnexpectedToken);
    assert_eq!(error_of("(*a)"), CompileError::UnexpectedToken);
    assert_eq!(error_of("a|*"), CompileError::UnexpectedToken);
}

#[test]
fn unclosed_group_cases() {
    assert_eq!(error_of("(a|b"), CompileError::UnclosedGroup);
    assert_eq!(error_of("((a)"), CompileError::UnclosedGroup);
    assert_eq!(error_of("a(b*"), CompileError::UnclosedGroup);
}

#[test]
fn trailing_input_cases() {
    assert_eq!(error_of("a)b"), CompileError::TrailingInput);
    assert_eq!(error_of("(a))"), CompileError::TrailingInput);
    assert_eq!(error_of("a|b)"), CompileError::TrailingInput);
}

#[test]
fn the_first_error_is_reported() {
    assert_eq!(error_of("(*"), CompileError::UnexpectedToken);
    assert_eq!(error_of("()*)"), CompileError::EmptyExpression);
    assert_eq!(error_of("a)*"), CompileError::TrailingInput);
    assert_eq!(error_of("(a**"), CompileError::UnexpectedToken);
}

#[test]
fn error_messages() {
    assert_eq!(CompileError::EmptyExpression.message(), "Expected expression");
    assert_eq!(CompileError::UnexpectedToken.message(), "Unexpected token");
    assert_eq!(CompileError::UnclosedGroup.message(), "Expected ')'");
    assert_eq!(CompileError::TrailingInput.message(), "Unexpected trailing characters");
}
