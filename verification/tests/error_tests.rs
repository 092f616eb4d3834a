use zen_interp::interp::{load_lines, Interp, ZenError};

fn run_errs(src: &[&str], fuel: usize) -> (Vec<u8>, Vec<ZenError>) {
    let lines = load_lines(src.iter().map(|s| s.as_bytes().to_vec()).collect());
    let mut interp = Interp::new(lines, vec![]);
    interp.run_with_fuel(fuel)
}

#[test]
fn malformed_assignment_too_few_tokens() {
    let (out, errs) = run_errs(&["& x 5", "print \"k\""], 10);
    assert_eq!(out, b"k".to_vec());
    assert_eq!(errs.len(), 1);
    assert!(matches!(errs[0], ZenError::MalformedAssignment));
}

#[test]
fn malformed_assignment_bad_literal() {
    let (_out, errs) = run_errs(&["& x = foo"], 10);
    assert_eq!(errs.len(), 1);
    assert!(matches!(errs[0], ZenError::MalformedAssignment));
}

#[test]
fn malformed_assignment_overflowing_literal() {
    let (_out, errs) = run_errs(&["& x = 9223372036854775808"], 10);
    assert_eq!(errs.len(), 1);
    assert!(matches!(errs[0], ZenError::MalformedAssignment));
}

#[test]
fn malformed_assignment_bad_argument_index() {
    let (_out, errs) = run_errs(&["& x = !abc"], 10);
    assert_eq!(errs.len(), 1);
    assert!(matches!(errs[0], ZenError::MalformedAssignment));
}

#[test]
fn malformed_print_argument() {
    let (out, errs) = run_errs(&["print foo"], 10);
    assert!(out.is_empty());
    assert_eq!(errs.len(), 1);
    assert!(matches!(errs[0], ZenError::MalformedPrintArgument));
}

#[test]
fn print_without_argument_is_malformed() {
    let (_out, errs) = run_errs(&["print"], 10);
    assert_eq!(errs.len(), 1);
    assert!(matches!(errs[0], ZenError::MalformedPrintArgument));
}

#[test]
fn malformed_condition_unparenthesized() {
    let (_out, errs) = run_errs(&["if x goto a"], 10);
    assert_eq!(errs.len(), 1);
    assert!(matches!(errs[0], ZenError::MalformedCondition));
}

#[test]
fn non_boolean_condition_is_malformed() {
    let (_out, errs) = run_errs(&["if (1+1) goto a", "a:"], 10);
    assert_eq!(errs.len(), 1);
    assert!(matches!(errs[0], ZenError::MalformedCondition));
}

#[test]
fn unknown_command_falls_through() {
    let (out, errs) = run_errs(&["frobnicate 3", "print \"on\""], 10);
    assert_eq!(out, b"on".to_vec());
    assert_eq!(errs.len(), 1);
    assert!(matches!(errs[0], ZenError::UnknownCommand));
}

#[test]
fn comment_without_space_is_unknown_command() {
    let (_out, errs) = run_errs(&["//attached"], 10);
    assert_eq!(errs.len(), 1);
    assert!(matches!(errs[0], ZenError::UnknownCommand));
}

#[test]
fn unresolved_label_falls_through() {
    let (out, errs) = run_errs(&["goto nowhere", "print \"next\""], 10);
    assert_eq!(out, b"next".to_vec());
    assert_eq!(errs.len(), 1);
    assert!(matches!(&errs[0], ZenError::UnresolvedLabel(n) if n.as_slice() == b"nowhere"));
}

#[test]
fn failing_expression_in_print() {
    let (out, errs) = run_errs(&["print (1+)", "print \"after\""], 10);
    assert_eq!(out, b"after".to_vec());
    assert_eq!(errs.len(), 1);
    assert!(matches!(errs[0], ZenError::ExpressionEvaluationFailure));
}

#[test]
fn failing_expression_in_assignment_leaves_variable_unset() {
    let lines = load_lines(vec![b"& x = (1+)".to_vec()]);
    let mut interp = Interp::new(lines, vec![]);
    let (_out, errs) = interp.run_with_fuel(10);
    assert_eq!(errs.len(), 1);
    assert!(matches!(errs[0], ZenError::ExpressionEvaluationFailure));
    assert_eq!(interp.get_var(b"x"), None);
}

#[test]
fn non_integer_expression_value_in_assignment() {
    let (_out, errs) = run_errs(&["& x = (1<2)"], 10);
    assert_eq!(errs.len(), 1);
    assert!(matches!(errs[0], ZenError::ExpressionEvaluationFailure));
}

#[test]
fn string_valued_expression_in_print_is_an_error() {
    let (out, errs) = run_errs(&["print (\"abc\")"], 10);
    assert!(out.is_empty());
    assert_eq!(errs.len(), 1);
    assert!(matches!(errs[0], ZenError::ExpressionEvaluationFailure));
}

#[test]
fn failing_condition_expression() {
    let (_out, errs) = run_errs(&["if (&&) goto a", "a:"], 10);
    assert_eq!(errs.len(), 1);
    assert!(matches!(&errs[0], ZenError::UndefinedVariable(n) if n.is_empty()));
    let (_out2, errs2) = run_errs(&["if (1 <) goto a", "a:"], 10);
    assert_eq!(errs2.len(), 1);
    assert!(matches!(errs2[0], ZenError::ExpressionEvaluationFailure));
}

#[test]
fn non_ascii_expression_is_a_soft_error() {
    let (out, errs) = run_errs(&["print (\u{e9})", "print \"after\""], 10);
    assert_eq!(out, b"after".to_vec());
    assert_eq!(errs.len(), 1);
    assert!(matches!(errs[0], ZenError::ExpressionEvaluationFailure));
}

#[test]
fn non_ascii_substring_expression_does_not_abort() {
    // A byte-indexed slice inside a multi-byte character would abort the
    // evaluator; the engine rejects non-ASCII expression text softly and
    // the run continues.
    let (out, errs) = run_errs(&["print (str::substring(\"\u{e9}\",0,1))", "print \"ok\""], 10);
    assert_eq!(out, b"ok".to_vec());
    assert_eq!(errs.len(), 1);
    assert!(matches!(errs[0], ZenError::ExpressionEvaluationFailure));
}

#[test]
fn unchecked_shift_builtins_fail_softly() {
    // The evaluator's shl/shr apply raw shifts to 64-bit ints, which
    // abort on an out-of-range shift amount; the engine rejects text
    // naming them without calling, and the run continues.
    let (out, errs) = run_errs(&["print (shl(1,64))", "print \"ok\""], 10);
    assert_eq!(out, b"ok".to_vec());
    assert_eq!(errs.len(), 1);
    assert!(matches!(errs[0], ZenError::ExpressionEvaluationFailure));
    let (_out2, errs2) = run_errs(&["print (shr(1,0-1))"], 10);
    assert_eq!(errs2.len(), 1);
    assert!(matches!(errs2[0], ZenError::ExpressionEvaluationFailure));
}

#[test]
fn unchecked_abs_builtin_fails_softly() {
    // math::abs on the most negative 64-bit int would abort; the engine
    // rejects text naming it without calling.
    let (out, errs) = run_errs(
        &["print (math::abs(0-9223372036854775807-1))", "print \"ok\""],
        10,
    );
    assert_eq!(out, b"ok".to_vec());
    assert_eq!(errs.len(), 1);
    assert!(matches!(errs[0], ZenError::ExpressionEvaluationFailure));
}

#[test]
fn checked_bitwise_builtins_still_reach_the_evaluator() {
    let (out, errs) = run_errs(&["print (bitand(6,3))"], 10);
    assert_eq!(out, b"2".to_vec());
    assert!(errs.is_empty());
}

#[test]
fn ascii_string_builtin_still_reaches_the_evaluator() {
    let lines = load_lines(vec!["& n = (len(\"abc\"))".as_bytes().to_vec()]);
    let mut interp = Interp::new(lines, vec![]);
    let (_out, errs) = interp.run_with_fuel(10);
    assert!(errs.is_empty());
    assert_eq!(interp.get_var(b"n"), Some(3));
}

#[test]
fn non_ascii_assignment_and_condition_fail_softly() {
    let lines = load_lines(vec!["& x = (\u{e9})".as_bytes().to_vec()]);
    let mut interp = Interp::new(lines, vec![]);
    let (_out, errs) = interp.run_with_fuel(10);
    assert_eq!(errs.len(), 1);
    assert!(matches!(errs[0], ZenError::ExpressionEvaluationFailure));
    assert_eq!(interp.get_var(b"x"), None);
    let (_out2, errs2) = run_errs(&["if (\u{e9}) goto a", "a:"], 10);
    assert_eq!(errs2.len(), 1);
    assert!(matches!(errs2[0], ZenError::ExpressionEvaluationFailure));
}

#[test]
fn goto_without_target() {
    let (_out, errs) = run_errs(&["goto"], 10);
    assert_eq!(errs.len(), 1);
    assert!(matches!(&errs[0], ZenError::UnresolvedLabel(n) if n.is_empty()));
}
