use zen_interp::interp::{load_lines, Interp, ZenError};

fn program(src: &[&str]) -> Vec<Vec<u8>> {
    load_lines(src.iter().map(|s| s.as_bytes().to_vec()).collect())
}

fn run(src: &[&str], args: Vec<i64>, fuel: usize) -> (Interp, Vec<u8>, Vec<ZenError>) {
    let mut interp = Interp::new(program(src), args);
    let (out, errs) = interp.run_with_fuel(fuel);
    (interp, out, errs)
}

#[test]
fn forward_goto_resumes_after_label() {
    let (interp, out, errs) = run(
        &["goto end", "print \"skipped\"", "end:", "print \"done\""],
        vec![],
        10,
    );
    assert_eq!(out, b"done".to_vec());
    assert!(errs.is_empty());
    assert!(interp.finished());
}

#[test]
fn backward_goto_also_resolves() {
    // One bounded pass through a backward jump: the second visit of the
    // condition line sees the in-place substituted (now stale) text.
    let (_i, out, errs) = run(
        &["& x = 5", "lbl:", "print (&x)", "& x = 6", "if (&x > 5) goto lbl"],
        vec![],
        12,
    );
    assert_eq!(out, b"5555".to_vec());
    assert!(errs.is_empty());
}

#[test]
fn straightline_runs_in_source_order() {
    let (interp, out, errs) = run(&["print \"a\"", "print \"b\"", "print \"c\""], vec![], 10);
    assert_eq!(out, b"abc".to_vec());
    assert!(errs.is_empty());
    assert!(interp.finished());
    assert_eq!(interp.pc(), 3);
}

#[test]
fn assignment_literal_round_trip() {
    let (_i, out, errs) = run(&["& x = 5", "print (&x)"], vec![], 10);
    assert_eq!(out, b"5".to_vec());
    assert!(errs.is_empty());
}

#[test]
fn assignment_expression_round_trip() {
    let (_i, out, errs) = run(&["& x = (2+3)", "print (&x)"], vec![], 10);
    assert_eq!(out, b"5".to_vec());
    assert!(errs.is_empty());
}

#[test]
fn undefined_reference_skips_one_line() {
    let (interp, out, errs) = run(
        &["& y = 1", "print (&nope)", "print \"after\""],
        vec![],
        10,
    );
    assert_eq!(out, b"after".to_vec());
    assert_eq!(errs.len(), 1);
    assert!(matches!(&errs[0], ZenError::UndefinedVariable(n) if n.as_slice() == b"nope"));
    assert_eq!(interp.get_var(b"y"), Some(1));
    assert_eq!(interp.get_var(b"nope"), None);
}

#[test]
fn print_splits_on_backslash_n() {
    let (_i, out, errs) = run(&["print \"a\\nb\""], vec![], 10);
    assert_eq!(out, b"a\nb".to_vec());
    assert!(errs.is_empty());
}

#[test]
fn print_single_segment_no_trailing_newline() {
    let (_i, out, errs) = run(&["print \"a\""], vec![], 10);
    assert_eq!(out, b"a".to_vec());
    assert!(errs.is_empty());
}

#[test]
fn seeded_counter_loops_without_halting() {
    // The condition line is substituted in place on its first execution,
    // so the loop keeps jumping: only the step cap ends the run.
    let (interp, out, errs) = run(
        &["& n = 2", "a:", "print \"go\"", "if (&n > 0) goto a"],
        vec![],
        30,
    );
    assert_eq!(out, b"go".repeat(14));
    assert!(errs.is_empty());
    assert!(!interp.finished());
}

#[test]
fn argument_reference_reads_trailing_argument() {
    let (_i, out, errs) = run(&["& a = !1", "print (&a)"], vec![7], 10);
    assert_eq!(out, b"7".to_vec());
    assert!(errs.is_empty());
}

#[test]
fn argument_reference_out_of_range_leaves_variable_unset() {
    let (interp, out, errs) = run(&["& a = !1"], vec![], 10);
    assert!(out.is_empty());
    assert_eq!(errs.len(), 1);
    assert!(matches!(errs[0], ZenError::ArgumentIndexOutOfRange));
    assert_eq!(interp.get_var(b"a"), None);
}

#[test]
fn second_argument_and_zero_index() {
    let (_i, out, errs) = run(&["& b = !2", "print (&b)"], vec![5, 9], 10);
    assert_eq!(out, b"9".to_vec());
    assert!(errs.is_empty());
    let (_i2, _out2, errs2) = run(&["& z = !0"], vec![5], 10);
    assert_eq!(errs2.len(), 1);
    assert!(matches!(errs2[0], ZenError::ArgumentIndexOutOfRange));
}

#[test]
fn duplicate_label_last_declaration_wins() {
    let (_i, out, _errs) = run(
        &[
            "goto a",
            "a:",
            "print \"first\"",
            "goto end",
            "a:",
            "print \"second\"",
            "end:",
        ],
        vec![],
        10,
    );
    assert_eq!(out, b"second".to_vec());
}

#[test]
fn multiple_references_on_one_line() {
    let (_i, out, errs) = run(
        &["& a = 1", "& b = 2", "& c = (&a*10+&b)", "print (&c)"],
        vec![],
        10,
    );
    assert_eq!(out, b"12".to_vec());
    assert!(errs.is_empty());
}

#[test]
fn boolean_prints_as_evaluator_renders() {
    let (_i, out, _e) = run(&["print (1<2)"], vec![], 10);
    assert_eq!(out, b"true".to_vec());
    let (_i2, out2, _e2) = run(&["print (2<1)"], vec![], 10);
    assert_eq!(out2, b"false".to_vec());
}

#[test]
fn false_condition_falls_through_without_lookup() {
    let (_i, out, errs) = run(&["if (1 > 2) goto missing", "print \"done\""], vec![], 10);
    assert_eq!(out, b"done".to_vec());
    assert!(errs.is_empty());
}

#[test]
fn true_condition_without_goto_is_noop() {
    let (_i, out, errs) = run(&["if (1 < 2)", "print \"ok\""], vec![], 10);
    assert_eq!(out, b"ok".to_vec());
    assert!(errs.is_empty());
}

#[test]
fn goto_target_with_leading_colon() {
    let (_i, out, errs) = run(&["goto :e", "print \"no\"", "e:", "print \"yes\""], vec![], 10);
    assert_eq!(out, b"yes".to_vec());
    assert!(errs.is_empty());
}

#[test]
fn comment_and_label_lines_are_noops() {
    let (_i, out, errs) = run(&["// a comment", "lbl:", "print \"c\""], vec![], 10);
    assert_eq!(out, b"c".to_vec());
    assert!(errs.is_empty());
}

#[test]
fn blank_lines_are_dropped_before_execution() {
    let (interp, out, _e) = run(&["", "   ", "print \"x\"", "\t"], vec![], 10);
    assert_eq!(out, b"x".to_vec());
    assert_eq!(interp.line_count(), 1);
}

#[test]
fn quoted_print_ignores_extra_tokens() {
    let (_i, out, errs) = run(&["print \"a\" extra tokens"], vec![], 10);
    assert_eq!(out, b"a".to_vec());
    assert!(errs.is_empty());
}

#[test]
fn expression_print_ignores_extra_tokens() {
    let (_i, out, errs) = run(&["print (1+1) extra"], vec![], 10);
    assert_eq!(out, b"2".to_vec());
    assert!(errs.is_empty());
}

#[test]
fn spaced_condition_region_is_rejoined() {
    let (_i, out, errs) = run(
        &["& n = 3", "if ( &n > 2 ) goto yes", "print \"no\"", "yes:", "print \"big\""],
        vec![],
        10,
    );
    assert_eq!(out, b"big".to_vec());
    assert!(errs.is_empty());
}

#[test]
fn step_reports_jump() {
    let mut interp = Interp::new(program(&["goto e", "e:"]), vec![]);
    let r = interp.step();
    assert!(r.jumped);
    assert!(r.err.is_none());
    assert_eq!(interp.pc(), 2);
    assert!(interp.finished());
}

#[test]
fn extreme_literal_assignment() {
    let (_i, out, errs) = run(
        &["& x = 9223372036854775807", "print (&x)"],
        vec![],
        10,
    );
    assert_eq!(out, b"9223372036854775807".to_vec());
    assert!(errs.is_empty());
    let (_i2, out2, errs2) = run(&["& y = -5", "print (&y)"], vec![], 10);
    assert_eq!(out2, b"-5".to_vec());
    assert!(errs2.is_empty());
}
