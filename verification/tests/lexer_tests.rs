use satsolver::lexer::{LexError, Lexer};

fn line(s: &str) -> Vec<u8> {
    s.as_bytes().to_vec()
}

#[test]
fn parse_line_basic_test() {
    assert_eq!(Lexer::parse_line(&line("1 -2 3 0")), Some(vec![1, -2, 3]));
}

#[test]
fn parse_line_no_terminator_test() {
    assert_eq!(Lexer::parse_line(&line("4 5")), Some(vec![4, 5]));
}

#[test]
fn parse_line_inner_zero_kept_test() {
    // only a trailing terminator is stripped
    assert_eq!(Lexer::parse_line(&line("1 0 2 0")), Some(vec![1, 0, 2]));
}

#[test]
fn parse_line_plus_sign_test() {
    assert_eq!(Lexer::parse_line(&line("+7 -0 0")), Some(vec![7, 0]));
}

#[test]
fn parse_line_empty_test() {
    assert_eq!(Lexer::parse_line(&line("")), None);
}

#[test]
fn parse_line_bad_token_test() {
    assert_eq!(Lexer::parse_line(&line("1 x 2")), None);
    assert_eq!(Lexer::parse_line(&line("1  2")), None);
    assert_eq!(Lexer::parse_line(&line("-")), None);
}

#[test]
fn parse_line_range_test() {
    assert_eq!(
        Lexer::parse_line(&line("-9223372036854775808 0")),
        Some(vec![isize::MIN])
    );
    assert_eq!(
        Lexer::parse_line(&line("9223372036854775807")),
        Some(vec![isize::MAX])
    );
    assert_eq!(Lexer::parse_line(&line("9223372036854775808")), None);
    assert_eq!(Lexer::parse_line(&line("99999999999999999999999999")), None);
}

#[test]
fn parse_input_test() {
    let lines = vec![
        line("c a comment"),
        line("p cnf 3 2"),
        line("1 -2 0"),
        line("2 3 0"),
    ];
    assert_eq!(Lexer::parse(&lines), Ok(vec![vec![1, -2], vec![2, 3]]));
}

#[test]
fn parse_input_no_problem_line_test() {
    let lines = vec![line("c a comment"), line("1 -2 0")];
    assert_eq!(Lexer::parse(&lines), Err(LexError::ProblemLineCount));
}

#[test]
fn parse_input_two_problem_lines_test() {
    let lines = vec![line("p cnf 1 1"), line("p cnf 1 1"), line("1 0")];
    assert_eq!(Lexer::parse(&lines), Err(LexError::ProblemLineCount));
}

#[test]
fn parse_input_bad_token_test() {
    let lines = vec![line("p cnf 1 1"), line("1 q 0")];
    assert_eq!(Lexer::parse(&lines), Err(LexError::InvalidToken));
}

#[test]
fn parse_input_problem_count_checked_first_test() {
    // both demands fail: the problem-line count is reported
    let lines = vec![line("1 q 0")];
    assert_eq!(Lexer::parse(&lines), Err(LexError::ProblemLineCount));
}
