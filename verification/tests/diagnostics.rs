//! Parse-error reporting: every unmatched bracket is collected in one pass
//! and rendered with its exact 1-based position and a caret under the
//! offending column of its source line.

use bf_interpreter::compiler::Program;

#[test]
fn lone_open_bracket_reports_unclosed_open_at_line_one_column_one() {
    let err = Program::from_str("[", false).err().expect("a lone open bracket cannot compile");
    let msg = err.get_error_msg("[");
    assert_eq!(
        msg,
        "1 error\u{0} occured during parsing:\nOpening bracket at 1:1 wasn't closed: \n 1 [\n   ^\n",
    );
}

#[test]
fn lone_close_bracket_reports_unexpected_close_at_line_one_column_one() {
    let err = Program::from_str("]", false).err().expect("a lone close bracket cannot compile");
    let msg = err.get_error_msg("]");
    assert_eq!(
        msg,
        "1 error\u{0} occured during parsing:\nUnexpected closing bracket found at 1:1: \n 1 ]\n   ^\n",
    );
}

#[test]
fn every_unmatched_bracket_is_collected_in_one_pass() {
    let src = "]]";
    let err = Program::from_str(src, false).err().expect("unmatched closes cannot compile");
    let msg = err.get_error_msg(src);
    assert!(msg.starts_with("2 errors occured during parsing:\n"));
    assert!(msg.contains("Unexpected closing bracket found at 1:1: "));
    assert!(msg.contains("Unexpected closing bracket found at 1:2: "));
}

#[test]
fn errors_are_rendered_most_recent_first() {
    let src = "][";
    let err = Program::from_str(src, false).err().expect("both brackets are unmatched");
    let msg = err.get_error_msg(src);
    let open_at = msg.find("Opening bracket at 1:2").expect("open reported");
    let close_at = msg.find("Unexpected closing bracket found at 1:1").expect("close reported");
    assert!(open_at < close_at);
}

#[test]
fn positions_count_lines_and_columns_from_one() {
    let src = "+-\n..[";
    let err = Program::from_str(src, false).err().expect("the open bracket is unclosed");
    let msg = err.get_error_msg(src);
    assert_eq!(
        msg,
        "1 error\u{0} occured during parsing:\nOpening bracket at 2:3 wasn't closed: \n 2 ..[\n     ^\n",
    );
}

#[test]
fn caret_column_accounts_for_the_printed_line_number() {
    // ten lines down, the line-number prefix is two characters wide
    let src = "\n\n\n\n\n\n\n\n\n[";
    let err = Program::from_str(src, false).err().expect("the open bracket is unclosed");
    let msg = err.get_error_msg(src);
    assert_eq!(
        msg,
        "1 error\u{0} occured during parsing:\nOpening bracket at 10:1 wasn't closed: \n 10 [\n    ^\n",
    );
}

#[test]
fn carriage_returns_are_stripped_from_quoted_lines() {
    let src = "[\r\n+";
    let err = Program::from_str(src, false).err().expect("the open bracket is unclosed");
    let msg = err.get_error_msg(src);
    assert!(msg.contains(" 1 [\n"));
}

#[test]
fn matched_brackets_do_not_error() {
    assert!(Program::from_str("[]", false).is_ok());
    assert!(Program::from_str("[+[-]]", false).is_ok());
}
