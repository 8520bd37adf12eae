use testgen::decimal::{parse_i32_str, u64_to_string};
use testgen::gen::array_to_string;
use testgen::task::{default_input_file_name, default_output_file_name};
use testgen::text::{are_outputs_equal, tokenize};

#[test]
fn outputs_equal_ignores_whitespace() {
    assert!(are_outputs_equal("3\n", "3"));
    assert!(are_outputs_equal("  3  ", "3"));
    assert!(are_outputs_equal("3\n", "  3  "));
    assert!(are_outputs_equal("1 2\n3", "1\n2 3\n"));
    assert!(are_outputs_equal("", "  \n\t "));
}

#[test]
fn outputs_equal_keeps_token_order() {
    assert!(!are_outputs_equal("3 4", "4 3"));
    assert!(!are_outputs_equal("3", "3 3"));
    assert!(!are_outputs_equal("ab", "a b"));
    assert!(!are_outputs_equal("1", ""));
}

#[test]
fn tokenize_splits_on_whitespace() {
    assert_eq!(tokenize(" a  bb\t\nccc \n"), vec!["a", "bb", "ccc"]);
    assert_eq!(tokenize(""), Vec::<String>::new());
}

#[test]
fn parse_exact_values() {
    assert_eq!(parse_i32_str("0"), Some(0));
    assert_eq!(parse_i32_str("-42"), Some(-42));
    assert_eq!(parse_i32_str("2147483647"), Some(i32::MAX));
    assert_eq!(parse_i32_str("-2147483648"), Some(i32::MIN));
    assert_eq!(parse_i32_str("2147483648"), None);
    assert_eq!(parse_i32_str("99999999999999999999"), None);
    assert_eq!(parse_i32_str(""), None);
    assert_eq!(parse_i32_str("-"), None);
    assert_eq!(parse_i32_str("1.0"), None);
    assert_eq!(parse_i32_str("12a"), None);
}

#[test]
fn decimal_rendering() {
    assert_eq!(u64_to_string(0), "0");
    assert_eq!(u64_to_string(10), "10");
    assert_eq!(u64_to_string(90210), "90210");
    assert_eq!(u64_to_string(u64::MAX), "18446744073709551615");
}

#[test]
fn default_file_names() {
    assert_eq!(default_input_file_name(0, 0), "test.01.001.in");
    assert_eq!(default_output_file_name(0, 0), "test.01.001.out");
    assert_eq!(default_input_file_name(12, 2), "test.03.013.in");
    assert_eq!(default_input_file_name(999, 99), "test.100.1000.in");
}

#[test]
fn array_rendering() {
    assert_eq!(array_to_string(&vec![1, 2, 3], true), "3\n1 2 3 \n");
    assert_eq!(array_to_string(&vec![1, 2, 3], false), "1 2 3 \n");
    assert_eq!(array_to_string(&vec![], true), "0\n\n");
    assert_eq!(array_to_string(&vec![-5], false), "-5 \n");
}

#[test]
fn error_messages() {
    let err = testgen::Error::SolutionTimedOut { test_path: String::from("test.01.001.in") };
    assert_eq!(err.message(), "Solution timed out on test test.01.001.in");
    let err = testgen::Error::PartialSolutionFailsSubtask { subtask_number: 2, partial_number: 1 };
    assert_eq!(err.message(), "Partial solution 1 does not pass subtask 2.");
    let err = testgen::Error::PartialSolutionPassesExtraSubtask {
        subtask_number: 3,
        partial_number: 4,
    };
    assert_eq!(err.message(), "Partial solution 4 passes extra subtask 3");
    let err = testgen::Error::MissingSolution;
    assert_eq!(err.message(), "Missing solution");
    let err = testgen::Error::ExpectedIntegers { n: -5 };
    assert_eq!(err.message(), "Expected -5 integers");
    let err = testgen::Error::CompilerError {
        stderr: String::from("boom"),
        stdout: String::from("log"),
    };
    assert_eq!(err.message(), "Compiler error: boom\nlog");
}
