use partial_json_parser_rs::utils::{
    add_title, complement_after, is_prefix_with_min_length, push_decimal, starts_with, RunState,
};

#[test]
fn run_state() {
    let fresh: RunState<String> = RunState::Fresh;
    assert!(fresh.is_none() && !fresh.is_not_none() && !fresh.is_error() && !fresh.is_success());
    let failed = RunState::Error("x".to_string());
    assert!(!failed.is_none() && failed.is_not_none() && failed.is_error() && !failed.is_success());
    let done: RunState<String> = RunState::Success;
    assert!(!done.is_none() && done.is_not_none() && !done.is_error() && done.is_success());
}

#[test]
fn titles() {
    assert_eq!(
        add_title("State"),
        "################################ State ################################\n"
    );
    assert_eq!(
        add_title(""),
        "################################  ################################\n"
    );
}

#[test]
fn complement() {
    assert_eq!(complement_after("Infinity", "Inf"), Some("inity"));
    assert_eq!(complement_after("abcabc", "bc"), Some("abc"));
    assert_eq!(complement_after("abc", "abc"), Some(""));
    assert_eq!(complement_after("abc", ""), Some("abc"));
    assert_eq!(complement_after("abc", "x"), None);
    assert_eq!(complement_after("ab", "abc"), None);
    assert_eq!(complement_after("aéb", "é"), Some("b"));
}

#[test]
fn prefix_with_min_length() {
    assert!(is_prefix_with_min_length("true", "tr", 1));
    assert!(is_prefix_with_min_length("-Infinity", "-I", 2));
    assert!(!is_prefix_with_min_length("-Infinity", "-", 2));
    assert!(!is_prefix_with_min_length("true", "true", 1));
    assert!(!is_prefix_with_min_length("true", "", 1));
    assert!(is_prefix_with_min_length("true", "", 0));
    assert!(!is_prefix_with_min_length("true", "tx", 1));
    assert!(starts_with("true", "tr") && !starts_with("tr", "true") && starts_with("x", ""));
}

#[test]
fn decimals() {
    for n in [0usize, 7, 10, 99, 100, 12345, usize::MAX] {
        let mut s = String::from("n=");
        push_decimal(&mut s, n);
        assert_eq!(s, format!("n={}", n));
    }
}
