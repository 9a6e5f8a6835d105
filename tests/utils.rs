use molt::{check_args, error, get_integer, get_subcommand, okay, ResultCode, Subcommand};

#[test]
fn test_check_args() {
    assert!(check_args(1, vec!["mycmd"].as_slice(), 1, 1, "").is_ok());
    assert!(check_args(1, vec!["mycmd"].as_slice(), 1, 2, "arg1").is_ok());
    assert!(check_args(1, vec!["mycmd", "data"].as_slice(), 1, 2, "arg1").is_ok());
    assert!(check_args(1, vec!["mycmd", "data", "data2"].as_slice(), 1, 0, "arg1").is_ok());

    assert_eq!(
        error("wrong # args: should be \"mycmd arg1\""),
        check_args(1, vec!["mycmd"].as_slice(), 2, 2, "arg1")
    );
    assert_eq!(
        error("wrong # args: should be \"mycmd arg1\""),
        check_args(1, vec!["mycmd", "val1", "val2"].as_slice(), 2, 2, "arg1")
    );
}

#[test]
fn check_args_exact_and_too_few() {
    assert_eq!(check_args(1, &["cmd"], 1, 1, ""), okay());
    assert_eq!(
        check_args(1, &["cmd"], 2, 2, "arg1"),
        error("wrong # args: should be \"cmd arg1\"")
    );
}

#[test]
fn check_args_zero_max_is_unbounded() {
    assert_eq!(check_args(1, &["cmd", "a", "b"], 1, 0, "arg1"), okay());
}

#[test]
fn check_args_shows_ensemble_path() {
    assert_eq!(
        check_args(2, &["string", "length"], 3, 3, "string"),
        error("wrong # args: should be \"string length string\"")
    );
}

#[test]
fn okay_is_empty_string() {
    assert_eq!(okay(), Ok(String::new()));
}

#[test]
fn error_carries_message() {
    assert_eq!(error("boom"), Err(ResultCode::Error("boom".to_string())));
}

#[test]
fn get_integer_reads_numbers() {
    assert_eq!(get_integer("42"), Ok(42));
    assert_eq!(get_integer("-17"), Ok(-17));
    assert_eq!(get_integer("+5"), Ok(5));
    assert_eq!(get_integer("9223372036854775807"), Ok(i64::MAX));
}

#[test]
fn get_integer_rejects_non_numbers() {
    assert_eq!(
        get_integer("abc"),
        Err(ResultCode::Error("expected integer but got \"abc\"".to_string()))
    );
    assert_eq!(
        get_integer(""),
        Err(ResultCode::Error("expected integer but got \"\"".to_string()))
    );
    assert_eq!(
        get_integer("9223372036854775808"),
        Err(ResultCode::Error("expected integer but got \"9223372036854775808\"".to_string()))
    );
}

#[test]
fn get_subcommand_finds_first_match() {
    let subs = [Subcommand("add", 1), Subcommand("sub", 2), Subcommand("add", 3)];
    let found = get_subcommand(&subs, "add").ok().unwrap();
    assert_eq!(found.1, 1);
    assert_eq!(get_subcommand(&subs, "sub").ok().unwrap().1, 2);
}

#[test]
fn get_subcommand_lists_three_names() {
    let subs = [Subcommand("add", 1), Subcommand("sub", 2), Subcommand("mul", 3)];
    assert_eq!(
        get_subcommand(&subs, "div").err().unwrap(),
        ResultCode::Error("unknown or ambiguous subcommand \"div\": must be add, sub, or mul".to_string())
    );
}

#[test]
fn get_subcommand_lists_one_and_two_names() {
    let one = [Subcommand("only", 0)];
    assert_eq!(
        get_subcommand(&one, "x").err().unwrap(),
        ResultCode::Error("unknown or ambiguous subcommand \"x\": must be only".to_string())
    );
    let two = [Subcommand("a", 0), Subcommand("b", 1)];
    assert_eq!(
        get_subcommand(&two, "x").err().unwrap(),
        ResultCode::Error("unknown or ambiguous subcommand \"x\": must be a, , or b".to_string())
    );
}

#[test]
fn check_args_name_count_beyond_argv_when_arity_fits() {
    assert_eq!(check_args(3, &["cmd"], 1, 1, ""), okay());
}
