use molt::get_list;
use molt::list::{encode_element_text, list_to_string};
use molt::ResultCode;

fn strings(v: &[&str]) -> Vec<String> {
    v.iter().map(|s| s.to_string()).collect()
}

#[test]
fn list_reads_bare_braced_and_quoted_elements() {
    assert_eq!(
        get_list("a {b c} \"d e\"  f\\ g\n{}").unwrap(),
        strings(&["a", "b c", "d e", "f g", ""])
    );
    assert_eq!(get_list("   ").unwrap(), Vec::<String>::new());
}

#[test]
fn list_errors() {
    assert_eq!(
        get_list("a {b"),
        Err(ResultCode::Error("unmatched open brace in list".to_string()))
    );
    assert_eq!(
        get_list("a \"b"),
        Err(ResultCode::Error("unmatched open quote in list".to_string()))
    );
}

#[test]
fn element_forms() {
    assert_eq!(encode_element_text("abc"), "abc");
    assert_eq!(encode_element_text(""), "{}");
    assert_eq!(encode_element_text("a b"), "{a b}");
    assert_eq!(encode_element_text("x{y}"), "{x{y}}");
    assert_eq!(encode_element_text("a}"), "a\\}");
    assert_eq!(encode_element_text("{ \\"), "\\{\\ \\\\");
}

#[test]
fn list_string_is_canonical() {
    assert_eq!(list_to_string(&strings(&["a", "b c", ""])), "a {b c} {}");
    assert_eq!(list_to_string(&Vec::new()), "");
}

#[test]
fn list_round_trip_on_awkward_elements() {
    let e = strings(&["", "plain", "two words", "{", "}", "a\\b", "\"q\"", "x\ny", "{ok}", "}{"]);
    assert_eq!(get_list(&list_to_string(&e)).unwrap(), e);
}

#[test]
fn reencoding_keeps_the_elements() {
    let s = "a   {b  c} \"d\"";
    let once = get_list(s).unwrap();
    let again = get_list(&list_to_string(&once)).unwrap();
    assert_eq!(once, again);
}
