use molt::interp::Interp;
use molt::lexer::{parse_command, Word, WordKind};
use molt::pieces::{parse_pieces, Piece};
use molt::scope::ScopeStack;
use molt::words::substitute_brace;
use molt::ResultCode;

fn chars(s: &str) -> Vec<char> {
    s.chars().collect()
}

fn err(msg: &str) -> Result<String, ResultCode> {
    Err(ResultCode::Error(msg.to_string()))
}

#[test]
fn brace_word_is_taken_verbatim() {
    assert_eq!(substitute_brace("{a $b [c] {d}}"), Ok("a $b [c] {d}".to_string()));
    assert_eq!(substitute_brace("{}"), Ok(String::new()));
}

#[test]
fn brace_word_errors() {
    assert_eq!(substitute_brace("{abc"), err("unmatched open brace"));
    assert_eq!(substitute_brace("{a}b"), err("extra characters after close-brace"));
}

#[test]
fn lexer_groups_words() {
    let w = chars("set x {a b} \"c d\" e[f g]h; next");
    let (words, next) = parse_command(&w, 0).ok().unwrap();
    let got: Vec<(WordKind, String)> = words.iter().map(|x| (x.kind, x.text.clone())).collect();
    assert_eq!(
        got,
        vec![
            (WordKind::Bare, "set".to_string()),
            (WordKind::Bare, "x".to_string()),
            (WordKind::Brace, "a b".to_string()),
            (WordKind::Quoted, "c d".to_string()),
            (WordKind::Bare, "e[f g]h".to_string()),
        ]
    );
    assert_eq!(next, 26);
}

#[test]
fn lexer_reports_unclosed_groups() {
    assert_eq!(parse_command(&chars("a {b"), 0).err().unwrap(), "unmatched open brace");
    assert_eq!(parse_command(&chars("a \"b"), 0).err().unwrap(), "unmatched open quote");
}

#[test]
fn pieces_in_order() {
    let p = parse_pieces(&chars("a\\n$x${y z}[set q]")).ok().unwrap();
    let got: Vec<String> = p
        .iter()
        .map(|x| match x {
            Piece::Text(s) => format!("T:{}", s),
            Piece::Var(s) => format!("V:{}", s),
            Piece::Script(s) => format!("S:{}", s),
        })
        .collect();
    assert_eq!(got, vec!["T:a", "T:\n", "V:x", "V:y z", "S:set q"]);
}

#[test]
fn unknown_escape_drops_backslash() {
    let p = parse_pieces(&chars("\\q")).ok().unwrap();
    assert!(matches!(&p[0], Piece::Text(s) if s == "q"));
}

#[test]
fn scope_frames() {
    let mut s = ScopeStack::new();
    s.set("a", "1");
    assert_eq!(s.get("a"), Ok("1".to_string()));
    s.push_frame();
    assert_eq!(s.depth(), 2);
    assert_eq!(s.get("a"), err("can't read \"a\": no such variable"));
    assert_eq!(s.get_global("a"), Ok("1".to_string()));
    s.set_global("b", "2");
    s.pop_frame();
    assert_eq!(s.depth(), 1);
    assert_eq!(s.get("b"), Ok("2".to_string()));
}

#[test]
fn finish_call_turns_return_into_value() {
    let mut s = ScopeStack::new();
    s.push_frame();
    assert_eq!(s.finish_call(Err(ResultCode::Return("7".to_string()))), Ok("7".to_string()));
    assert_eq!(s.depth(), 1);
    s.push_frame();
    assert_eq!(s.finish_call(err("bad")), err("bad"));
    assert_eq!(s.depth(), 1);
}

#[test]
fn nested_command_substitution_left_to_right() {
    let mut i = Interp::new();
    assert_eq!(i.eval("set w [set x 1][set y 2]"), Ok("12".to_string()));
    assert_eq!(i.get_var("x"), Ok("1".to_string()));
    assert_eq!(i.get_var("y"), Ok("2".to_string()));
}

#[test]
fn substituted_values_are_not_rescanned() {
    let mut i = Interp::new();
    assert_eq!(i.eval("set a {$b}; set c $a[set a]"), Ok("$b$b".to_string()));
}

#[test]
fn missing_variable_is_an_error() {
    let mut i = Interp::new();
    assert_eq!(i.eval("set r $missing"), err("can't read \"missing\": no such variable"));
    assert_eq!(i.eval("set missing"), err("can't read \"missing\": no such variable"));
}

#[test]
fn unknown_command_is_an_error() {
    let mut i = Interp::new();
    assert_eq!(i.eval("frob 1"), err("invalid command name \"frob\""));
}

#[test]
fn error_stops_the_script() {
    let mut i = Interp::new();
    assert_eq!(i.eval("set a 1; nope; set a 2"), err("invalid command name \"nope\""));
    assert_eq!(i.get_var("a"), Ok("1".to_string()));
}

#[test]
fn procedure_frames_are_removed() {
    let mut i = Interp::new();
    assert_eq!(i.eval("proc f {x} {set y $x; return $y}"), Ok(String::new()));
    assert_eq!(i.eval("f 5"), Ok("5".to_string()));
    assert_eq!(i.depth(), 1);
    assert_eq!(i.eval("proc g {} {set z $undefined}"), Ok(String::new()));
    assert_eq!(i.eval("g"), err("can't read \"undefined\": no such variable"));
    assert_eq!(i.depth(), 1);
    assert_eq!(i.eval("proc h {} {set v 3}"), Ok(String::new()));
    assert_eq!(i.eval("h"), Ok("3".to_string()));
    assert_eq!(i.depth(), 1);
    assert_eq!(i.get_var("y"), err("can't read \"y\": no such variable"));
}

#[test]
fn procedure_arity_is_checked() {
    let mut i = Interp::new();
    assert_eq!(i.eval("proc f {a b} {return $a}"), Ok(String::new()));
    assert_eq!(i.eval("f 1"), err("wrong # args: should be \"f a b\""));
}

#[test]
fn control_signals_reach_the_top() {
    let mut i = Interp::new();
    assert_eq!(i.eval("break"), Err(ResultCode::Break));
    assert_eq!(i.eval("continue"), Err(ResultCode::Continue));
    assert_eq!(i.eval("return x"), Err(ResultCode::Return("x".to_string())));
}

#[test]
fn runaway_recursion_is_reported() {
    let mut i = Interp::new();
    assert_eq!(i.eval("proc r {} {r}"), Ok(String::new()));
    assert_eq!(i.eval("r"), err("too many nested evaluations (infinite loop?)"));
    assert_eq!(i.depth(), 1);
}

fn texts(s: &str) -> Vec<String> {
    parse_pieces(&chars(s))
        .ok()
        .unwrap()
        .iter()
        .map(|x| match x {
            Piece::Text(s) => s.clone(),
            Piece::Var(s) => format!("${}", s),
            Piece::Script(s) => format!("[{}]", s),
        })
        .collect()
}

#[test]
fn numeric_escapes() {
    assert_eq!(texts("\\x41\\101\\x4g"), vec!["A", "A", "\u{4}", "g"]);
    assert_eq!(texts("\\0\\477"), vec!["\0", "\u{27}", "7"]);
    assert_eq!(texts("\\\\\\$\\["), vec!["\\", "$", "["]);
}

#[test]
fn piece_errors() {
    assert_eq!(
        parse_pieces(&chars("${abc")).err().unwrap(),
        "missing close-brace for variable name"
    );
    assert_eq!(parse_pieces(&chars("a[b")).err().unwrap(), "missing close-bracket");
}

#[test]
fn substitute_words_of_each_kind() {
    let mut i = Interp::new();
    assert_eq!(i.eval("set a 5"), Ok("5".to_string()));
    let bare = Word { kind: WordKind::Bare, text: "x$a-${a}\\t".to_string() };
    assert_eq!(i.substitute(&bare), Ok("x5-5\t".to_string()));
    let brace = Word { kind: WordKind::Brace, text: "$a [b]".to_string() };
    assert_eq!(i.substitute(&brace), Ok("$a [b]".to_string()));
    let missing = Word { kind: WordKind::Quoted, text: "v=$nope".to_string() };
    assert_eq!(i.substitute(&missing), err("can't read \"nope\": no such variable"));
    let nested = Word { kind: WordKind::Quoted, text: "<[set a]>".to_string() };
    assert_eq!(i.substitute(&nested), Ok("<5>".to_string()));
}

#[test]
fn dispatch_runs_commands() {
    let mut i = Interp::new();
    assert_eq!(i.dispatch(&vec!["set".to_string(), "k".to_string(), "v".to_string()]), Ok("v".to_string()));
    assert_eq!(i.get_var("k"), Ok("v".to_string()));
    assert_eq!(
        i.dispatch(&vec!["nosuch".to_string()]),
        err("invalid command name \"nosuch\"")
    );
    assert_eq!(
        i.dispatch(&vec!["set".to_string()]),
        err("wrong # args: should be \"set varName ?newValue?\"")
    );
}

#[test]
fn nested_script_error_aborts_the_word() {
    let mut i = Interp::new();
    assert_eq!(i.eval("set a x[nosuch]y"), err("invalid command name \"nosuch\""));
    assert_eq!(i.get_var("a"), err("can't read \"a\": no such variable"));
}

#[test]
fn grouped_words_must_end_at_whitespace() {
    assert_eq!(
        parse_command(&chars("set a {b}c"), 0).err().unwrap(),
        "extra characters after close-brace"
    );
    assert_eq!(
        parse_command(&chars("set a \"b\"c"), 0).err().unwrap(),
        "extra characters after close-quote"
    );
    let mut i = Interp::new();
    assert_eq!(i.eval("set a {b}c"), err("extra characters after close-brace"));
}

#[test]
fn brace_words_join_continued_lines() {
    assert_eq!(substitute_brace("{a\\\nb}"), Ok("a b".to_string()));
    let mut i = Interp::new();
    assert_eq!(i.eval("set a {x\\\ny}"), Ok("x y".to_string()));
}

#[test]
fn commands_can_be_removed() {
    let mut i = Interp::new();
    assert_eq!(i.eval("proc f {} {return 1}"), Ok(String::new()));
    assert_eq!(i.eval("f"), Ok("1".to_string()));
    i.remove_command("f");
    assert_eq!(i.eval("f"), err("invalid command name \"f\""));
    assert_eq!(i.eval("set a 2"), Ok("2".to_string()));
}

#[test]
fn blank_script_gives_empty_value() {
    let mut i = Interp::new();
    assert_eq!(i.eval("   "), Ok(String::new()));
    assert_eq!(i.eval(""), Ok(String::new()));
    assert_eq!(i.eval("set a 1; set b 2"), Ok("2".to_string()));
}

#[test]
fn nested_result_is_not_rescanned() {
    let mut i = Interp::new();
    assert_eq!(i.eval("set x 3; set v {$x}; set w [set v]"), Ok("$x".to_string()));
}
