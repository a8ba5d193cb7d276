use interpreter::session::{display_prompt, is_terminator, read_expression};

#[test]
fn test_display_prompt() {
    let mut output: Vec<u8> = Vec::new();
    display_prompt(">> ", &mut output);
    assert_eq!(output, b">> ");
}

#[test]
fn test_read_expression() {
    // simple expression
    let mut input = "123".as_bytes();
    let mut output: Vec<u8> = Vec::new();
    let expression = read_expression(&mut output, &mut input);
    assert_eq!(expression, "123");

    // with whitespace to split
    let mut input = "123 456".as_bytes();
    let mut output: Vec<u8> = Vec::new();
    let expression = read_expression(&mut output, &mut input);
    assert_eq!(expression, "123 456");
}

#[test]
fn test_is_terminator() {
    assert!(is_terminator("quit"));
    assert!(!is_terminator("exit"));
}

use interpreter::environment::Environment;
use interpreter::object::FloatTerm;
use interpreter::session::{expression_from_line, process_file, respond, take_line, Reply};

fn float_value(term: &FloatTerm) -> f64 {
    match term {
        FloatTerm::Literal(text) => text.parse::<f64>().unwrap(),
        FloatTerm::Integer(value) => *value as f64,
        FloatTerm::Sum(lhs, rhs) => float_value(lhs) + float_value(rhs),
    }
}

fn float_text(term: &FloatTerm) -> String {
    float_value(term).to_string()
}

#[test]
fn reading_takes_one_line_and_trims_it() {
    let mut input = "  x = 1 \r\nquit\n".as_bytes();
    let mut output: Vec<u8> = Vec::new();
    assert_eq!(read_expression(&mut output, &mut input), "x = 1");
    assert_eq!(read_expression(&mut output, &mut input), "quit");
    assert_eq!(read_expression(&mut output, &mut input), "");
    assert_eq!(output, b">> >> >> ");
}

#[test]
fn lines_are_decoded_as_utf8() {
    assert_eq!(expression_from_line("\u{3000} h\u{e9}llo\t\n".as_bytes()), "h\u{e9}llo");
    let mut input: &[u8] = b"ab\ncd";
    assert_eq!(take_line(&mut input), b"ab\n");
    assert_eq!(input, b"cd");
    assert_eq!(take_line(&mut input), b"cd");
    assert_eq!(input, b"");
}

#[test]
fn a_batch_writes_values_and_errors() {
    let lines: Vec<String> = vec!["1 + 2", "x = 5", "x", "x + 4", "5.5 + 2.2", "\"hello\" + \" world\"", "y"]
        .into_iter()
        .map(String::from)
        .collect();
    let mut output: Vec<u8> = Vec::new();
    let mut env = Environment::new();
    process_file(&lines, &mut output, &mut env, &float_text);
    assert_eq!(
        String::from_utf8(output).unwrap(),
        "3\n5\n9\n7.7\nhello world\nError: Undefined variable: y\n"
    );
}

#[test]
fn a_step_answers_quit_values_and_errors() {
    let mut env = Environment::new();
    assert!(matches!(respond("quit", &mut env, &float_text), Reply::Quit));
    assert!(matches!(respond("a = 3", &mut env, &float_text), Reply::Nothing));
    match respond("a + a", &mut env, &float_text) {
        Reply::Value(v) => assert_eq!(v, "6"),
        _ => panic!("expected a value"),
    }
    match respond("b", &mut env, &float_text) {
        Reply::Error(e) => assert_eq!(e, "Undefined variable: b"),
        _ => panic!("expected an error"),
    }
}

use interpreter::session::split_lines;

#[test]
fn a_text_splits_into_lines() {
    assert_eq!(split_lines("foo\r\nbar\n\nbaz\r"), vec!["foo", "bar", "", "baz\r"]);
    assert_eq!(split_lines("a\n"), vec!["a"]);
    assert_eq!(split_lines("\n"), vec![""]);
    assert_eq!(split_lines("a\r\r\nb"), vec!["a\r", "b"]);
    assert!(split_lines("").is_empty());
}

#[test]
fn two_batches_in_a_row_are_one_batch() {
    let first: Vec<String> = vec!["x = 2", "x + 1", "z"].into_iter().map(String::from).collect();
    let second: Vec<String> = vec!["x + x", "x = \"s\"", "x + x"].into_iter().map(String::from).collect();

    let mut one_output: Vec<u8> = Vec::new();
    let mut one_env = Environment::new();
    process_file(&[first.clone(), second.clone()].concat(), &mut one_output, &mut one_env, &float_text);

    let mut two_output: Vec<u8> = Vec::new();
    let mut two_env = Environment::new();
    process_file(&first, &mut two_output, &mut two_env, &float_text);
    process_file(&second, &mut two_output, &mut two_env, &float_text);
    process_file(&[], &mut two_output, &mut two_env, &float_text);

    assert_eq!(one_output, two_output);
    assert_eq!(
        String::from_utf8(one_output).unwrap(),
        "3\nError: Undefined variable: z\n4\nss\n"
    );
    let mut a: Vec<u8> = Vec::new();
    let mut b: Vec<u8> = Vec::new();
    process_file(&[String::from("x")], &mut a, &mut one_env, &float_text);
    process_file(&[String::from("x")], &mut b, &mut two_env, &float_text);
    assert_eq!(a, b"s\n");
    assert_eq!(a, b);
}
