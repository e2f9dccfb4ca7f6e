use dacelo::eval::{HostReply, HostRequest};
use dacelo::{run_source_captured, run_with_replies, Outcome};

fn out(src: &str) -> String {
    run_source_captured(src).unwrap_or_else(|e| panic!("expected success, got: {}", e))
}

fn fail(src: &str) -> String {
    run_source_captured(src).err().expect("expected an error")
}

#[test]
fn show_renders_values() {
    assert_eq!(out("let main () = print_string (show [1, 2, 3])"), "[1, 2, 3]");
    assert_eq!(out("let main () = print_string (show [])"), "[]");
    assert_eq!(out("let main () = print_string (show (1, \"a\\\"b\", ()))"), "(1, \"a\\\"b\", ())");
    assert_eq!(out("let main () = print_string (show true)"), "true");
    assert_eq!(out("let main () = print_string (show (fun x -> x))"), "<fun>");
}

#[test]
fn integer_division_truncates_toward_zero() {
    assert_eq!(out("let main () = print_int (-7 / 2) ; print_string \",\" ; print_int (-7 % 2)"), "-3,-1");
    assert_eq!(out("let main () = print_int (7 / -2) ; print_string \",\" ; print_int (7 % -2)"), "-3,1");
}

#[test]
fn arithmetic_wraps_around() {
    assert_eq!(out("let main () = print_int (9223372036854775807 + 1)"), "-9223372036854775808");
}

#[test]
fn modulo_by_zero() {
    assert!(fail("let main () = print_int (1 % 0)").contains("modulo by zero"));
}

#[test]
fn string_to_int_trims_and_reports() {
    assert_eq!(out("let main () = print_int (string_to_int \"  -42 \")"), "-42");
    assert_eq!(
        fail("let main () = print_int (string_to_int \"4x\")"),
        "string_to_int: cannot parse \"4x\": invalid digit found in string"
    );
    assert_eq!(
        fail("let main () = print_int (string_to_int \"\")"),
        "string_to_int: cannot parse \"\": cannot parse integer from empty string"
    );
    assert_eq!(
        fail("let main () = print_int (string_to_int \"99999999999999999999\")"),
        "string_to_int: cannot parse \"99999999999999999999\": number too large to fit in target type"
    );
}

#[test]
fn substring_bounds() {
    assert_eq!(
        fail("let main () = print_string (substring \"abc\" 2 5)"),
        "substring: range [2,7) out of bounds for length 3"
    );
    assert_eq!(fail("let main () = print_string (substring \"é\" 1 1)"), "substring: not a char boundary");
    assert_eq!(out("let main () = print_string (substring \"héllo\" 1 2)"), "é");
}

#[test]
fn chr_and_ord() {
    assert_eq!(out("let main () = print_string (chr 233)"), "é");
    assert_eq!(fail("let main () = print_string (chr 55296)"), "chr: 55296 is not a valid character");
    assert_eq!(out("let main () = print_int (ord \"\")"), "-1");
    assert_eq!(out("let main () = print_int (string_get \"ab\" 5)"), "-1");
}

#[test]
fn error_builtin_stops_the_run() {
    assert_eq!(fail("let main () = print_string \"x\" ; error \"boom\""), "error: boom");
}

#[test]
fn comparing_functions_is_an_error() {
    assert!(fail("let f x = x\nlet main () = print_string (if f == f then \"a\" else \"b\")")
        .contains("cannot compare functions"));
}

#[test]
fn pattern_match_failure_message() {
    assert_eq!(fail("let main () = let (h :: t) = [] in print_int h"), "non-exhaustive pattern match on []");
    assert_eq!(
        fail("let f (h :: t) = h\nlet main () = print_int (f [])"),
        "pattern match failed: []"
    );
}

#[test]
fn host_requests_are_replayed() {
    let src = "let main () = print_string \"a\" ; print_string (read_file \"f.txt\") ; print_string \"c\"";
    let first = run_with_replies(src, Vec::new());
    assert_eq!(first.output, b"a".to_vec());
    match &first.outcome {
        Outcome::NeedHost(HostRequest::ReadFile(p)) => assert_eq!(p, b"f.txt"),
        _ => panic!("expected a read request"),
    }
    let second = run_with_replies(src, vec![HostReply::Text(b"b".to_vec())]);
    assert!(matches!(second.outcome, Outcome::Finished));
    assert_eq!(second.output, b"abc".to_vec());
    assert_eq!(second.unused, 0);
    let failed = run_with_replies(src, vec![HostReply::Failed("No such file".to_string())]);
    match failed.outcome {
        Outcome::Failed(m) => assert_eq!(m, "read_file: No such file"),
        _ => panic!("expected a failure"),
    }
}

#[test]
fn exit_stops_with_its_status() {
    let run = run_with_replies("let main () = print_int 1 ; exit 3 ; print_int 2", Vec::new());
    assert!(matches!(run.outcome, Outcome::Exited(3)));
    assert_eq!(run.output, b"1".to_vec());
}

#[test]
fn unused_replies_are_counted() {
    let run = run_with_replies("let main () = print_int 7", vec![HostReply::Done]);
    assert!(matches!(run.outcome, Outcome::Finished));
    assert_eq!(run.unused, 1);
    let asked = run_with_replies("let main () = print_string (argv 1)", Vec::new());
    assert!(matches!(asked.outcome, Outcome::NeedHost(HostRequest::Argv(1))));
}

#[test]
fn types_errors_name_the_item() {
    let e = dacelo::print_types("let x = 1\nlet y = x + true").err().unwrap();
    assert!(e.starts_with("[item 1: let y] "), "{}", e);
    assert!(dacelo::print_types("let rec f x = g x and g x = f x").is_ok());
}

#[test]
fn compile_produces_an_arm64_object() {
    let b = dacelo::compile_source("let main () = print_int (1 + 2)").unwrap();
    assert_eq!(&b[0..4], &[0xCF, 0xFA, 0xED, 0xFE]);
    assert_eq!(&b[4..8], &[0x0C, 0x00, 0x00, 0x01]);
}

#[test]
fn compile_reports_type_errors() {
    let e = dacelo::compile_source("let main () = print_int true").err().unwrap();
    assert!(e.starts_with("type error: "), "{}", e);
}

#[test]
fn string_to_int_reads_back_int_to_string() {
    for n in [0i64, 7, -7, 10, -10, 1234567890, i64::MAX, i64::MIN] {
        let src = format!(
            "let main () = print_int (string_to_int (int_to_string ({})))",
            if n == i64::MIN { "-9223372036854775807 - 1".to_string() } else { n.to_string() }
        );
        assert_eq!(out(&src), n.to_string());
    }
}

#[test]
fn show_renders_constructors_and_escapes() {
    let prog = "type T =\n  | A\n  | B Int String\nlet main () = print_string (show (B 3 \"x\\ty\")) ; print_string (show A)";
    assert_eq!(out(prog), "(B 3 \"x\\ty\")A");
    assert_eq!(out("let main () = print_string (show [[1], []])"), "[[1], []]");
    assert_eq!(out("let main () = print_string (show (-5, false))"), "(-5, false)");
    assert_eq!(out("let main () = print_string (show \"\\n\\\\\")"), "\"\\n\\\\\"");
}

#[test]
fn rejected_programs_print_nothing() {
    let r = run_with_replies("let main () = print_int 1 ; print_int true", vec![HostReply::Done]);
    assert!(!r.checked);
    assert!(r.output.is_empty());
    assert_eq!(r.unused, 1);
    assert!(matches!(r.outcome, Outcome::Failed(_)));
    let ok = run_with_replies("let main () = print_int 1", Vec::new());
    assert!(ok.checked);
    assert_eq!(ok.output, b"1".to_vec());
}
