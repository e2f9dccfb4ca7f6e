use dacelo::run_source_captured;

#[test]
fn str_concat_joins_two_strings() {
    let src = r#"let main () = print_string (str_concat "ab" "cd")"#;
    assert_eq!(run_source_captured(src), Ok("abcd".to_string()));
}

#[test]
fn show_quotes_strings_as_debug_formatting_does() {
    let text = "e\u{301}\u{7}é";
    let src = format!("let main () = print_string (show \"{}\")", text);
    assert_eq!(run_source_captured(&src), Ok(format!("{:?}", text)));
}

#[test]
fn duplicate_names_in_a_group_stop_the_run() {
    let src = "let rec f x = x and f y = y\nlet main () = print_int 1";
    assert!(run_source_captured(src).is_err());
}
