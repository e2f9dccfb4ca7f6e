use dacelo::ast::{BinOp, TyAst};
use dacelo::eval::BuiltinKind;
use dacelo::infer::{op_name, Infer, Ty};
use dacelo::lexer::{lex, pos_prefix, Keyword, Symbol, Tok};
use dacelo::parser::{describe_tok, format_tyast, parse};
use dacelo::text::debug_quote;

#[test]
fn tokens_carry_the_position_of_their_first_character() {
    let toks = lex("let x =\n  42 -- note\n\"s\"").unwrap();
    let pos: Vec<(u32, u32)> = toks.iter().map(|t| (t.line, t.col)).collect();
    assert_eq!(pos, vec![(1, 1), (1, 5), (1, 7), (2, 3), (3, 1), (3, 4)]);
    assert!(matches!(toks[3].tok, Tok::Int(42)));
    assert!(matches!(toks.last().unwrap().tok, Tok::Eof));
}

#[test]
fn lexer_errors_name_the_position() {
    assert_eq!(lex("let a =\n  #").err().unwrap(), "2:3: unexpected character `#`");
    assert_eq!(pos_prefix(12, 4), "12:4: ");
}

#[test]
fn token_descriptions() {
    assert_eq!(describe_tok(&Tok::Int(-3)), "int -3");
    assert_eq!(describe_tok(&Tok::Str("a\"b\n".to_string())), "string \"a\\\"b\\n\"");
    assert_eq!(describe_tok(&Tok::Ident("x".to_string())), "ident `x`");
    assert_eq!(describe_tok(&Tok::Upper("Leaf".to_string())), "ctor `Leaf`");
    assert_eq!(describe_tok(&Tok::Kw(Keyword::Case)), "keyword `case`");
    assert_eq!(describe_tok(&Tok::Sym(Symbol::ColonColon)), "`::`");
    assert_eq!(describe_tok(&Tok::Eof), "end of input");
    assert_eq!(debug_quote("\u{1}\t"), "\"\\u{1}\\t\"");
}

#[test]
fn type_expressions_render_as_written() {
    let t = TyAst::Arrow(
        Box::new(TyAst::TCon("Pair".to_string(), vec![TyAst::TVar("a".to_string()), TyAst::TCon("Int".to_string(), vec![])])),
        Box::new(TyAst::TTuple(vec![TyAst::TVar("a".to_string()), TyAst::TCon("Bool".to_string(), vec![])])),
    );
    assert_eq!(format_tyast(&t), "Pair a Int -> (a, Bool)");
}

#[test]
fn operator_and_builtin_names() {
    assert_eq!(op_name(BinOp::Concat), "++");
    assert_eq!(op_name(BinOp::Neq), "!=");
    assert_eq!(BuiltinKind::StrToInt.name(), "string_to_int");
    assert_eq!(Symbol::Arrow.text(), "->");
}

#[test]
fn constructor_tags_are_distinct() {
    let src = "type T =\n  | A\n  | B Int\ntype U =\n  | C\n  | A Bool\nlet main () = ()";
    let prog = parse(lex(src).unwrap()).unwrap();
    let mut inf = Infer::new();
    inf.check_program(&prog).unwrap();
    let ctors = inf.into_ctors();
    let mut names: Vec<&str> = ctors.iter().map(|c| c.0.as_str()).collect();
    let mut tags: Vec<u32> = ctors.iter().map(|c| c.1 .0).collect();
    names.sort();
    tags.sort();
    let n = names.len();
    names.dedup();
    tags.dedup();
    assert_eq!(names.len(), n);
    assert_eq!(tags.len(), n);
    assert_eq!(n, 5);
    let a = ctors.iter().find(|c| c.0 == "A").unwrap();
    assert_eq!(a.1 .1, 1);
}

#[test]
fn tokens_are_read_from_their_text() {
    let toks = lex("case Foo x_1' -> \"a\\tb\" :: [] 007").unwrap();
    assert!(matches!(toks[0].tok, Tok::Kw(Keyword::Case)));
    assert!(matches!(&toks[1].tok, Tok::Upper(s) if s == "Foo"));
    assert!(matches!(&toks[2].tok, Tok::Ident(s) if s == "x_1'"));
    assert!(matches!(toks[3].tok, Tok::Sym(Symbol::Arrow)));
    assert!(matches!(&toks[4].tok, Tok::Str(s) if s == "a\tb"));
    assert!(matches!(toks[5].tok, Tok::Sym(Symbol::ColonColon)));
    assert!(matches!(toks[6].tok, Tok::Sym(Symbol::LBracket)));
    assert!(matches!(toks[7].tok, Tok::Sym(Symbol::RBracket)));
    assert!(matches!(toks[8].tok, Tok::Int(7)));
    assert!(matches!(toks[9].tok, Tok::Eof));
    assert_eq!(toks.len(), 10);
}

#[test]
fn lexer_rejects_bad_literals() {
    assert_eq!(lex("\"abc").err().unwrap(), "1:1: unterminated string literal");
    assert_eq!(lex("x = \"a\\q\"").err().unwrap(), "1:8: unknown escape `\\q` in string literal");
    assert_eq!(
        lex("99999999999999999999").err().unwrap(),
        "1:1: integer literal overflow `99999999999999999999`"
    );
}

#[test]
fn ground_types_are_shown_as_written() {
    let inf = Infer::new();
    let f = Ty::arrow(Ty::arrow(Ty::int_ty(), Ty::bool()), Ty::list(Ty::string()));
    assert_eq!(inf.show(&f), "(Int -> Bool) -> [String]");
    let t = Ty::Tuple(vec![Ty::int_ty(), Ty::App("Pair".to_string(), vec![Ty::bool(), Ty::unit()])]);
    assert_eq!(inf.show(&t), "(Int, (Pair Bool Unit))");
    assert_eq!(inf.show(&Ty::App("Tree".to_string(), vec![])), "Tree");
}

#[test]
fn failed_type_check_keeps_the_state() {
    let f = dacelo::check_items("let x = 1\nlet rec f y = f (y + x) and g z = z ++ 1").err().unwrap();
    assert!(f.message.starts_with("[item 1: let rec f / g] "), "{}", f.message);
    assert_eq!(f.group, vec!["f".to_string(), "g".to_string()]);
    let inf = f.state.unwrap();
    let entries = inf.env_entries();
    let x = entries.iter().find(|e| e.name == "x").unwrap();
    assert_eq!(x.shown, "Int");
    assert_eq!(x.quantified, 0);
    let len = entries.iter().find(|e| e.name == "string_length").unwrap();
    assert_eq!(len.shown, "String -> Int");
    assert!(inf.scan_leaks().iter().all(|l| !l.vars.is_empty()));
    let parse_failure = dacelo::check_items("let = 1").err().unwrap();
    assert!(parse_failure.state.is_none());
}

fn parsed(src: &str) -> String {
    let mut p = dacelo::parser::Parser::new(lex(src).unwrap());
    format!("{:?}", p.parse_expr().unwrap())
}

#[test]
fn operators_group_by_precedence_and_associativity() {
    assert_eq!(parsed("a - b - c"), "Bin(Sub, Bin(Sub, Var(\"a\"), Var(\"b\")), Var(\"c\"))");
    assert_eq!(parsed("x :: y :: zs"), "Bin(Cons, Var(\"x\"), Bin(Cons, Var(\"y\"), Var(\"zs\")))");
    assert_eq!(
        parsed("f x y + 2 * z"),
        "Bin(Add, App(App(Var(\"f\"), Var(\"x\")), Var(\"y\")), Bin(Mul, Lit(Int(2)), Var(\"z\")))"
    );
    assert_eq!(parsed("a < b && c || d"), "Bin(Or, Bin(And, Bin(Lt, Var(\"a\"), Var(\"b\")), Var(\"c\")), Var(\"d\"))");
}

#[test]
fn sugar_expands_to_core_forms() {
    assert_eq!(parsed("fun a b -> a"), "Lam(Var(\"a\"), Lam(Var(\"b\"), Var(\"a\")))");
    assert_eq!(
        parsed("[1, -2]"),
        "App(App(Ctor(\"Cons\"), Lit(Int(1))), App(App(Ctor(\"Cons\"), Lit(Int(-2))), Ctor(\"Nil\")))"
    );
    assert_eq!(
        parsed("let f x = x in f"),
        "Let { is_rec: false, name: \"f\", rhs: Lam(Var(\"x\"), Var(\"x\")), body: Var(\"f\") }"
    );
}

#[test]
fn lexing_stops_where_no_token_can_be_read() {
    assert_eq!(lex("x = 99999999999999999999").err().unwrap(), "1:5: integer literal overflow `99999999999999999999`");
    assert_eq!(lex("-- c\n\"abc").err().unwrap(), "2:1: unterminated string literal");
    assert!(lex("a -- #\nb").is_ok());
}
