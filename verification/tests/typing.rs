use dacelo::ast::{CtorDecl, Def, Expr, Item, Lit, TyAst, TyDecl};
use dacelo::infer::{Infer, Ty};

fn lit_def(name: &str, n: i64) -> Item {
    Item::Def(Def {
        name: name.to_string(),
        params: vec![],
        ann: None,
        body: Expr::Lit(Lit::Int(n)),
        is_rec: false,
    })
}

fn color_decl() -> Item {
    Item::Ty(TyDecl {
        name: "Color".to_string(),
        params: vec![],
        ctors: vec![
            CtorDecl { name: "Red".to_string(), fields: vec![] },
            CtorDecl { name: "Shade".to_string(), fields: vec![TyAst::TCon("Int".to_string(), vec![])] },
        ],
    })
}

#[test]
fn unify_on_ground_types_succeeds_exactly_when_they_are_equal() {
    let mut inf = Infer::new();
    assert!(inf.unify(&Ty::int_ty(), &Ty::int_ty()).is_ok());
    let e = inf.unify(&Ty::int_ty(), &Ty::bool()).unwrap_err();
    assert!(e.starts_with("type mismatch: "), "{}", e);
    let f = Ty::arrow(Ty::int_ty(), Ty::bool());
    assert!(inf.unify(&f, &Ty::arrow(Ty::int_ty(), Ty::bool())).is_ok());
    assert!(inf.unify(&f, &Ty::arrow(Ty::int_ty(), Ty::int_ty())).is_err());
    let pair = Ty::Tuple(vec![Ty::int_ty(), Ty::string()]);
    assert!(inf.unify(&pair, &Ty::Tuple(vec![Ty::int_ty()])).is_err());
}

#[test]
fn a_type_definition_may_not_take_a_builtin_name() {
    let mut inf = Infer::new();
    let item = Item::Ty(TyDecl { name: "List".to_string(), params: vec![], ctors: vec![] });
    assert_eq!(inf.process_item(&item).unwrap_err(), "cannot redefine built-in type `List`");
}

#[test]
fn a_type_may_be_defined_once() {
    let mut inf = Infer::new();
    assert!(inf.process_item(&color_decl()).is_ok());
    assert_eq!(inf.process_item(&color_decl()).unwrap_err(), "duplicate type definition `Color`");
    let entries = inf.env_entries();
    let shade = entries.iter().find(|e| e.name == "Shade").unwrap();
    assert_eq!(shade.shown, "Int -> Color");
}

#[test]
fn a_definition_adds_exactly_its_name() {
    let mut inf = Infer::new();
    let before: Vec<String> = inf.env_entries().into_iter().map(|e| e.name).collect();
    assert!(inf.process_item(&lit_def("answer", 42)).is_ok());
    let after: Vec<String> = inf.env_entries().into_iter().map(|e| e.name).collect();
    assert!(after.contains(&"answer".to_string()));
    for n in &before {
        assert!(after.contains(n));
    }
    for n in &after {
        assert!(n == "answer" || before.contains(n));
    }
    let answer = inf.env_entries().into_iter().find(|e| e.name == "answer").unwrap();
    assert_eq!(answer.shown, "Int");
    assert!(inf.scan_leaks().is_empty());
}

#[test]
fn a_group_with_a_repeated_name_is_refused() {
    let mut inf = Infer::new();
    let d = |n: &str| Def {
        name: n.to_string(),
        params: vec![],
        ann: None,
        body: Expr::Lit(Lit::Int(1)),
        is_rec: true,
    };
    let e = inf.process_item(&Item::RecGroup(vec![d("f"), d("f")])).unwrap_err();
    assert_eq!(e, "duplicate definition `f`");
}
