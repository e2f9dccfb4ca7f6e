//! Hindley-Milner type inference (algorithm J) with let-polymorphism.
//!
//! Type variables are cells of a substitution store owned by [`Infer`]: a
//! variable is bound by linking its cell to a type.
use vstd::prelude::*;
use crate::ast::{BinOp, CtorDecl, Def, Expr, Item, Lit, Pattern, Program, TyAst, TyDecl};
use crate::text::{concat, concat3, u64_to_string};
use crate::codegen::last_entry;

verus! {

// ---------- type representation ----------

/// A type variable: the index of its cell in the store.
#[derive(Debug, Clone, Copy, PartialEq, Eq, Structural)]
pub struct Tv(pub usize);

/// Types.
#[derive(Debug)]
pub enum Ty {
    /// "Int" "Bool" "String" "Unit"
    Con(String),
    Var(Tv),
    Arrow(Box<Ty>, Box<Ty>),
    Tuple(Vec<Ty>),
    /// named application: List [t], Tree [], Pair [a, b]
    App(String, Vec<Ty>),
}

/// A cell of the substitution store.
#[derive(Debug)]
pub struct TvCell {
    pub id: usize,
    pub link: Option<Ty>,
}

/// A type scheme `forall qvars. ty`.
#[derive(Debug)]
pub struct Scheme {
    pub qvars: Vec<usize>,
    pub ty: Ty,
}

/// Recursion budget for walks over types through the store.
pub const TY_FUEL: u64 = 100000;

/// `a` and `b` are the same type: the same constructors, names and
/// variables, all the way down.
pub open spec fn ty_same(a: Ty, b: Ty) -> bool
    decreases a,
{
    match (a, b) {
        (Ty::Con(x), Ty::Con(y)) => x@ == y@,
        (Ty::Var(x), Ty::Var(y)) => x == y,
        (Ty::Arrow(a1, a2), Ty::Arrow(b1, b2)) => ty_same(*a1, *b1) && ty_same(*a2, *b2),
        (Ty::Tuple(xs), Ty::Tuple(ys)) => xs@.len() == ys@.len()
            && forall|i: int| 0 <= i < xs@.len() ==> ty_same(#[trigger] xs@[i], ys@[i]),
        (Ty::App(n, xs), Ty::App(m, ys)) => n@ == m@ && xs@.len() == ys@.len()
            && forall|i: int| 0 <= i < xs@.len() ==> ty_same(#[trigger] xs@[i], ys@[i]),
        _ => false,
    }
}

proof fn lemma_same_refl(a: Ty)
    ensures
        ty_same(a, a),
    decreases a,
{
    match a {
        Ty::Arrow(x, y) => {
            lemma_same_refl(*x);
            lemma_same_refl(*y);
        },
        Ty::Tuple(xs) => {
            assert forall|i: int| 0 <= i < xs@.len() implies ty_same(#[trigger] xs@[i], xs@[i]) by {
                assert(decreases_to!(xs => xs@[i]));
                lemma_same_refl(xs@[i]);
            }
        },
        Ty::App(_, xs) => {
            assert forall|i: int| 0 <= i < xs@.len() implies ty_same(#[trigger] xs@[i], xs@[i]) by {
                assert(decreases_to!(xs => xs@[i]));
                lemma_same_refl(xs@[i]);
            }
        },
        _ => {},
    }
}

proof fn lemma_same_sym(a: Ty, b: Ty)
    requires
        ty_same(a, b),
    ensures
        ty_same(b, a),
    decreases a,
{
    match (a, b) {
        (Ty::Arrow(x, y), Ty::Arrow(p, q)) => {
            lemma_same_sym(*x, *p);
            lemma_same_sym(*y, *q);
        },
        (Ty::Tuple(xs), Ty::Tuple(ys)) => {
            assert forall|i: int| 0 <= i < ys@.len() implies ty_same(#[trigger] ys@[i], xs@[i]) by {
                assert(decreases_to!(xs => xs@[i]));
                lemma_same_sym(xs@[i], ys@[i]);
            }
        },
        (Ty::App(_, xs), Ty::App(_, ys)) => {
            assert forall|i: int| 0 <= i < ys@.len() implies ty_same(#[trigger] ys@[i], xs@[i]) by {
                assert(decreases_to!(xs => xs@[i]));
                lemma_same_sym(xs@[i], ys@[i]);
            }
        },
        _ => {},
    }
}

proof fn lemma_same_trans(a: Ty, b: Ty, c: Ty)
    requires
        ty_same(a, b),
        ty_same(b, c),
    ensures
        ty_same(a, c),
    decreases a,
{
    match (a, b, c) {
        (Ty::Arrow(x, y), Ty::Arrow(p, q), Ty::Arrow(u, v)) => {
            lemma_same_trans(*x, *p, *u);
            lemma_same_trans(*y, *q, *v);
        },
        (Ty::Tuple(xs), Ty::Tuple(ys), Ty::Tuple(zs)) => {
            assert forall|i: int| 0 <= i < xs@.len() implies ty_same(#[trigger] xs@[i], zs@[i]) by {
                assert(decreases_to!(xs => xs@[i]));
                lemma_same_trans(xs@[i], ys@[i], zs@[i]);
            }
        },
        (Ty::App(_, xs), Ty::App(_, ys), Ty::App(_, zs)) => {
            assert forall|i: int| 0 <= i < xs@.len() implies ty_same(#[trigger] xs@[i], zs@[i]) by {
                assert(decreases_to!(xs => xs@[i]));
                lemma_same_trans(xs@[i], ys@[i], zs@[i]);
            }
        },
        _ => {},
    }
}

/// Follows the links of the substitution store from `t`, at most `n`
/// times: what a bound variable stands for.
pub open spec fn walk(cells: Seq<TvCell>, t: Ty, n: nat) -> Ty
    decreases n,
{
    if n == 0 {
        t
    } else {
        match t {
            Ty::Var(v) => if v.0 < cells.len() && cells[v.0 as int].link is Some {
                walk(cells, cells[v.0 as int].link.unwrap(), (n - 1) as nat)
            } else {
                t
            },
            _ => t,
        }
    }
}

proof fn lemma_walk_same(cells: Seq<TvCell>, a: Ty, b: Ty, n: nat)
    requires
        ty_same(a, b),
    ensures
        ty_same(walk(cells, a, n), walk(cells, b, n)),
{
    if n > 0 && a is Var {
        lemma_same_refl(walk(cells, a, n));
    }
}

/// How many arrows `t` has at its top, through the store `cells`, within
/// `fuel` levels (the count stops at `usize::MAX`).
pub open spec fn arrow_count(cells: Seq<TvCell>, t: Ty, fuel: nat) -> nat
    decreases fuel,
{
    if fuel == 0 {
        0
    } else {
        match walk(cells, t, cells.len()) {
            Ty::Arrow(_, b) => {
                let k = arrow_count(cells, *b, (fuel - 1) as nat);
                if k < usize::MAX { k + 1 } else { k }
            },
            _ => 0,
        }
    }
}

/// Variable `id` occurs in `t`, through the store `cells`, within `fuel`
/// levels (beyond them it is taken to occur).
pub open spec fn occurs_in(cells: Seq<TvCell>, id: usize, t: Ty, fuel: nat) -> bool
    decreases fuel,
{
    if fuel == 0 {
        true
    } else {
        match walk(cells, t, cells.len()) {
            Ty::Var(v) => v.0 == id,
            Ty::Con(_) => false,
            Ty::Arrow(a, b) => occurs_in(cells, id, *a, (fuel - 1) as nat) || occurs_in(cells, id, *b, (fuel - 1) as nat),
            Ty::Tuple(ts) => exists|i: int| 0 <= i < ts@.len() && occurs_in(cells, id, #[trigger] ts@[i], (fuel - 1) as nat),
            Ty::App(_, ts) => exists|i: int| 0 <= i < ts@.len() && occurs_in(cells, id, #[trigger] ts@[i], (fuel - 1) as nat),
        }
    }
}

proof fn lemma_arrow_count_same(cells: Seq<TvCell>, a: Ty, b: Ty, fuel: nat)
    requires
        ty_same(a, b),
    ensures
        arrow_count(cells, a, fuel) == arrow_count(cells, b, fuel),
    decreases fuel,
{
    if fuel > 0 {
        let n = cells.len();
        lemma_walk_same(cells, a, b, n);
        match (walk(cells, a, n), walk(cells, b, n)) {
            (Ty::Arrow(_, x), Ty::Arrow(_, y)) => {
                lemma_arrow_count_same(cells, *x, *y, (fuel - 1) as nat);
            },
            _ => {},
        }
    }
}

proof fn lemma_occurs_same(cells: Seq<TvCell>, id: usize, a: Ty, b: Ty, fuel: nat)
    requires
        ty_same(a, b),
    ensures
        occurs_in(cells, id, a, fuel) == occurs_in(cells, id, b, fuel),
    decreases fuel,
{
    if fuel > 0 {
        let n = cells.len();
        let f = (fuel - 1) as nat;
        lemma_walk_same(cells, a, b, n);
        match (walk(cells, a, n), walk(cells, b, n)) {
            (Ty::Arrow(x1, x2), Ty::Arrow(y1, y2)) => {
                lemma_occurs_same(cells, id, *x1, *y1, f);
                lemma_occurs_same(cells, id, *x2, *y2, f);
            },
            (Ty::Tuple(xs), Ty::Tuple(ys)) => {
                assert forall|i: int| 0 <= i < xs@.len() implies occurs_in(cells, id, #[trigger] xs@[i], f) == occurs_in(
                    cells,
                    id,
                    ys@[i],
                    f,
                ) by {
                    lemma_occurs_same(cells, id, xs@[i], ys@[i], f);
                }
                if occurs_in(cells, id, a, fuel) {
                    let i = choose|i: int| 0 <= i < xs@.len() && occurs_in(cells, id, #[trigger] xs@[i], f);
                    assert(occurs_in(cells, id, ys@[i], f));
                }
                if occurs_in(cells, id, b, fuel) {
                    let i = choose|i: int| 0 <= i < ys@.len() && occurs_in(cells, id, #[trigger] ys@[i], f);
                    assert(occurs_in(cells, id, xs@[i], f));
                }
            },
            (Ty::App(_, xs), Ty::App(_, ys)) => {
                assert forall|i: int| 0 <= i < xs@.len() implies occurs_in(cells, id, #[trigger] xs@[i], f) == occurs_in(
                    cells,
                    id,
                    ys@[i],
                    f,
                ) by {
                    lemma_occurs_same(cells, id, xs@[i], ys@[i], f);
                }
                if occurs_in(cells, id, a, fuel) {
                    let i = choose|i: int| 0 <= i < xs@.len() && occurs_in(cells, id, #[trigger] xs@[i], f);
                    assert(occurs_in(cells, id, ys@[i], f));
                }
                if occurs_in(cells, id, b, fuel) {
                    let i = choose|i: int| 0 <= i < ys@.len() && occurs_in(cells, id, #[trigger] ys@[i], f);
                    assert(occurs_in(cells, id, xs@[i], f));
                }
            },
            _ => {},
        }
    }
}

/// `t` is less than `n` levels deep.
pub open spec fn depth_below(t: Ty, n: nat) -> bool
    decreases n,
{
    n > 0 && match t {
        Ty::Arrow(a, b) => depth_below(*a, (n - 1) as nat) && depth_below(*b, (n - 1) as nat),
        Ty::Tuple(ts) => forall|i: int| 0 <= i < ts@.len() ==> depth_below(#[trigger] ts@[i], (n - 1) as nat),
        Ty::App(_, ts) => forall|i: int| 0 <= i < ts@.len() ==> depth_below(#[trigger] ts@[i], (n - 1) as nat),
        _ => true,
    }
}

proof fn lemma_depth_same(a: Ty, b: Ty, n: nat)
    requires
        ty_same(a, b),
    ensures
        depth_below(a, n) == depth_below(b, n),
    decreases n,
{
    if n > 0 {
        let m = (n - 1) as nat;
        match (a, b) {
            (Ty::Arrow(a1, a2), Ty::Arrow(b1, b2)) => {
                lemma_depth_same(*a1, *b1, m);
                lemma_depth_same(*a2, *b2, m);
            },
            (Ty::Tuple(xs), Ty::Tuple(ys)) => {
                assert forall|i: int| #![trigger xs@[i]] #![trigger ys@[i]] 0 <= i < xs@.len()
                    implies depth_below(xs@[i], m) == depth_below(ys@[i], m) by {
                    lemma_depth_same(xs@[i], ys@[i], m);
                }
            },
            (Ty::App(_, xs), Ty::App(_, ys)) => {
                assert forall|i: int| #![trigger xs@[i]] #![trigger ys@[i]] 0 <= i < xs@.len()
                    implies depth_below(xs@[i], m) == depth_below(ys@[i], m) by {
                    lemma_depth_same(xs@[i], ys@[i], m);
                }
            },
            _ => {},
        }
    }
}

proof fn lemma_same_transfer(a: Ty, a0: Ty, b: Ty, b0: Ty)
    requires
        ty_same(a, a0),
        ty_same(b, b0),
    ensures
        ty_same(a, b) == ty_same(a0, b0),
{
    lemma_same_sym(a, a0);
    lemma_same_sym(b, b0);
    if ty_same(a, b) {
        lemma_same_trans(a0, a, b);
        lemma_same_trans(a0, b, b0);
    }
    if ty_same(a0, b0) {
        lemma_same_trans(a, a0, b0);
        lemma_same_trans(a, b0, b);
    }
}

/// The operands and the wanted type of an operator have no variables, and
/// the operands are less than `TY_FUEL` levels deep.
pub open spec fn operands_ground(tl: Ty, tr: Ty, want: Ty) -> bool {
    &&& ground(tl)
    &&& ground(tr)
    &&& ground(want)
    &&& depth_below(tl, TY_FUEL as nat)
    &&& depth_below(tr, TY_FUEL as nat)
}

/// The two lists hold types without variables, those of `xs` less than
/// `fuel` levels deep.
pub open spec fn pairs_ground(xs: Seq<Ty>, ys: Seq<Ty>, fuel: nat) -> bool {
    forall|i: int| 0 <= i < xs.len() ==> ground(#[trigger] xs[i]) && ground(ys[i]) && depth_below(xs[i], fuel)
}

/// The names of the built-in types, which no type definition may take.
pub open spec fn builtin_type_name(n: Seq<char>) -> bool {
    n == "Int"@ || n == "Bool"@ || n == "String"@ || n == "Unit"@ || n == "List"@
}

/// The association list binds `k` to something.
pub open spec fn has_binding(s: Seq<(String, Scheme)>, k: Seq<char>) -> bool {
    exists|v: Scheme| binds(s, k, v)
}

/// The names that a definition item defines, in order.
pub open spec fn item_def_names(item: Item) -> Seq<Seq<char>> {
    match item {
        Item::Def(d) => seq![d.name@],
        Item::RecGroup(ds) => Seq::new(ds@.len(), |i: int| ds@[i].name@),
        Item::Ty(_) => Seq::empty(),
    }
}

proof fn lemma_last_entry_some<V>(s: Seq<(String, V)>, k: Seq<char>)
    ensures
        last_entry(s, k) is Some <==> exists|i: int| 0 <= i < s.len() && #[trigger] s[i].0@ == k,
        last_entry(s, k) matches Some(x) ==> exists|i: int| 0 <= i < s.len() && #[trigger] s[i].0@ == k && s[i].1 == x,
    decreases s.len(),
{
    if s.len() > 0 {
        let p = s.drop_last();
        lemma_last_entry_some(p, k);
        if s.last().0@ != k {
            if exists|i: int| 0 <= i < s.len() && #[trigger] s[i].0@ == k {
                let i = choose|i: int| 0 <= i < s.len() && #[trigger] s[i].0@ == k;
                assert(p[i] == s[i]);
            }
            if last_entry(p, k) is Some {
                let i = choose|i: int| 0 <= i < p.len() && #[trigger] p[i].0@ == k && p[i].1 == last_entry(p, k).unwrap();
                assert(p[i] == s[i]);
            }
        } else {
            assert(s[s.len() - 1].0@ == k);
        }
    }
}

proof fn lemma_names_same(a: Seq<(String, Scheme)>, b: Seq<(String, Scheme)>)
    requires
        a.len() == b.len(),
        forall|i: int| 0 <= i < b.len() ==> #[trigger] a[i].0 == b[i].0,
    ensures
        forall|k: Seq<char>| #[trigger] has_binding(a, k) <==> has_binding(b, k),
{
    assert forall|k: Seq<char>| #[trigger] has_binding(a, k) <==> has_binding(b, k) by {
        if has_binding(a, k) {
            let v = choose|v: Scheme| binds(a, k, v);
            let i = choose|i: int| #![trigger a[i]] 0 <= i < a.len() && a[i].0@ == k && a[i].1 == v;
            assert(a[i].0 == b[i].0);
            assert(binds(b, k, b[i].1));
        }
        if has_binding(b, k) {
            let v = choose|v: Scheme| binds(b, k, v);
            let i = choose|i: int| #![trigger b[i]] 0 <= i < b.len() && b[i].0@ == k && b[i].1 == v;
            assert(a[i].0 == b[i].0);
            assert(binds(a, k, a[i].1));
        }
    }
}

/// The outermost form of an instance `r` of the resolved type `w`, where
/// the variables in `qvars` are replaced: an unbound variable outside
/// `qvars` stays, a constant stays, an arrow, tuple or application keeps
/// its form, its name and its number of components.
pub open spec fn inst_shape(w: Ty, r: Ty, qvars: Seq<usize>) -> bool {
    match w {
        Ty::Var(v) => if qvars.contains(v.0) {
            r is Var
        } else {
            r == w
        },
        Ty::Con(c) => (r matches Ty::Con(c2) && c2@ == c@),
        Ty::Arrow(_, _) => r is Arrow,
        Ty::Tuple(xs) => (r matches Ty::Tuple(ys) && ys@.len() == xs@.len()),
        Ty::App(n, xs) => (r matches Ty::App(m, ys) && m@ == n@ && ys@.len() == xs@.len()),
    }
}

/// The built-in functions with a monomorphic type, in the order they are
/// bound.
pub open spec fn builtin_fn_names() -> Seq<Seq<char>> {
    seq!["print_int"@, "print_string"@, "int_to_string"@, "bool_to_string"@, "string_length"@, "str_concat"@, "read_file"@, "write_file"@, "exit"@, "chr"@, "ord"@, "string_get"@, "substring"@, "string_to_int"@, "argv"@, "system"@]
}

/// The names bound in a fresh inference state: the `List` constructors,
/// the built-in functions, `error` and `show`.
pub open spec fn initial_names() -> Seq<Seq<char>> {
    seq!["Nil"@, "Cons"@] + builtin_fn_names() + seq!["error"@, "show"@]
}

proof fn lemma_initial_names(k: Seq<char>)
    ensures
        initial_names().contains(k) <==> (k == "Nil"@ || k == "Cons"@ || builtin_fn_names().contains(k) || k == "error"@
            || k == "show"@),
{
    let a = seq!["Nil"@, "Cons"@];
    let b = builtin_fn_names();
    let c = seq!["error"@, "show"@];
    let s = initial_names();
    assert(s =~= a + b + c);
    if s.contains(k) {
        let i = choose|i: int| 0 <= i < s.len() && s[i] == k;
        if i < 2 {
            assert(a[i] == k);
        } else if i < 18 {
            assert(b[i - 2] == k);
        } else {
            assert(c[i - 18] == k);
        }
    }
    if k == "Nil"@ {
        assert(s[0] == k);
    }
    if k == "Cons"@ {
        assert(s[1] == k);
    }
    if b.contains(k) {
        let i = choose|i: int| 0 <= i < b.len() && b[i] == k;
        assert(s[i + 2] == k);
    }
    if k == "error"@ {
        assert(s[18] == k);
    }
    if k == "show"@ {
        assert(s[19] == k);
    }
}

proof fn lemma_builtin_fn_names_distinct()
    ensures
        !builtin_fn_names().contains("error"@),
        !builtin_fn_names().contains("show"@),
        "error"@ != "show"@,
{
    reveal_strlit("print_int");
    reveal_strlit("print_string");
    reveal_strlit("int_to_string");
    reveal_strlit("bool_to_string");
    reveal_strlit("string_length");
    reveal_strlit("str_concat");
    reveal_strlit("read_file");
    reveal_strlit("write_file");
    reveal_strlit("exit");
    reveal_strlit("chr");
    reveal_strlit("ord");
    reveal_strlit("string_get");
    reveal_strlit("substring");
    reveal_strlit("string_to_int");
    reveal_strlit("argv");
    reveal_strlit("system");
    reveal_strlit("error");
    reveal_strlit("show");
    let b = builtin_fn_names();
    assert forall|i: int| 0 <= i < b.len() implies b[i] != "error"@ && b[i] != "show"@ by {
        assert(b[i].len() != 5 || b[i][0] != 'e');
        assert(b[i].len() != 4 || b[i][1] != 'h');
    }
    assert("error"@.len() != "show"@.len());
}

/// `sch` generalizes its type over the environment `env`: it quantifies
/// exactly the variables free in its type and not free in `env`.
pub open spec fn generalizes(cells: Seq<TvCell>, env: Seq<(String, Scheme)>, sch: Scheme) -> bool {
    forall|y: usize| #[trigger] sch.qvars@.contains(y) <==> free_in(cells, y, sch.ty, TY_FUEL as nat) && !env_free(
        cells,
        env,
        y,
    )
}

proof fn lemma_env_free_same(cells: Seq<TvCell>, a: Seq<(String, Scheme)>, b: Seq<(String, Scheme)>)
    requires
        a.len() == b.len(),
        forall|i: int| 0 <= i < a.len() ==> #[trigger] a[i].1.qvars@ == b[i].1.qvars@ && ty_same(a[i].1.ty, b[i].1.ty),
    ensures
        forall|y: usize| #[trigger] env_free(cells, a, y) == env_free(cells, b, y),
{
    assert forall|y: usize| #[trigger] env_free(cells, a, y) == env_free(cells, b, y) by {
        if env_free(cells, a, y) {
            let i = choose|i: int|
                0 <= i < a.len() && free_in(cells, y, #[trigger] a[i].1.ty, TY_FUEL as nat) && !a[i].1.qvars@.contains(y);
            lemma_free_same(cells, y, a[i].1.ty, b[i].1.ty, TY_FUEL as nat);
            assert(free_in(cells, y, b[i].1.ty, TY_FUEL as nat));
        }
        if env_free(cells, b, y) {
            let i = choose|i: int|
                0 <= i < b.len() && free_in(cells, y, #[trigger] b[i].1.ty, TY_FUEL as nat) && !b[i].1.qvars@.contains(y);
            assert(a[i].1.qvars@ == b[i].1.qvars@);
            lemma_free_same(cells, y, a[i].1.ty, b[i].1.ty, TY_FUEL as nat);
            assert(free_in(cells, y, a[i].1.ty, TY_FUEL as nat));
        }
    }
}

/// What unifying the unbound variable `id` with the non-variable type `b`
/// gives: the occurs check fails, or `id` is bound to a copy of `b` and no
/// other variable changes.
pub open spec fn unify_var_outcome(c0: Seq<TvCell>, c1: Seq<TvCell>, id: usize, b: Ty, r: Result<(), String>) -> bool {
    if occurs_in(c0, id, b, TY_FUEL as nat) {
        r matches Err(m) && "infinite type: "@.is_prefix_of(m@)
    } else {
        &&& r is Ok
        &&& c1.len() == c0.len()
        &&& c1[id as int].link matches Some(t) && ty_same(t, b)
        &&& forall|j: int| 0 <= j < c0.len() && j != id ==> #[trigger] c1[j] == c0[j]
    }
}

/// The constructors of the type declaration have distinct names.
pub open spec fn ctor_names_distinct(td: TyDecl) -> bool {
    forall|a: int, b: int| 0 <= a < b < td.ctors@.len() ==> #[trigger] td.ctors@[a].name@ != #[trigger] td.ctors@[b].name@
}

/// The constructor table has an entry for `cd` with its number of fields
/// as arity and a tag of at least `min_tag`.
pub open spec fn ctor_defined(table: Seq<(String, (u32, usize))>, cd: CtorDecl, min_tag: u32) -> bool {
    exists|j: int|
        0 <= j < table.len() && table[j].0@ == cd.name@ && table[j].1.1 == cd.fields@.len() && table[j].1.0 >= min_tag
}

/// The outermost form of the type inferred for `e`: a function type for
/// a lambda, a fresh variable for an application or a `case`, a tuple of
/// as many components for a tuple.
pub open spec fn expr_type_shape(e: Expr, t: Ty) -> bool {
    match e {
        Expr::Lam(_, _) => t is Arrow,
        Expr::App(_, _) => t is Var,
        Expr::Case(_, _) => t is Var,
        Expr::Tuple(es) => t matches Ty::Tuple(ts) && ts@.len() == es@.len(),
        _ => true,
    }
}

/// The variable `t` stands for through the store, when that variable is
/// unbound.
pub open spec fn unbound_var_of(cells: Seq<TvCell>, t: Ty) -> Option<usize> {
    match walk(cells, t, cells.len()) {
        Ty::Var(v) => if v.0 >= cells.len() || cells[v.0 as int].link is None {
            Some(v.0)
        } else {
            None
        },
        _ => None,
    }
}

/// The name of the base type of a literal.
pub open spec fn lit_type_name(l: Lit) -> Seq<char> {
    match l {
        Lit::Int(_) => "Int"@,
        Lit::Bool(_) => "Bool"@,
        Lit::Str(_) => "String"@,
        Lit::Unit => "Unit"@,
    }
}

/// Variable `id` is an unbound variable of `t`, through the store `cells`,
/// within `fuel` levels (nothing beyond them is counted).
pub open spec fn free_in(cells: Seq<TvCell>, id: usize, t: Ty, fuel: nat) -> bool
    decreases fuel,
{
    if fuel == 0 {
        false
    } else {
        match walk(cells, t, cells.len()) {
            Ty::Var(v) => v.0 == id,
            Ty::Con(_) => false,
            Ty::Arrow(a, b) => free_in(cells, id, *a, (fuel - 1) as nat) || free_in(cells, id, *b, (fuel - 1) as nat),
            Ty::Tuple(ts) => exists|i: int| 0 <= i < ts@.len() && free_in(cells, id, #[trigger] ts@[i], (fuel - 1) as nat),
            Ty::App(_, ts) => exists|i: int| 0 <= i < ts@.len() && free_in(cells, id, #[trigger] ts@[i], (fuel - 1) as nat),
        }
    }
}

proof fn lemma_free_same(cells: Seq<TvCell>, id: usize, a: Ty, b: Ty, fuel: nat)
    requires
        ty_same(a, b),
    ensures
        free_in(cells, id, a, fuel) == free_in(cells, id, b, fuel),
    decreases fuel,
{
    if fuel > 0 {
        let n = cells.len();
        let f = (fuel - 1) as nat;
        lemma_walk_same(cells, a, b, n);
        match (walk(cells, a, n), walk(cells, b, n)) {
            (Ty::Arrow(x1, x2), Ty::Arrow(y1, y2)) => {
                lemma_free_same(cells, id, *x1, *y1, f);
                lemma_free_same(cells, id, *x2, *y2, f);
            },
            (Ty::Tuple(xs), Ty::Tuple(ys)) => {
                assert forall|i: int| 0 <= i < xs@.len() implies free_in(cells, id, #[trigger] xs@[i], f) == free_in(
                    cells,
                    id,
                    ys@[i],
                    f,
                ) by {
                    lemma_free_same(cells, id, xs@[i], ys@[i], f);
                }
                if free_in(cells, id, a, fuel) {
                    let i = choose|i: int| 0 <= i < xs@.len() && free_in(cells, id, #[trigger] xs@[i], f);
                    assert(free_in(cells, id, ys@[i], f));
                }
                if free_in(cells, id, b, fuel) {
                    let i = choose|i: int| 0 <= i < ys@.len() && free_in(cells, id, #[trigger] ys@[i], f);
                    assert(free_in(cells, id, xs@[i], f));
                }
            },
            (Ty::App(_, xs), Ty::App(_, ys)) => {
                assert forall|i: int| 0 <= i < xs@.len() implies free_in(cells, id, #[trigger] xs@[i], f) == free_in(
                    cells,
                    id,
                    ys@[i],
                    f,
                ) by {
                    lemma_free_same(cells, id, xs@[i], ys@[i], f);
                }
                if free_in(cells, id, a, fuel) {
                    let i = choose|i: int| 0 <= i < xs@.len() && free_in(cells, id, #[trigger] xs@[i], f);
                    assert(free_in(cells, id, ys@[i], f));
                }
                if free_in(cells, id, b, fuel) {
                    let i = choose|i: int| 0 <= i < ys@.len() && free_in(cells, id, #[trigger] ys@[i], f);
                    assert(free_in(cells, id, xs@[i], f));
                }
            },
            _ => {},
        }
    }
}

/// Variable `id` is free in the environment `env`: an unbound variable of
/// the type of one of its schemes that the scheme does not quantify.
pub open spec fn env_free(cells: Seq<TvCell>, env: Seq<(String, Scheme)>, id: usize) -> bool {
    exists|i: int|
        0 <= i < env.len() && free_in(cells, id, #[trigger] env[i].1.ty, TY_FUEL as nat) && !env[i].1.qvars@.contains(id)
}

/// `t` has no type variables.
pub open spec fn ground(t: Ty) -> bool
    decreases t,
{
    match t {
        Ty::Var(_) => false,
        Ty::Con(_) => true,
        Ty::Arrow(a, b) => ground(*a) && ground(*b),
        Ty::Tuple(ts) => forall|i: int| 0 <= i < ts@.len() ==> ground(#[trigger] ts@[i]),
        Ty::App(_, ts) => forall|i: int| 0 <= i < ts@.len() ==> ground(#[trigger] ts@[i]),
    }
}

/// How a type without variables is written, within `fuel` levels (deeper
/// parts are written `...`): a name, `a -> b` with a left arrow in
/// parentheses, `(a, b)`, `[a]` for a list, `(Name a b)`.
pub open spec fn ty_text(t: Ty, fuel: nat) -> Seq<char>
    decreases fuel, 0nat,
{
    if fuel == 0 {
        "..."@
    } else {
        match t {
            Ty::Var(_) => Seq::empty(),
            Ty::Con(s) => s@,
            Ty::Arrow(a, b) => (if *a is Arrow {
                "("@ + ty_text(*a, (fuel - 1) as nat) + ")"@
            } else {
                ty_text(*a, (fuel - 1) as nat)
            }) + " -> "@ + ty_text(*b, (fuel - 1) as nat),
            Ty::Tuple(ts) => "("@ + tys_joined(ts@, (fuel - 1) as nat) + ")"@,
            Ty::App(n, ts) => if ts@.len() == 0 {
                n@
            } else if n@ == "List"@ {
                "["@ + ty_text(ts@[0], (fuel - 1) as nat) + "]"@
            } else {
                "("@ + n@ + tys_spaced(ts@, (fuel - 1) as nat) + ")"@
            },
        }
    }
}

/// The types of `ts` written and separated by `, `.
pub open spec fn tys_joined(ts: Seq<Ty>, fuel: nat) -> Seq<char>
    decreases fuel, ts.len(),
{
    if ts.len() == 0 {
        Seq::empty()
    } else if ts.len() == 1 {
        ty_text(ts[0], fuel)
    } else {
        tys_joined(ts.drop_last(), fuel) + ", "@ + ty_text(ts.last(), fuel)
    }
}

/// The types of `ts`, each written after a space.
pub open spec fn tys_spaced(ts: Seq<Ty>, fuel: nat) -> Seq<char>
    decreases fuel, ts.len(),
{
    if ts.len() == 0 {
        Seq::empty()
    } else {
        tys_spaced(ts.drop_last(), fuel) + " "@ + ty_text(ts.last(), fuel)
    }
}

proof fn lemma_same_ground(a: Ty, b: Ty)
    requires
        ty_same(a, b),
    ensures
        ground(a) == ground(b),
    decreases a,
{
    reveal_with_fuel(ty_same, 2);
    match (a, b) {
        (Ty::Arrow(a1, a2), Ty::Arrow(b1, b2)) => {
            lemma_same_ground(*a1, *b1);
            lemma_same_ground(*a2, *b2);
        }
        (Ty::Tuple(xs), Ty::Tuple(ys)) => {
            assert forall|i: int| #![trigger xs@[i]] #![trigger ys@[i]] 0 <= i < xs@.len()
                implies ground(xs@[i]) == ground(ys@[i]) by {
                assert(decreases_to!(a => xs));
                assert(decreases_to!(xs => xs@[i]));
                lemma_same_ground(xs@[i], ys@[i]);
            }
        }
        (Ty::App(n, xs), Ty::App(m, ys)) => {
            assert forall|i: int| #![trigger xs@[i]] #![trigger ys@[i]] 0 <= i < xs@.len()
                implies ground(xs@[i]) == ground(ys@[i]) by {
                assert(decreases_to!(a => xs));
                assert(decreases_to!(xs => xs@[i]));
                lemma_same_ground(xs@[i], ys@[i]);
            }
        }
        (Ty::Var(_), _) => {
            assert(b is Var);
        }
        _ => {}
    }
}

proof fn lemma_same_text(a: Ty, b: Ty, fuel: nat)
    requires
        ty_same(a, b),
    ensures
        ty_text(a, fuel) == ty_text(b, fuel),
    decreases fuel, 0nat,
{
    reveal_with_fuel(ty_same, 2);
    if fuel > 0 {
        match (a, b) {
            (Ty::Arrow(a1, a2), Ty::Arrow(b1, b2)) => {
                lemma_same_text(*a1, *b1, (fuel - 1) as nat);
                lemma_same_text(*a2, *b2, (fuel - 1) as nat);
            }
            (Ty::Tuple(xs), Ty::Tuple(ys)) => {
                lemma_same_joined(xs@, ys@, (fuel - 1) as nat);
            }
            (Ty::App(n, xs), Ty::App(m, ys)) => {
                if xs@.len() > 0 {
                    lemma_same_text(xs@[0], ys@[0], (fuel - 1) as nat);
                }
                lemma_same_spaced(xs@, ys@, (fuel - 1) as nat);
            }
            _ => {}
        }
    }
}

proof fn lemma_same_joined(xs: Seq<Ty>, ys: Seq<Ty>, fuel: nat)
    requires
        xs.len() == ys.len(),
        forall|i: int| 0 <= i < xs.len() ==> ty_same(#[trigger] xs[i], ys[i]),
    ensures
        tys_joined(xs, fuel) == tys_joined(ys, fuel),
    decreases fuel, xs.len(),
{
    if xs.len() == 1 {
        lemma_same_text(xs[0], ys[0], fuel);
    } else if xs.len() > 1 {
        lemma_same_text(xs.last(), ys.last(), fuel);
        assert forall|i: int| 0 <= i < xs.drop_last().len() implies ty_same(#[trigger] xs.drop_last()[i], ys.drop_last()[i]) by {
            assert(xs.drop_last()[i] == xs[i] && ys.drop_last()[i] == ys[i]);
        }
        lemma_same_joined(xs.drop_last(), ys.drop_last(), fuel);
    }
}

proof fn lemma_same_spaced(xs: Seq<Ty>, ys: Seq<Ty>, fuel: nat)
    requires
        xs.len() == ys.len(),
        forall|i: int| 0 <= i < xs.len() ==> ty_same(#[trigger] xs[i], ys[i]),
    ensures
        tys_spaced(xs, fuel) == tys_spaced(ys, fuel),
    decreases fuel, xs.len(),
{
    if xs.len() > 0 {
        lemma_same_text(xs.last(), ys.last(), fuel);
        assert forall|i: int| 0 <= i < xs.drop_last().len() implies ty_same(#[trigger] xs.drop_last()[i], ys.drop_last()[i]) by {
            assert(xs.drop_last()[i] == xs[i] && ys.drop_last()[i] == ys[i]);
        }
        lemma_same_spaced(xs.drop_last(), ys.drop_last(), fuel);
    }
}

/// Deep copy of a type.
pub fn clone_ty(t: &Ty) -> (r: Ty)
    ensures
        ty_same(r, *t),
    decreases t,
{
    match t {
        Ty::Con(s) => Ty::Con(s.clone()),
        Ty::Var(v) => Ty::Var(*v),
        Ty::Arrow(a, b) => Ty::Arrow(Box::new(clone_ty(a)), Box::new(clone_ty(b))),
        Ty::Tuple(ts) => Ty::Tuple(clone_tys(ts)),
        Ty::App(n, ts) => Ty::App(n.clone(), clone_tys(ts)),
    }
}

/// Deep copy of a list of types.
#[verifier::loop_isolation(false)]
pub fn clone_tys(ts: &Vec<Ty>) -> (r: Vec<Ty>)
    ensures
        r.len() == ts.len(),
        forall|i: int| 0 <= i < ts.len() ==> ty_same(#[trigger] r@[i], ts@[i]),
    decreases ts,
{
    let mut out: Vec<Ty> = Vec::new();
    let mut i: usize = 0;
    while i < ts.len()
        invariant
            i <= ts.len(),
            out.len() == i,
            forall|j: int| 0 <= j < i ==> ty_same(#[trigger] out@[j], ts@[j]),
        decreases ts.len() - i,
    {
        proof {
            assert(decreases_to!(ts => ts[i as int]));
        }
        out.push(clone_ty(&ts[i]));
        i = i + 1;
    }
    out
}

impl Clone for Ty {
    fn clone(&self) -> Self {
        clone_ty(self)
    }
}

/// Copy of a scheme.
pub fn clone_scheme(s: &Scheme) -> (r: Scheme)
    ensures
        r.qvars@ == s.qvars@,
        ty_same(r.ty, s.ty),
{
    Scheme { qvars: s.qvars.clone(), ty: clone_ty(&s.ty) }
}

impl Clone for Scheme {
    fn clone(&self) -> Self {
        clone_scheme(self)
    }
}

fn name_of(s: &str) -> (r: String)
    ensures
        r@ == s@,
{
    String::from_str(s)
}

impl Ty {
    /// A base type by name.
    pub fn con(s: &str) -> (t: Ty)
        ensures
            t matches Ty::Con(n) && n@ == s@,
    {
        Ty::Con(name_of(s))
    }

    pub fn int_ty() -> (t: Ty)
        ensures
            t matches Ty::Con(n) && n@ == "Int"@,
    {
        Ty::con("Int")
    }

    pub fn bool() -> (t: Ty)
        ensures
            t matches Ty::Con(n) && n@ == "Bool"@,
    {
        Ty::con("Bool")
    }

    pub fn string() -> (t: Ty)
        ensures
            t matches Ty::Con(n) && n@ == "String"@,
    {
        Ty::con("String")
    }

    pub fn unit() -> (t: Ty)
        ensures
            t matches Ty::Con(n) && n@ == "Unit"@,
    {
        Ty::con("Unit")
    }

    /// `List elem`.
    pub fn list(elem: Ty) -> (t: Ty)
        ensures
            t matches Ty::App(n, args) && n@ == "List"@ && args@ == seq![elem],
    {
        let mut v: Vec<Ty> = Vec::new();
        v.push(elem);
        Ty::App(name_of("List"), v)
    }

    /// `a -> b`.
    pub fn arrow(a: Ty, b: Ty) -> (t: Ty)
        ensures
            t == Ty::Arrow(Box::new(a), Box::new(b)),
    {
        Ty::Arrow(Box::new(a), Box::new(b))
    }
}

// ---------- small set / map helpers ----------

/// Membership in a list of variable ids.
pub fn contains_id(v: &Vec<usize>, x: usize) -> (b: bool)
    ensures
        b == v@.contains(x),
{
    let mut i: usize = 0;
    while i < v.len()
        invariant
            i <= v.len(),
            forall|j: int| 0 <= j < i ==> v@[j] != x,
        decreases v.len() - i,
    {
        if v[i] == x {
            assert(v@[i as int] == x);
            return true;
        }
        i = i + 1;
    }
    false
}

/// Adds `x` to a duplicate-free list of ids.
pub fn insert_id(v: &mut Vec<usize>, x: usize)
    ensures
        final(v)@.contains(x),
        forall|y: usize| old(v)@.contains(y) ==> final(v)@.contains(y),
        forall|y: usize| final(v)@.contains(y) ==> old(v)@.contains(y) || y == x,
{
    if !contains_id(v, x) {
        v.push(x);
        proof {
            assert(v@[v@.len() - 1] == x);
            assert forall|y: usize| old(v)@.contains(y) implies v@.contains(y) by {
                let j = choose|j: int| 0 <= j < old(v)@.len() && old(v)@[j] == y;
                assert(v@[j] == y);
            }
            assert forall|y: usize| v@.contains(y) implies old(v)@.contains(y) || y == x by {
                let j = choose|j: int| 0 <= j < v@.len() && v@[j] == y;
                if j < old(v)@.len() {
                    assert(old(v)@[j] == y);
                }
            }
        }
    }
}

/// No key occurs twice in an association list.
pub open spec fn keys_unique<V>(s: Seq<(String, V)>) -> bool {
    forall|i: int, j: int| #![trigger s[i], s[j]] 0 <= i < j < s.len() ==> s[i].0@ != s[j].0@
}

/// The association list binds the key `k` to `v`.
pub open spec fn binds<V>(s: Seq<(String, V)>, k: Seq<char>, v: V) -> bool {
    exists|i: int| #![trigger s[i]] 0 <= i < s.len() && s[i].0@ == k && s[i].1 == v
}

/// Index of the binding of `name` in an association list.
pub fn env_find(env: &Vec<(String, Scheme)>, name: &String) -> (r: Option<usize>)
    ensures
        r matches Some(i) ==> i < env.len() && env@[i as int].0@ == name@,
        r is None ==> forall|j: int| 0 <= j < env.len() ==> env@[j].0@ != name@,
{
    let mut i: usize = 0;
    while i < env.len()
        invariant
            i <= env.len(),
            forall|j: int| 0 <= j < i ==> env@[j].0@ != name@,
        decreases env.len() - i,
    {
        if env[i].0 == *name {
            return Some(i);
        }
        i = i + 1;
    }
    None
}

/// Binds `name` (replacing a previous binding of the same name), as a
/// map insert does: `name` is bound to `sch`, every other key keeps its
/// binding, and no key comes to occur twice.
pub fn env_insert(env: &mut Vec<(String, Scheme)>, name: String, sch: Scheme)
    ensures
        keys_unique(old(env)@) ==> keys_unique(final(env)@),
        binds(final(env)@, name@, sch),
        keys_unique(old(env)@) ==> forall|v: Scheme| binds(final(env)@, name@, v) ==> v == sch,
        forall|k: Seq<char>, v: Scheme| k != name@ ==> (binds(final(env)@, k, v) <==> binds(old(env)@, k, v)),
{
    let ghost e0 = env@;
    let ghost key = name@;
    match env_find(env, &name) {
        Some(i) => {
            env.set(i, (name, sch));
            proof {
                let e1 = env@;
                assert(e1[i as int].0@ == key && e1[i as int].1 == sch);
                assert forall|a: int| 0 <= a < e1.len() implies #[trigger] e1[a].0@ == e0[a].0@ by {}
                assert forall|k: Seq<char>, v: Scheme| k != key implies
                    (binds(e1, k, v) <==> binds(e0, k, v)) by {
                    if binds(e1, k, v) {
                        let j = choose|j: int| #![trigger e1[j]] 0 <= j < e1.len() && e1[j].0@ == k && e1[j].1 == v;
                        assert(e0[j] == e1[j]);
                    }
                    if binds(e0, k, v) {
                        let j = choose|j: int| #![trigger e0[j]] 0 <= j < e0.len() && e0[j].0@ == k && e0[j].1 == v;
                        assert(e0[j] == e1[j]);
                    }
                }
                if keys_unique(e0) {
                    assert forall|v: Scheme| binds(e1, key, v) implies v == sch by {
                        let j = choose|j: int| #![trigger e1[j]] 0 <= j < e1.len() && e1[j].0@ == key && e1[j].1 == v;
                        if j != i {
                            assert(e0[j].0@ == e0[i as int].0@);
                        }
                    }
                }
            }
        }
        None => {
            env.push((name, sch));
            proof {
                let e1 = env@;
                let n = e0.len() as int;
                assert(e1[n].0@ == key && e1[n].1 == sch);
                assert forall|k: Seq<char>, v: Scheme| k != key implies
                    (binds(e1, k, v) <==> binds(e0, k, v)) by {
                    if binds(e1, k, v) {
                        let j = choose|j: int| #![trigger e1[j]] 0 <= j < e1.len() && e1[j].0@ == k && e1[j].1 == v;
                        assert(e0[j] == e1[j]);
                    }
                    if binds(e0, k, v) {
                        let j = choose|j: int| #![trigger e0[j]] 0 <= j < e0.len() && e0[j].0@ == k && e0[j].1 == v;
                        assert(e0[j] == e1[j]);
                    }
                }
                assert forall|v: Scheme| binds(e1, key, v) implies v == sch by {
                    let j = choose|j: int| #![trigger e1[j]] 0 <= j < e1.len() && e1[j].0@ == key && e1[j].1 == v;
                    if j < n {
                        assert(e0[j].0@ != key);
                    }
                }
                if keys_unique(e0) {
                    assert forall|a: int, b: int| #![trigger e1[a], e1[b]] 0 <= a < b < e1.len()
                        implies e1[a].0@ != e1[b].0@ by {
                        if b == n {
                            assert(e0[a].0@ != key);
                        } else {
                            assert(e0[a] == e1[a] && e0[b] == e1[b]);
                        }
                    }
                }
            }
        }
    }
}

/// Copy of an environment.
pub fn clone_env(env: &Vec<(String, Scheme)>) -> (r: Vec<(String, Scheme)>)
    ensures
        r.len() == env.len(),
        forall|i: int| 0 <= i < r.len() ==> #[trigger] r@[i].0 == env@[i].0,
        forall|i: int| 0 <= i < r.len() ==> #[trigger] r@[i].1.qvars@ == env@[i].1.qvars@ && ty_same(r@[i].1.ty, env@[i].1.ty),
        keys_unique(env@) ==> keys_unique(r@),
{
    let mut out: Vec<(String, Scheme)> = Vec::new();
    let mut i: usize = 0;
    while i < env.len()
        invariant
            i <= env.len(),
            out.len() == i,
            forall|j: int| 0 <= j < i ==> #[trigger] out@[j].0 == env@[j].0,
            forall|j: int| 0 <= j < i ==> #[trigger] out@[j].1.qvars@ == env@[j].1.qvars@ && ty_same(out@[j].1.ty, env@[j].1.ty),
        decreases env.len() - i,
    {
        out.push((env[i].0.clone(), clone_scheme(&env[i].1)));
        i = i + 1;
    }
    proof {
        if keys_unique(env@) {
            assert forall|a: int, b: int| #![trigger out@[a], out@[b]] 0 <= a < b < out@.len()
                implies out@[a].0@ != out@[b].0@ by {
                assert(out@[a].0 == env@[a].0 && out@[b].0 == env@[b].0);
            }
        }
    }
    out
}

fn lookup_tv(scope: &Vec<(String, Tv)>, name: &String) -> (r: Option<Tv>)
    ensures
        r == crate::codegen::first_entry(scope@, name@),
{
    let mut i: usize = 0;
    proof {
        assert(scope@.subrange(0, scope@.len() as int) =~= scope@);
    }
    while i < scope.len()
        invariant
            i <= scope.len(),
            crate::codegen::first_entry(scope@, name@) == crate::codegen::first_entry(scope@.subrange(i as int, scope@.len() as int), name@),
        decreases scope.len() - i,
    {
        proof {
            assert(scope@.subrange(i as int, scope@.len() as int).drop_first() =~= scope@.subrange(i + 1, scope@.len() as int));
        }
        if scope[i].0 == *name {
            return Some(scope[i].1);
        }
        i = i + 1;
    }
    None
}

fn tydef_arity(tydefs: &Vec<(String, usize)>, name: &String) -> (r: Option<usize>)
    ensures
        r is None ==> forall|j: int| 0 <= j < tydefs.len() ==> #[trigger] tydefs@[j].0@ != name@,
        r == crate::codegen::first_entry(tydefs@, name@),
{
    let mut i: usize = 0;
    proof {
        assert(tydefs@.subrange(0, tydefs@.len() as int) =~= tydefs@);
    }
    while i < tydefs.len()
        invariant
            i <= tydefs.len(),
            forall|j: int| 0 <= j < i ==> #[trigger] tydefs@[j].0@ != name@,
            crate::codegen::first_entry(tydefs@, name@) == crate::codegen::first_entry(tydefs@.subrange(i as int, tydefs@.len() as int), name@),
        decreases tydefs.len() - i,
    {
        proof {
            assert(tydefs@.subrange(i as int, tydefs@.len() as int).drop_first() =~= tydefs@.subrange(i + 1, tydefs@.len() as int));
        }
        if tydefs[i].0 == *name {
            return Some(tydefs[i].1);
        }
        i = i + 1;
    }
    None
}

fn str_is(s: &String, lit: &str) -> (b: bool)
    ensures
        b == (s@ == lit@),
{
    let t = name_of(lit);
    *s == t
}

} // verus!

verus! {

/// Inference state: the substitution store, the typing environment, the
/// declared type constructors and the runtime constructor table.
pub struct Infer {
    cells: Vec<TvCell>,
    pub env: Vec<(String, Scheme)>,
    /// type constructor arities: name -> number of params
    pub tydefs: Vec<(String, usize)>,
    /// runtime constructor table: name -> (tag, arity)
    pub ctors: Vec<(String, (u32, usize))>,
    next_tag: u32,
    app_ctr: u64,
}

type TResult<T> = Result<T, String>;

/// The built-in types without arguments.
pub open spec fn base_type_name(n: Seq<char>) -> bool {
    n == "Int"@ || n == "Bool"@ || n == "String"@ || n == "Unit"@
}

/// The type expression `a` can be turned into a type, given the declared
/// type constructors `td` (name and arity) and the type variables in scope
/// `sc`.
pub open spec fn resolvable(td: Seq<(String, usize)>, sc: Seq<(String, Tv)>, a: TyAst) -> bool
    decreases a,
{
    match a {
        TyAst::TVar(v) => scoped_var(sc, v@) is Some,
        TyAst::TCon(n, args) => if args@.len() == 0 && base_type_name(n@) {
            true
        } else if n@ == "List"@ {
            args@.len() == 1 && resolvable(td, sc, args@[0])
        } else {
            crate::codegen::first_entry(td, n@) == Some(args@.len() as usize) && forall|i: int|
                0 <= i < args@.len() ==> resolvable(td, sc, #[trigger] args@[i])
        },
        TyAst::Arrow(x, y) => resolvable(td, sc, *x) && resolvable(td, sc, *y),
        TyAst::TTuple(ts) => forall|i: int| 0 <= i < ts@.len() ==> resolvable(td, sc, #[trigger] ts@[i]),
    }
}

/// The type variable named `v` in scope.
pub open spec fn scoped_var(sc: Seq<(String, Tv)>, v: Seq<char>) -> Option<Tv> {
    crate::codegen::first_entry(sc, v)
}

/// `t` is the type that the type expression `a` stands for: a scoped type
/// variable, a built-in type, a list, a declared constructor applied to its
/// arguments, an arrow or a tuple.
pub open spec fn resolved(td: Seq<(String, usize)>, sc: Seq<(String, Tv)>, a: TyAst, t: Ty) -> bool
    decreases a,
{
    match a {
        TyAst::TVar(v) => scoped_var(sc, v@) matches Some(tv) && t == Ty::Var(tv),
        TyAst::TCon(n, args) => if args@.len() == 0 && base_type_name(n@) {
            t matches Ty::Con(c) && c@ == n@
        } else if n@ == "List"@ {
            t matches Ty::App(m, xs) && m@ == "List"@ && xs@.len() == 1 && args@.len() == 1 && resolved(
                td,
                sc,
                args@[0],
                xs@[0],
            )
        } else {
            t matches Ty::App(m, xs) && m == n && xs@.len() == args@.len() && forall|i: int|
                0 <= i < args@.len() ==> resolved(td, sc, #[trigger] args@[i], xs@[i])
        },
        TyAst::Arrow(x, y) => t matches Ty::Arrow(p, q) && resolved(td, sc, *x, *p) && resolved(td, sc, *y, *q),
        TyAst::TTuple(ts) => t matches Ty::Tuple(xs) && xs@.len() == ts@.len() && forall|i: int|
            0 <= i < ts@.len() ==> resolved(td, sc, #[trigger] ts@[i], xs@[i]),
    }
}

/// Every type variable named in `a` is in scope `sc`.
pub open spec fn tyvars_bound(sc: Seq<(String, Tv)>, a: TyAst) -> bool
    decreases a,
{
    match a {
        TyAst::TVar(v) => scoped_var(sc, v@) is Some,
        TyAst::TCon(_, args) => forall|i: int| 0 <= i < args@.len() ==> tyvars_bound(sc, #[trigger] args@[i]),
        TyAst::TTuple(args) => forall|i: int| 0 <= i < args@.len() ==> tyvars_bound(sc, #[trigger] args@[i]),
        TyAst::Arrow(x, y) => tyvars_bound(sc, *x) && tyvars_bound(sc, *y),
    }
}

proof fn lemma_first_entry_prefix<V>(s: Seq<(String, V)>, s2: Seq<(String, V)>, n: Seq<char>)
    requires
        s.len() <= s2.len(),
        s2.subrange(0, s.len() as int) == s,
        crate::codegen::first_entry(s, n) is Some,
    ensures
        crate::codegen::first_entry(s2, n) == crate::codegen::first_entry(s, n),
    decreases s.len(),
{
    if s[0].0@ != n {
        assert(s2.drop_first().subrange(0, s.drop_first().len() as int) =~= s.drop_first());
        assert(s2[0] == s[0]);
        lemma_first_entry_prefix(s.drop_first(), s2.drop_first(), n);
    } else {
        assert(s2[0] == s[0]);
    }
}

proof fn lemma_first_entry_last<V>(s: Seq<(String, V)>, x: (String, V), n: Seq<char>)
    requires
        crate::codegen::first_entry(s, n) is None,
        x.0@ == n,
    ensures
        crate::codegen::first_entry(s.push(x), n) == Some(x.1),
    decreases s.len(),
{
    if s.len() > 0 {
        assert(s.push(x).drop_first() =~= s.drop_first().push(x));
        lemma_first_entry_last(s.drop_first(), x, n);
    }
}

proof fn lemma_bound_grows(s: Seq<(String, Tv)>, s2: Seq<(String, Tv)>, a: TyAst)
    requires
        s.len() <= s2.len(),
        s2.subrange(0, s.len() as int) == s,
        tyvars_bound(s, a),
    ensures
        tyvars_bound(s2, a),
    decreases a,
{
    match a {
        TyAst::TVar(v) => {
            lemma_first_entry_prefix(s, s2, v@);
        },
        TyAst::TCon(_, args) => {
            assert forall|i: int| 0 <= i < args@.len() implies tyvars_bound(s2, #[trigger] args@[i]) by {
                assert(decreases_to!(args => args@[i]));
                lemma_bound_grows(s, s2, args@[i]);
            }
        },
        TyAst::TTuple(args) => {
            assert forall|i: int| 0 <= i < args@.len() implies tyvars_bound(s2, #[trigger] args@[i]) by {
                assert(decreases_to!(args => args@[i]));
                lemma_bound_grows(s, s2, args@[i]);
            }
        },
        TyAst::Arrow(x, y) => {
            lemma_bound_grows(s, s2, *x);
            lemma_bound_grows(s, s2, *y);
        },
    }
}

/// The letters that name type variables when printing.
pub open spec fn letters() -> Seq<char> {
    seq!['a', 'b', 'c', 'd', 'e', 'f', 'g', 'h', 'i', 'j', 'k', 'l', 'm', 'n', 'o', 'p', 'q', 'r', 's', 't', 'u',
        'v', 'w', 'x', 'y', 'z']
}

/// The name of the `n`-th type variable met when printing: `a` to `z`,
/// then `a1` to `z1`, `a2`, ...
pub open spec fn var_name(n: nat) -> Seq<char> {
    if n < 26 {
        seq![letters()[n as int]]
    } else {
        seq![letters()[(n % 26) as int]] + crate::text::nat_digits(n / 26)
    }
}

/// The name given to variable `id` in `names`, if any (the first entry).
pub open spec fn name_given(names: Seq<(usize, String)>, id: usize) -> Option<String>
    decreases names.len(),
{
    if names.len() == 0 {
        None
    } else if names[0].0 == id {
        Some(names[0].1)
    } else {
        name_given(names.drop_first(), id)
    }
}

/// Letters used to name type variables when printing.
fn letter(n: usize) -> (c: char)
    requires
        n < 26,
    ensures
        c == letters()[n as int],
{
    let v: Vec<char> = vec!['a', 'b', 'c', 'd', 'e', 'f', 'g', 'h', 'i', 'j', 'k', 'l', 'm', 'n',
        'o', 'p', 'q', 'r', 's', 't', 'u', 'v', 'w', 'x', 'y', 'z'];
    proof {
        assert(v@ =~= letters());
    }
    v[n]
}

impl Infer {
    /// The number of type variables created so far.
    pub closed spec fn var_count(&self) -> nat {
        self.cells.len() as nat
    }

    /// Variable `v` is bound (its cell links to a type).
    pub closed spec fn is_bound(&self, v: int) -> bool {
        0 <= v < self.cells@.len() && self.cells@[v].link is Some
    }

    /// `later` keeps every binding of `self`: the same variables, and a
    /// bound variable stays bound to the same type.
    pub closed spec fn keeps_bindings(&self, later: Infer) -> bool {
        &&& later.cells@.len() >= self.cells@.len()
        &&& forall|v: int| 0 <= v < self.cells@.len() && #[trigger] self.cells@[v].link is Some
            ==> later.cells@[v].link == self.cells@[v].link
    }

    /// The tables are maps: no name occurs twice in the environment, in
    /// the type table or in the constructor table, and the constructors
    /// have distinct tags, all below the next tag to give out.
    pub closed spec fn wf(&self) -> bool {
        &&& keys_unique(self.env@)
        &&& keys_unique(self.tydefs@)
        &&& keys_unique(self.ctors@)
        &&& forall|i: int, j: int| #![trigger self.ctors@[i], self.ctors@[j]]
            0 <= i < j < self.ctors@.len() ==> self.ctors@[i].1.0 != self.ctors@[j].1.0
        &&& forall|i: int| 0 <= i < self.ctors@.len() ==> #[trigger] self.ctors@[i].1.0 < self.next_tag
    }

    /// `later` has the same environment, type table and constructor table.
    pub closed spec fn tables_same(&self, later: Infer) -> bool {
        &&& later.env == self.env
        &&& later.tydefs == self.tydefs
        &&& later.ctors == self.ctors
        &&& later.next_tag == self.next_tag
    }

    /// The substitution store: one cell per type variable.
    pub closed spec fn store(&self) -> Seq<TvCell> {
        self.cells@
    }

    /// The tag the next constructor gets; every tag given so far is below.
    pub closed spec fn tag_bound(&self) -> u32 {
        self.next_tag
    }

    /// The table of type definitions: name and number of parameters.
    pub closed spec fn tydef_table(&self) -> Seq<(String, usize)> {
        self.tydefs@
    }

    /// The typing environment: names and their schemes.
    pub closed spec fn env_table(&self) -> Seq<(String, Scheme)> {
        self.env@
    }

    /// The runtime constructor table: name, tag and arity.
    pub closed spec fn ctor_table(&self) -> Seq<(String, (u32, usize))> {
        self.ctors@
    }

    /// The runtime constructor table, taken out of the inference state.
    pub fn into_ctors(self) -> (r: Vec<(String, (u32, usize))>)
        ensures
            r@ == self.ctor_table(),
    {
        self.ctors
    }

    /// A fresh, unbound type variable.
    fn fresh(&mut self) -> (tv: Tv)
        ensures
            old(self).tables_same(*final(self)),
            tv.0 == old(self).cells.len(),
            final(self).cells.len() == old(self).cells.len() + 1,
    {
        let id = self.cells.len();
        self.cells.push(TvCell { id, link: None });
        Tv(id)
    }

    /// Follows links from `t` until an unbound variable or a non-variable.
    fn prune(&self, t: &Ty) -> (r: Ty)
        ensures
            !(*t is Var) ==> ty_same(r, *t),
            ty_same(r, walk(self.cells@, *t, self.cells@.len())),
    {
        let mut cur = clone_ty(t);
        proof {
            assert(cur is Var <==> *t is Var);
            lemma_walk_same(self.cells@, cur, *t, self.cells@.len());
        }
        let mut steps: usize = 0;
        let bound = self.cells.len();
        while steps < bound
            invariant
                bound == self.cells.len(),
                steps <= bound,
                !(*t is Var) ==> ty_same(cur, *t) && !(cur is Var),
                ty_same(walk(self.cells@, cur, (bound - steps) as nat), walk(self.cells@, *t, bound as nat)),
            decreases bound - steps,
        {
            let ghost c0 = cur;
            let next = match &cur {
                Ty::Var(tv) => {
                    if tv.0 < self.cells.len() {
                        match &self.cells[tv.0].link {
                            Some(t2) => Some(clone_ty(t2)),
                            None => None,
                        }
                    } else {
                        None
                    }
                }
                _ => None,
            };
            match next {
                Some(t2) => {
                    proof {
                        assert(c0 is Var);
                        if let Ty::Var(v) = c0 {
                            let link = self.cells@[v.0 as int].link.unwrap();
                            assert(ty_same(t2, link));
                            let k = (bound - steps) as nat;
                            assert(walk(self.cells@, c0, k) == walk(self.cells@, link, (k - 1) as nat));
                            lemma_walk_same(self.cells@, t2, link, (k - 1) as nat);
                            lemma_same_trans(walk(self.cells@, t2, (k - 1) as nat), walk(self.cells@, link, (k - 1) as nat),
                                walk(self.cells@, *t, bound as nat));
                        }
                    }
                    cur = t2;
                }
                None => {
                    proof {
                        assert(walk(self.cells@, c0, (bound - steps) as nat) == c0);
                    }
                    return cur;
                }
            }
            steps = steps + 1;
        }
        cur
    }

    // ---------- unification ----------

    fn occurs(&self, id: usize, t: &Ty, fuel: u64) -> (b: bool)
        ensures
            b == occurs_in(self.cells@, id, *t, fuel as nat),
        decreases fuel,
    {
        if fuel == 0 {
            return true;
        }
        let p = self.prune(t);
        let ghost w = walk(self.cells@, *t, self.cells@.len());
        proof {
            lemma_same_sym(p, w);
        }
        match &p {
            Ty::Var(tv) => tv.0 == id,
            Ty::Con(_) => false,
            Ty::Arrow(a, b) => {
                let r = self.occurs(id, a, fuel - 1) || self.occurs(id, b, fuel - 1);
                proof {
                    if let Ty::Arrow(a2, b2) = w {
                        lemma_occurs_same(self.cells@, id, **a, *a2, (fuel - 1) as nat);
                        lemma_occurs_same(self.cells@, id, **b, *b2, (fuel - 1) as nat);
                    }
                }
                r
            }
            Ty::Tuple(ts) | Ty::App(_, ts) => {
                let ghost ws: Seq<Ty> = match w {
                    Ty::Tuple(xs) => xs@,
                    Ty::App(_, xs) => xs@,
                    _ => Seq::empty(),
                };
                proof {
                    assert(ws.len() == ts@.len());
                    assert forall|k: int| 0 <= k < ts@.len() implies occurs_in(self.cells@, id, #[trigger] ts@[k], (fuel - 1) as nat)
                        == occurs_in(self.cells@, id, ws[k], (fuel - 1) as nat) by {
                        lemma_occurs_same(self.cells@, id, ts@[k], ws[k], (fuel - 1) as nat);
                    }
                }
                let mut i: usize = 0;
                while i < ts.len()
                    invariant
                        i <= ts.len(),
                        fuel > 0,
                        forall|k: int| 0 <= k < i ==> !occurs_in(self.cells@, id, #[trigger] ts@[k], (fuel - 1) as nat),
                        ws.len() == ts@.len(),
                        forall|k: int| 0 <= k < ts@.len() ==> occurs_in(self.cells@, id, #[trigger] ts@[k], (fuel - 1) as nat)
                            == occurs_in(self.cells@, id, ws[k], (fuel - 1) as nat),
                        w == walk(self.cells@, *t, self.cells@.len()),
                        w is Tuple || w is App,
                        ws == (match w {
                            Ty::Tuple(xs) => xs@,
                            Ty::App(_, xs) => xs@,
                            _ => Seq::<Ty>::empty(),
                        }),
                    decreases ts.len() - i,
                {
                    if self.occurs(id, &ts[i], fuel - 1) {
                        proof {
                            assert(occurs_in(self.cells@, id, ws[i as int], (fuel - 1) as nat));
                        }
                        return true;
                    }
                    i = i + 1;
                }
                proof {
                    assert forall|k: int| 0 <= k < ws.len() implies !occurs_in(self.cells@, id, #[trigger] ws[k], (fuel - 1) as nat) by {
                        assert(!occurs_in(self.cells@, id, ts@[k], (fuel - 1) as nat));
                    }
                }
                false
            }
        }
    }

    /// Makes `a` and `b` equal by binding type variables, or explains why
    /// they cannot be.  Only unbound variables get bound: every binding
    /// made before stays, and no variable is created.
    pub fn unify(&mut self, a: &Ty, b: &Ty) -> (r: TResult<()>)
        ensures
            old(self).tables_same(*final(self)),
            old(self).keeps_bindings(*final(self)),
            final(self).var_count() == old(self).var_count(),
            r matches Err(m) ==> is_unify_error(m@),
            ground(*a) && ground(*b) && depth_below(*a, TY_FUEL as nat) ==> (r is Ok <==> ty_same(*a, *b)),
            *a matches Ty::Var(v) ==> (v.0 < old(self).store().len() && old(self).store()[v.0 as int].link is None && !(*b is Var)
                ==> unify_var_outcome(old(self).store(), final(self).store(), v.0, *b, r)),
    {
        self.unify_in(a, b, TY_FUEL)
    }

    fn unify_in(&mut self, a: &Ty, b: &Ty, fuel: u64) -> (r: TResult<()>)
        ensures
            old(self).tables_same(*final(self)),
            old(self).keeps_bindings(*final(self)),
            final(self).cells@.len() == old(self).cells@.len(),
            r matches Err(m) ==> is_unify_error(m@),
            ground(*a) && ground(*b) && depth_below(*a, fuel as nat) ==> (r is Ok <==> ty_same(*a, *b)),
            *a matches Ty::Var(v) ==> (fuel > 0 && v.0 < old(self).cells@.len() && old(self).cells@[v.0 as int].link is None
                && !(*b is Var) ==> unify_var_outcome(old(self).cells@, final(self).cells@, v.0, *b, r)),
        decreases fuel, 0nat,
    {
        proof {
            lemma_keeps_refl(*self);
        }
        let ghost a0 = *a;
        let ghost b0 = *b;
        let ghost hyp = ground(a0) && ground(b0) && depth_below(a0, fuel as nat);
        if fuel == 0 {
            let m = name_of("type too deep to unify");
            proof {
                reveal_strlit("type too deep to unify");
                reveal_strlit("type too deep");
                assert(m@.subrange(0, 13) =~= "type too deep"@);
            }
            return Err(m);
        }
        let ghost c0 = self.cells@;
        let a = self.prune(a);
        let b = self.prune(b);
        proof {
            if a0 is Var && a0->Var_0.0 < c0.len() && c0[a0->Var_0.0 as int].link is None && !(b0 is Var) {
                assert(walk(c0, a0, c0.len()) == a0);
                lemma_occurs_same(c0, a0->Var_0.0, b, b0, TY_FUEL as nat);
            }
            if hyp {
                lemma_same_ground(a, a0);
                lemma_same_ground(b, b0);
                lemma_depth_same(a, a0, fuel as nat);
                lemma_same_transfer(a, a0, b, b0);
            }
        }
        match (&a, &b) {
            (Ty::Var(va), _) => {
                if let Ty::Var(vb) = &b {
                    if va.0 == vb.0 {
                        return Ok(());
                    }
                }
                if self.occurs(va.0, &b, TY_FUEL) {
                    let sa = self.show(&a);
                    let sb = self.show(&b);
                    let mut m = concat3("infinite type: cannot unify `", sa.as_str(), "` with `");
                    m.append(sb.as_str());
                    m.append("`");
                    proof {
                        reveal_strlit("infinite type: cannot unify `");
                        reveal_strlit("infinite type: ");
                        assert(m@.subrange(0, 15) =~= "infinite type: "@);
                        lemma_prefix_of_append(m@, "infinite type: "@);
                    }
                    Err(m)
                } else {
                    // only an unbound variable is bound (a pruned variable
                    // always is, unless its chain of links is a cycle)
                    if va.0 < self.cells.len() && self.cells[va.0].link.is_none() {
                        let id = va.0;
                        let bc = clone_ty(&b);
                        proof {
                            if !(b0 is Var) {
                                lemma_same_trans(bc, b, b0);
                            }
                        }
                        let cell = TvCell { id, link: Some(bc) };
                        self.cells.set(id, cell);
                    }
                    Ok(())
                }
            }
            (_, Ty::Var(_)) => self.unify_in(&b, &a, fuel - 1),
            (Ty::Con(x), Ty::Con(y)) => {
                if *x == *y {
                    Ok(())
                } else {
                    Err(self.mismatch(&a, &b))
                }
            }
            (Ty::Arrow(a1, a2), Ty::Arrow(b1, b2)) => {
                let ghost s0 = *self;
                proof {
                    reveal_with_fuel(ground, 2);
                }
                let r1 = self.unify_in(a1, b1, fuel - 1);
                if r1.is_err() {
                    return r1;
                }
                let ghost s1 = *self;
                let r2 = self.unify_in(a2, b2, fuel - 1);
                proof {
                    lemma_keeps_trans(s0, s1, *self);
                }
                r2
            }
            (Ty::Tuple(xs), Ty::Tuple(ys)) => {
                if xs.len() == ys.len() {
                    self.unify_all(xs, ys, fuel - 1)
                } else {
                    Err(self.mismatch(&a, &b))
                }
            }
            (Ty::App(n1, xs), Ty::App(n2, ys)) => {
                if *n1 == *n2 && xs.len() == ys.len() {
                    self.unify_all(xs, ys, fuel - 1)
                } else {
                    Err(self.mismatch(&a, &b))
                }
            }
            _ => Err(self.mismatch(&a, &b)),
        }
    }

    /// The message for two types that cannot be made equal.
    fn mismatch(&self, a: &Ty, b: &Ty) -> (m: String)
        ensures
            "type mismatch: "@.is_prefix_of(m@),
    {
        let sa = self.show(a);
        let sb = self.show(b);
        let mut m = concat3("type mismatch: expected `", sb.as_str(), "`, found `");
        m.append(sa.as_str());
        m.append("`");
        proof {
            reveal_strlit("type mismatch: expected `");
            reveal_strlit("type mismatch: ");
            assert(m@.subrange(0, 15) =~= "type mismatch: "@);
            lemma_prefix_of_append(m@, "type mismatch: "@);
        }
        m
    }

    fn unify_all(&mut self, xs: &Vec<Ty>, ys: &Vec<Ty>, fuel: u64) -> (r: TResult<()>)
        requires
            xs.len() == ys.len(),
        ensures
            old(self).tables_same(*final(self)),
            old(self).keeps_bindings(*final(self)),
            final(self).cells@.len() == old(self).cells@.len(),
            r matches Err(m) ==> is_unify_error(m@),
            pairs_ground(xs@, ys@, fuel as nat) ==> (r is Ok <==> forall|i: int| 0 <= i < xs.len() ==> ty_same(
                #[trigger] xs@[i],
                ys@[i],
            )),
        decreases fuel, 1nat,
    {
        let ghost s0 = *self;
        proof {
            lemma_keeps_refl(s0);
        }
        let mut i: usize = 0;
        while i < xs.len()
            invariant
                i <= xs.len(),
                xs.len() == ys.len(),
                s0 == *old(self),
                s0.tables_same(*self),
                s0.keeps_bindings(*self),
                self.cells@.len() == s0.cells@.len(),
                pairs_ground(xs@, ys@, fuel as nat) ==> forall|k: int| 0 <= k < i ==> ty_same(#[trigger] xs@[k], ys@[k]),
            decreases xs.len() - i,
        {
            let ghost s1 = *self;
            let r = self.unify_in(&xs[i], &ys[i], fuel);
            proof {
                lemma_keeps_trans(s0, s1, *self);
            }
            if r.is_err() {
                return r;
            }
            i = i + 1;
        }
        Ok(())
    }

    // ---------- generalization / instantiation ----------

    fn collect_free(&self, t: &Ty, out: &mut Vec<usize>, fuel: u64)
        ensures
            forall|y: usize| #[trigger] final(out)@.contains(y) <==> old(out)@.contains(y) || free_in(self.cells@, y, *t, fuel as nat),
        decreases fuel,
    {
        if fuel == 0 {
            return;
        }
        let p = self.prune(t);
        let ghost w = walk(self.cells@, *t, self.cells@.len());
        let ghost f = (fuel - 1) as nat;
        proof {
            lemma_same_sym(p, w);
        }
        match &p {
            Ty::Var(tv) => insert_id(out, tv.0),
            Ty::Con(_) => {},
            Ty::Arrow(a, b) => {
                self.collect_free(a, out, fuel - 1);
                self.collect_free(b, out, fuel - 1);
                proof {
                    if let Ty::Arrow(a2, b2) = w {
                        assert forall|y: usize| #[trigger] free_in(self.cells@, y, **a, f) == free_in(self.cells@, y, *a2, f)
                            && free_in(self.cells@, y, **b, f) == free_in(self.cells@, y, *b2, f) by {
                            lemma_free_same(self.cells@, y, **a, *a2, f);
                            lemma_free_same(self.cells@, y, **b, *b2, f);
                        }
                    }
                }
            }
            Ty::Tuple(ts) | Ty::App(_, ts) => {
                let ghost ws: Seq<Ty> = match w {
                    Ty::Tuple(xs) => xs@,
                    Ty::App(_, xs) => xs@,
                    _ => Seq::empty(),
                };
                proof {
                    assert(ws.len() == ts@.len());
                    assert forall|y: usize, k: int| 0 <= k < ts@.len() implies #[trigger] free_in(self.cells@, y, ts@[k], f)
                        == free_in(self.cells@, y, ws[k], f) by {
                        lemma_free_same(self.cells@, y, ts@[k], ws[k], f);
                    }
                }
                let mut i: usize = 0;
                while i < ts.len()
                    invariant
                        i <= ts.len(),
                        fuel > 0,
                        f == fuel - 1,
                        forall|y: usize| #[trigger] out@.contains(y) <==> old(out)@.contains(y) || exists|k: int|
                            0 <= k < i && free_in(self.cells@, y, #[trigger] ts@[k], f),
                    decreases ts.len() - i,
                {
                    let ghost before = out@;
                    self.collect_free(&ts[i], out, fuel - 1);
                    proof {
                        assert forall|y: usize| #[trigger] out@.contains(y) <==> old(out)@.contains(y) || exists|k: int|
                            0 <= k < i + 1 && free_in(self.cells@, y, #[trigger] ts@[k], f) by {
                            if out@.contains(y) && !old(out)@.contains(y) {
                                if before.contains(y) {
                                    let k = choose|k: int| 0 <= k < i && free_in(self.cells@, y, #[trigger] ts@[k], f);
                                    assert(0 <= k < i + 1);
                                } else {
                                    assert(free_in(self.cells@, y, ts@[i as int], f));
                                }
                            }
                            if exists|k: int| 0 <= k < i + 1 && free_in(self.cells@, y, #[trigger] ts@[k], f) {
                                let k = choose|k: int| 0 <= k < i + 1 && free_in(self.cells@, y, #[trigger] ts@[k], f);
                                if k < i {
                                    assert(before.contains(y));
                                }
                            }
                        }
                    }
                    i = i + 1;
                }
                proof {
                    assert forall|y: usize| #[trigger] out@.contains(y) <==> old(out)@.contains(y) || free_in(self.cells@, y, *t, fuel as nat) by {
                        if exists|k: int| 0 <= k < ts@.len() && free_in(self.cells@, y, #[trigger] ts@[k], f) {
                            let k = choose|k: int| 0 <= k < ts@.len() && free_in(self.cells@, y, #[trigger] ts@[k], f);
                            assert(free_in(self.cells@, y, ws[k], f));
                        }
                        if free_in(self.cells@, y, *t, fuel as nat) {
                            let k = choose|k: int| 0 <= k < ws.len() && free_in(self.cells@, y, #[trigger] ws[k], f);
                            assert(free_in(self.cells@, y, ts@[k], f));
                        }
                    }
                }
            }
        }
    }

    /// Ids of the unbound variables of `t`.
    fn free_vars_of(&self, t: &Ty) -> (s: Vec<usize>)
        ensures
            forall|y: usize| #[trigger] s@.contains(y) <==> free_in(self.cells@, y, *t, TY_FUEL as nat),
    {
        let mut s: Vec<usize> = Vec::new();
        self.collect_free(t, &mut s, TY_FUEL);
        s
    }

    fn free_in_env(&self, env: &Vec<(String, Scheme)>) -> (out: Vec<usize>)
        ensures
            forall|y: usize| #[trigger] out@.contains(y) <==> env_free(self.cells@, env@, y),
    {
        let mut out: Vec<usize> = Vec::new();
        let mut i: usize = 0;
        while i < env.len()
            invariant
                i <= env.len(),
                forall|y: usize| #[trigger] out@.contains(y) <==> env_free(self.cells@, env@.take(i as int), y),
            decreases env.len() - i,
        {
            let fv = self.free_vars_of(&env[i].1.ty);
            let ghost before = out@;
            let mut j: usize = 0;
            while j < fv.len()
                invariant
                    j <= fv.len(),
                    i < env.len(),
                    forall|y: usize| #[trigger] out@.contains(y) <==> before.contains(y) || exists|k: int|
                        0 <= k < j && #[trigger] fv@[k] == y && !env@[i as int].1.qvars@.contains(y),
                decreases fv.len() - j,
            {
                let ghost mid = out@;
                if !contains_id(&env[i].1.qvars, fv[j]) {
                    insert_id(&mut out, fv[j]);
                }
                proof {
                    assert forall|y: usize| #[trigger] out@.contains(y) <==> before.contains(y) || exists|k: int|
                        0 <= k < j + 1 && #[trigger] fv@[k] == y && !env@[i as int].1.qvars@.contains(y) by {
                        if out@.contains(y) && !before.contains(y) && !mid.contains(y) {
                            assert(fv@[j as int] == y);
                        }
                        if exists|k: int| 0 <= k < j + 1 && #[trigger] fv@[k] == y && !env@[i as int].1.qvars@.contains(y) {
                            let k = choose|k: int| 0 <= k < j + 1 && #[trigger] fv@[k] == y && !env@[i as int].1.qvars@.contains(y);
                            if k < j {
                                assert(mid.contains(y));
                            }
                        }
                    }
                }
                j = j + 1;
            }
            proof {
                let e0 = env@.take(i as int);
                let e1 = env@.take(i + 1);
                assert forall|y: usize| #[trigger] out@.contains(y) <==> env_free(self.cells@, e1, y) by {
                    if env_free(self.cells@, e1, y) {
                        let m = choose|m: int|
                            0 <= m < e1.len() && free_in(self.cells@, y, #[trigger] e1[m].1.ty, TY_FUEL as nat) && !e1[m].1.qvars@.contains(y);
                        if m < i {
                            assert(e0[m] == e1[m]);
                            assert(env_free(self.cells@, e0, y));
                        } else {
                            assert(fv@.contains(y));
                            let k = choose|k: int| 0 <= k < fv@.len() && fv@[k] == y;
                            assert(fv@[k] == y);
                        }
                    }
                    if before.contains(y) {
                        let m = choose|m: int|
                            0 <= m < e0.len() && free_in(self.cells@, y, #[trigger] e0[m].1.ty, TY_FUEL as nat) && !e0[m].1.qvars@.contains(y);
                        assert(e0[m] == e1[m]);
                    }
                    if out@.contains(y) && !before.contains(y) {
                        let k = choose|k: int| 0 <= k < fv@.len() && #[trigger] fv@[k] == y && !env@[i as int].1.qvars@.contains(y);
                        assert(fv@.contains(y));
                        assert(e1[i as int] == env@[i as int]);
                    }
                }
            }
            i = i + 1;
        }
        proof {
            assert(env@.take(env@.len() as int) =~= env@);
        }
        out
    }

    /// Binds the name of a `let` for typing its body (let polymorphism): the
    /// environment becomes `outer`, the one the `let` was typed in, with
    /// `name` bound to a scheme of the right-hand side's type `rt` that
    /// quantifies exactly the variables free in `rt` and not free in `outer`;
    /// every other name keeps its binding in `outer`.
    fn bind_let(&mut self, outer: Vec<(String, Scheme)>, name: &String, rt: Ty)
        requires
            old(self).wf(),
            keys_unique(outer@),
        ensures
            final(self).wf(),
            has_binding(final(self).env@, name@),
            forall|v: Scheme| #[trigger] binds(final(self).env@, name@, v) ==> ty_same(v.ty, rt)
                && generalizes(old(self).cells@, outer@, v),
            forall|k: Seq<char>, v: Scheme| k != name@ ==> (binds(final(self).env@, k, v) <==> binds(outer@, k, v)),
            final(self).cells == old(self).cells,
            final(self).tydefs == old(self).tydefs,
            final(self).ctors == old(self).ctors,
            final(self).next_tag == old(self).next_tag,
            final(self).app_ctr == old(self).app_ctr,
    {
        let sch = self.generalize(&outer, &rt);
        proof {
            assert forall|y: usize| #[trigger] sch.qvars@.contains(y) <==> free_in(self.cells@, y, sch.ty, TY_FUEL as nat)
                && !env_free(self.cells@, outer@, y) by {
                lemma_free_same(self.cells@, y, sch.ty, rt, TY_FUEL as nat);
            }
        }
        self.env = outer;
        let ghost g = sch;
        env_insert(&mut self.env, name.clone(), sch);
        proof {
            assert(binds(self.env@, name@, g));
        }
    }

    /// Quantifies the variables of `t` that are not free in `env`.
    fn generalize(&self, env: &Vec<(String, Scheme)>, t: &Ty) -> (s: Scheme)
        ensures
            ty_same(s.ty, *t),
            forall|y: usize| #[trigger] s.qvars@.contains(y) <==> free_in(self.cells@, y, *t, TY_FUEL as nat)
                && !env_free(self.cells@, env@, y),
    {
        let fv = self.free_vars_of(t);
        let env_fv = self.free_in_env(env);
        let mut qvars: Vec<usize> = Vec::new();
        let mut i: usize = 0;
        while i < fv.len()
            invariant
                i <= fv.len(),
                forall|y: usize| #[trigger] qvars@.contains(y) <==> exists|k: int|
                    0 <= k < i && #[trigger] fv@[k] == y && !env_fv@.contains(y),
            decreases fv.len() - i,
        {
            let ghost mid = qvars@;
            if !contains_id(&env_fv, fv[i]) {
                insert_id(&mut qvars, fv[i]);
            }
            proof {
                assert forall|y: usize| #[trigger] qvars@.contains(y) <==> exists|k: int|
                    0 <= k < i + 1 && #[trigger] fv@[k] == y && !env_fv@.contains(y) by {
                    if qvars@.contains(y) && !mid.contains(y) {
                        assert(fv@[i as int] == y);
                    }
                    if exists|k: int| 0 <= k < i + 1 && #[trigger] fv@[k] == y && !env_fv@.contains(y) {
                        let k = choose|k: int| 0 <= k < i + 1 && #[trigger] fv@[k] == y && !env_fv@.contains(y);
                        if k < i {
                            assert(mid.contains(y));
                        }
                    }
                }
            }
            i = i + 1;
        }
        proof {
            assert forall|y: usize| #[trigger] qvars@.contains(y) <==> free_in(self.cells@, y, *t, TY_FUEL as nat)
                && !env_free(self.cells@, env@, y) by {
                if free_in(self.cells@, y, *t, TY_FUEL as nat) && !env_free(self.cells@, env@, y) {
                    assert(fv@.contains(y));
                    let k = choose|k: int| 0 <= k < fv@.len() && fv@[k] == y;
                    assert(fv@[k] == y);
                }
                if qvars@.contains(y) {
                    let k = choose|k: int| 0 <= k < fv@.len() && #[trigger] fv@[k] == y && !env_fv@.contains(y);
                    assert(fv@.contains(y));
                }
            }
        }
        Scheme { qvars, ty: clone_ty(t) }
    }

    #[verifier::loop_isolation(false)]
    fn inst_go(&mut self, t: &Ty, map: &mut Vec<(usize, Tv)>, qvars: &Vec<usize>, fuel: u64) -> (r: Ty)
        ensures
            old(self).tables_same(*final(self)),
            fuel == 0 ==> ty_same(r, *t),
            fuel > 0 ==> inst_shape(walk(old(self).cells@, *t, old(self).cells@.len()), r, qvars@),
        decreases fuel, 0nat,
    {
        if fuel == 0 {
            return clone_ty(t);
        }
        let p = self.prune(t);
        proof {
            lemma_same_sym(p, walk(self.cells@, *t, self.cells@.len()));
        }
        match p {
            Ty::Var(tv) => {
                if contains_id(qvars, tv.0) {
                    let mut k: usize = 0;
                    while k < map.len()
                        invariant
                            k <= map.len(),
                        decreases map.len() - k,
                    {
                        if map[k].0 == tv.0 {
                            return Ty::Var(map[k].1);
                        }
                        k = k + 1;
                    }
                    let f = self.fresh();
                    map.push((tv.0, f));
                    Ty::Var(f)
                } else {
                    Ty::Var(tv)
                }
            }
            Ty::Con(s) => Ty::Con(s),
            Ty::Arrow(a, b) => {
                let a2 = self.inst_go(&a, map, qvars, fuel - 1);
                let b2 = self.inst_go(&b, map, qvars, fuel - 1);
                Ty::Arrow(Box::new(a2), Box::new(b2))
            }
            Ty::Tuple(ts) => Ty::Tuple(self.inst_all(&ts, map, qvars, fuel - 1)),
            Ty::App(n, ts) => Ty::App(n, self.inst_all(&ts, map, qvars, fuel - 1)),
        }
    }

    fn inst_all(&mut self, ts: &Vec<Ty>, map: &mut Vec<(usize, Tv)>, qvars: &Vec<usize>, fuel: u64) -> (r: Vec<Ty>)
        ensures
            old(self).tables_same(*final(self)),
            r.len() == ts.len(),
        decreases fuel, 1nat,
    {
        let mut out: Vec<Ty> = Vec::new();
        let mut i: usize = 0;
        while i < ts.len()
            invariant
                i <= ts.len(),
                out.len() == i,
                old(self).tables_same(*self),
            decreases ts.len() - i,
        {
            let x = self.inst_go(&ts[i], map, qvars, fuel);
            out.push(x);
            i = i + 1;
        }
        out
    }

    /// A copy of the scheme's type with fresh variables for its quantified
    /// ones.
    fn instantiate(&mut self, s: &Scheme) -> (r: Ty)
        ensures
            old(self).tables_same(*final(self)),
            inst_shape(walk(old(self).cells@, s.ty, old(self).cells@.len()), r, s.qvars@),
    {
        let mut map: Vec<(usize, Tv)> = Vec::new();
        self.inst_go(&s.ty, &mut map, &s.qvars, TY_FUEL)
    }

    // ---------- type display ----------

    /// Renders a type with variables named `a`, `b`, `c`, ...
    pub fn show(&self, t: &Ty) -> (s: String)
        ensures
            ground(*t) ==> s@ == ty_text(*t, TY_FUEL as nat),
            unbound_var_of(self.store(), *t) is Some ==> s@ == "a"@,
    {
        let mut names: Vec<(usize, String)> = Vec::new();
        let p = self.prune(t);
        proof {
            if ground(*t) {
                lemma_same_ground(p, *t);
                lemma_same_text(p, *t, TY_FUEL as nat);
            }
        }
        proof {
            if unbound_var_of(self.cells@, *t) is Some {
                assert(unbound_var_of(self.cells@, p) == unbound_var_of(self.cells@, *t));
                reveal_strlit("a");
                assert(var_name(0) =~= "a"@);
            }
        }
        show_ty(self, &p, &mut names)
    }

    fn name_for(&self, id: usize, names: &mut Vec<(usize, String)>) -> (s: String)
        ensures
            name_given(old(names)@, id) matches Some(s0) ==> s == s0 && final(names)@ == old(names)@,
            name_given(old(names)@, id) is None ==> s@ == var_name(old(names)@.len()) && final(names)@ == old(
                names,
            )@.push((id, s)),
    {
        let mut k: usize = 0;
        proof {
            assert(names@.subrange(0, names@.len() as int) =~= names@);
        }
        while k < names.len()
            invariant
                k <= names.len(),
                names@ == old(names)@,
                name_given(names@, id) == name_given(names@.subrange(k as int, names@.len() as int), id),
            decreases names.len() - k,
        {
            proof {
                assert(names@.subrange(k as int, names@.len() as int).drop_first() =~= names@.subrange(k + 1, names@.len() as int));
            }
            if names[k].0 == id {
                return names[k].1.clone();
            }
            k = k + 1;
        }
        let n = names.len();
        let s = if n < 26 {
            let v: Vec<char> = vec![letter(n)];
            proof {
                assert(v@ =~= seq![letters()[n as int]]);
            }
            crate::text::string_of(v.as_slice())
        } else {
            let v: Vec<char> = vec![letter(n % 26)];
            proof {
                assert(v@ =~= seq![letters()[(n % 26) as int]]);
            }
            let head = crate::text::string_of(v.as_slice());
            let num = u64_to_string((n / 26) as u64);
            concat(head.as_str(), num.as_str())
        };
        names.push((id, s.clone()));
        s
    }

    fn render(&self, t: &Ty, names: &mut Vec<(usize, String)>, fuel: u64) -> (s: String)
        ensures
            ground(*t) ==> s@ == ty_text(*t, fuel as nat),
            fuel > 0 ==> (unbound_var_of(self.cells@, *t) matches Some(id) ==> {
                &&& name_given(old(names)@, id) matches Some(s0) ==> s == s0 && final(names)@ == old(names)@
                &&& name_given(old(names)@, id) is None ==> s@ == var_name(old(names)@.len()) && final(names)@ == old(
                    names,
                )@.push((id, s))
            }),
        decreases fuel,
    {
        if fuel == 0 {
            return name_of("...");
        }
        let ghost t0 = *t;
        let t = self.prune(t);
        proof {
            if ground(t0) {
                lemma_same_ground(t, t0);
                lemma_same_text(t, t0, fuel as nat);
            }
            if unbound_var_of(self.cells@, t0) is Some {
                assert(t is Var && t->Var_0.0 == unbound_var_of(self.cells@, t0).unwrap());
            }
        }
        match &t {
            Ty::Var(tv) => self.name_for(tv.0, names),
            Ty::Con(s) => s.clone(),
            Ty::Arrow(a, b) => {
                let lhs = match &**a {
                    Ty::Arrow(..) => {
                        let inner = self.render(a, names, fuel - 1);
                        concat3("(", inner.as_str(), ")")
                    }
                    other => self.render(other, names, fuel - 1),
                };
                let rhs = self.render(b, names, fuel - 1);
                concat3(lhs.as_str(), " -> ", rhs.as_str())
            }
            Ty::Tuple(ts) => {
                let mut s = name_of("(");
                let mut i: usize = 0;
                while i < ts.len()
                    invariant
                        i <= ts.len(),
                        fuel > 0,
                        ground(t0) ==> forall|j: int| 0 <= j < ts@.len() ==> ground(#[trigger] ts@[j]),
                        ground(t0) ==> s@ == "("@ + tys_joined(ts@.subrange(0, i as int), (fuel - 1) as nat),
                    decreases ts.len() - i,
                {
                    let ghost s0 = s@;
                    if i > 0 {
                        s.append(", ");
                    }
                    let x = self.render(&ts[i], names, fuel - 1);
                    s.append(x.as_str());
                    proof {
                        if ground(t0) {
                            let pre = ts@.subrange(0, i + 1);
                            assert(pre.drop_last() =~= ts@.subrange(0, i as int));
                            assert(pre.last() == ts@[i as int]);
                            if i == 0 {
                                assert(pre.len() == 1 && pre[0] == ts@[0]);
                                assert(s@ =~= "("@ + tys_joined(pre, (fuel - 1) as nat));
                            } else {
                                assert(s@ =~= "("@ + tys_joined(pre, (fuel - 1) as nat));
                            }
                        }
                    }
                    i = i + 1;
                }
                s.append(")");
                proof {
                    assert(ts@.subrange(0, ts.len() as int) =~= ts@);
                }
                s
            }
            Ty::App(n, ts) => {
                if ts.len() == 0 {
                    n.clone()
                } else if str_is(n, "List") {
                    let x = self.render(&ts[0], names, fuel - 1);
                    concat3("[", x.as_str(), "]")
                } else {
                    let mut s = concat("(", n.as_str());
                    let mut i: usize = 0;
                    while i < ts.len()
                        invariant
                            i <= ts.len(),
                            fuel > 0,
                            ground(t0) ==> forall|j: int| 0 <= j < ts@.len() ==> ground(#[trigger] ts@[j]),
                            ground(t0) ==> s@ == "("@ + n@ + tys_spaced(ts@.subrange(0, i as int), (fuel - 1) as nat),
                        decreases ts.len() - i,
                    {
                        s.append(" ");
                        let x = self.render(&ts[i], names, fuel - 1);
                        s.append(x.as_str());
                        proof {
                            if ground(t0) {
                                let pre = ts@.subrange(0, i + 1);
                                assert(pre.drop_last() =~= ts@.subrange(0, i as int));
                                assert(pre.last() == ts@[i as int]);
                                assert(s@ =~= "("@ + n@ + tys_spaced(pre, (fuel - 1) as nat));
                            }
                        }
                        i = i + 1;
                    }
                    s.append(")");
                    proof {
                        assert(ts@.subrange(0, ts.len() as int) =~= ts@);
                    }
                    s
                }
            }
        }
    }

    fn count_arrows(&self, t: &Ty, fuel: u64) -> (n: usize)
        ensures
            n == arrow_count(self.cells@, *t, fuel as nat),
        decreases fuel,
    {
        if fuel == 0 {
            return 0;
        }
        let p = self.prune(t);
        match &p {
            Ty::Arrow(_, b) => {
                let k = self.count_arrows(b, fuel - 1);
                proof {
                    let w = walk(self.cells@, *t, self.cells@.len());
                    lemma_same_sym(p, w);
                    if let Ty::Arrow(_, b2) = w {
                        lemma_arrow_count_same(self.cells@, **b, *b2, (fuel - 1) as nat);
                    }
                }
                if k < usize::MAX { k + 1 } else { k }
            }
            _ => 0,
        }
    }
}

} // verus!

verus! {

/// The base type that inference gives `e` whenever `e` is typed: literals
/// have their own type, the arithmetic operators give `Int`, `++` gives
/// `String`, comparisons and the logical operators give `Bool`.
pub open spec fn result_base(e: Expr) -> Option<Seq<char>> {
    match e {
        Expr::Lit(Lit::Int(_)) => Some("Int"@),
        Expr::Lit(Lit::Bool(_)) => Some("Bool"@),
        Expr::Lit(Lit::Str(_)) => Some("String"@),
        Expr::Lit(Lit::Unit) => Some("Unit"@),
        Expr::Bin(op, _, _) => match op {
            BinOp::Add | BinOp::Sub | BinOp::Mul | BinOp::Div | BinOp::Mod => Some("Int"@),
            BinOp::Concat => Some("String"@),
            BinOp::Eq | BinOp::Neq | BinOp::Lt | BinOp::Gt | BinOp::Le | BinOp::Ge | BinOp::And
            | BinOp::Or => Some("Bool"@),
            BinOp::Cons => None,
        },
        _ => None,
    }
}

/// How an operator is written in source text.
pub open spec fn op_text(op: BinOp) -> Seq<char> {
    match op {
        BinOp::Add => "+"@,
        BinOp::Sub => "-"@,
        BinOp::Mul => "*"@,
        BinOp::Div => "/"@,
        BinOp::Mod => "%"@,
        BinOp::Concat => "++"@,
        BinOp::Cons => "::"@,
        BinOp::Eq => "=="@,
        BinOp::Neq => "!="@,
        BinOp::Lt => "<"@,
        BinOp::Gt => ">"@,
        BinOp::Le => "<="@,
        BinOp::Ge => ">="@,
        BinOp::And => "&&"@,
        BinOp::Or => "||"@,
    }
}

/// The printed name of an operator.
pub fn op_name(op: BinOp) -> (s: &'static str)
    ensures
        s@ == op_text(op),
{
    match op {
        BinOp::Add => "+",
        BinOp::Sub => "-",
        BinOp::Mul => "*",
        BinOp::Div => "/",
        BinOp::Mod => "%",
        BinOp::Concat => "++",
        BinOp::Cons => "::",
        BinOp::Eq => "==",
        BinOp::Neq => "!=",
        BinOp::Lt => "<",
        BinOp::Gt => ">",
        BinOp::Le => "<=",
        BinOp::Ge => ">=",
        BinOp::And => "&&",
        BinOp::Or => "||",
    }
}

fn prefix_err(prefix: &str, e: String) -> (s: String)
    ensures
        s@ == prefix@ + e@,
{
    concat(prefix, e.as_str())
}

fn fmt_count(n: usize) -> (s: String)
    ensures
        s@ == crate::text::nat_digits(n as nat),
{
    u64_to_string(n as u64)
}

impl Infer {
    /// A fresh inference state: the built-in `List` type with `Nil` and
    /// `Cons`, and the types of the built-in functions.
    pub fn new() -> (inf: Infer)
        ensures
            inf.wf(),
            inf.ctor_table().len() == 2,
            inf.ctor_table()[0].0@ == "Nil"@ && inf.ctor_table()[0].1 == (0u32, 0usize),
            inf.ctor_table()[1].0@ == "Cons"@ && inf.ctor_table()[1].1 == (1u32, 2usize),
            inf.tydef_table().len() == 1 && inf.tydef_table()[0].0@ == "List"@ && inf.tydef_table()[0].1 == 1,
            forall|k: Seq<char>| #[trigger] has_binding(inf.env_table(), k) <==> initial_names().contains(k),
            forall|k: Seq<char>, v: Scheme| #[trigger] binds(inf.env_table(), k, v) && builtin_fn_names().contains(k)
                ==> v.qvars@.len() == 0 && ground(v.ty),
    {
        let mut inf = Infer {
            cells: Vec::new(),
            env: Vec::new(),
            tydefs: Vec::new(),
            ctors: Vec::new(),
            next_tag: 0,
            app_ctr: 0,
        };
        // built-in List ADT: type List a = Nil | Cons a (List a)
        inf.tydefs.push((name_of("List"), 1));
        let a = inf.fresh();
        let nil_ty = Ty::list(Ty::Var(a));
        let q = inf.free_vars_of(&nil_ty);
        env_insert(&mut inf.env, name_of("Nil"), Scheme { qvars: q, ty: nil_ty });
        inf.ctors.push((name_of("Nil"), (0, 0)));
        let a = inf.fresh();
        let cons_ty = Ty::arrow(
            Ty::Var(a),
            Ty::arrow(Ty::list(Ty::Var(a)), Ty::list(Ty::Var(a))),
        );
        let q = inf.free_vars_of(&cons_ty);
        env_insert(&mut inf.env, name_of("Cons"), Scheme { qvars: q, ty: cons_ty });
        inf.ctors.push((name_of("Cons"), (1, 2)));
        inf.next_tag = 2;
        proof {
            reveal_strlit("Nil");
            reveal_strlit("Cons");
            assert(inf.ctors@[0].0@.len() == 3 && inf.ctors@[1].0@.len() == 4);
            assert(inf.ctors@[0].0@ != inf.ctors@[1].0@);
        }

        let b: Vec<(&str, Ty)> = vec![
            ("print_int", Ty::arrow(Ty::int_ty(), Ty::unit())),
            ("print_string", Ty::arrow(Ty::string(), Ty::unit())),
            ("int_to_string", Ty::arrow(Ty::int_ty(), Ty::string())),
            ("bool_to_string", Ty::arrow(Ty::bool(), Ty::string())),
            ("string_length", Ty::arrow(Ty::string(), Ty::int_ty())),
            ("str_concat", Ty::arrow(Ty::string(), Ty::arrow(Ty::string(), Ty::string()))),
            ("read_file", Ty::arrow(Ty::string(), Ty::string())),
            ("write_file", Ty::arrow(Ty::string(), Ty::arrow(Ty::string(), Ty::unit()))),
            ("exit", Ty::arrow(Ty::int_ty(), Ty::unit())),
            ("chr", Ty::arrow(Ty::int_ty(), Ty::string())),
            ("ord", Ty::arrow(Ty::string(), Ty::int_ty())),
            ("string_get", Ty::arrow(Ty::string(), Ty::arrow(Ty::int_ty(), Ty::int_ty()))),
            ("substring", Ty::arrow(
                Ty::string(),
                Ty::arrow(Ty::int_ty(), Ty::arrow(Ty::int_ty(), Ty::string())),
            )),
            ("string_to_int", Ty::arrow(Ty::string(), Ty::int_ty())),
            ("argv", Ty::arrow(Ty::int_ty(), Ty::string())),
            ("system", Ty::arrow(Ty::string(), Ty::int_ty())),
        ];
        proof {
            assert(b@.len() == 16);
            assert forall|j: int| 0 <= j < 16 implies #[trigger] b@[j].0@ == builtin_fn_names()[j] && ground(b@[j].1) by {
                reveal_with_fuel(ground, 4);
            }
            assert forall|k: Seq<char>| #[trigger] has_binding(inf.env@, k) <==> (k == "Nil"@ || k == "Cons"@) by {
                if has_binding(inf.env@, k) {
                    let v = choose|v: Scheme| binds(inf.env@, k, v);
                    assert(binds(inf.env@, k, v));
                }
            }
        }
        let mut i: usize = 0;
        while i < b.len()
            invariant
                inf.wf(),
                b@.len() == 16,
                i <= 16,
                inf.ctors@.len() == 2,
                inf.ctors@[0].0@ == "Nil"@ && inf.ctors@[0].1 == (0u32, 0usize),
                inf.ctors@[1].0@ == "Cons"@ && inf.ctors@[1].1 == (1u32, 2usize),
                inf.tydefs@.len() == 1 && inf.tydefs@[0].0@ == "List"@ && inf.tydefs@[0].1 == 1,
                forall|j: int| 0 <= j < 16 ==> #[trigger] b@[j].0@ == builtin_fn_names()[j] && ground(b@[j].1),
                forall|k: Seq<char>| #[trigger] has_binding(inf.env@, k) <==> (k == "Nil"@ || k == "Cons"@
                    || builtin_fn_names().take(i as int).contains(k)),
                forall|k: Seq<char>, v: Scheme| #[trigger] binds(inf.env@, k, v) && builtin_fn_names().take(i as int).contains(k)
                    ==> v.qvars@.len() == 0 && ground(v.ty),
            decreases b.len() - i,
        {
            let ghost e0 = inf.env@;
            let name = name_of(b[i].0);
            let ty = clone_ty(&b[i].1);
            proof {
                lemma_same_ground(ty, b@[i as int].1);
            }
            let sch = Scheme { qvars: Vec::new(), ty };
            proof {
                assert(sch.qvars@.len() == 0);
            }
            env_insert(&mut inf.env, name, sch);
            proof {
                let nm = builtin_fn_names()[i as int];
                assert(builtin_fn_names().take(i + 1) =~= builtin_fn_names().take(i as int).push(nm));
                assert forall|k: Seq<char>| #[trigger] has_binding(inf.env@, k) <==> (k == "Nil"@ || k == "Cons"@
                    || builtin_fn_names().take(i + 1).contains(k)) by {
                    if k == nm {
                        assert(binds(inf.env@, k, sch));
                        assert(builtin_fn_names().take(i + 1)[i as int] == nm);
                    } else {
                        if has_binding(inf.env@, k) {
                            let v = choose|v: Scheme| binds(inf.env@, k, v);
                            assert(binds(e0, k, v));
                        }
                        if has_binding(e0, k) {
                            let v = choose|v: Scheme| binds(e0, k, v);
                            assert(binds(inf.env@, k, v));
                        }
                        if builtin_fn_names().take(i + 1).contains(k) {
                            let j = choose|j: int| 0 <= j < i + 1 && #[trigger] builtin_fn_names().take(i + 1)[j] == k;
                            assert(builtin_fn_names().take(i as int)[j] == k);
                        }
                    }
                }
                assert forall|k: Seq<char>, v: Scheme| #[trigger] binds(inf.env@, k, v) && builtin_fn_names().take(i + 1).contains(k)
                    implies v.qvars@.len() == 0 && ground(v.ty) by {
                    if k == nm {
                        assert(v == sch);
                    } else {
                        assert(binds(e0, k, v));
                        let j = choose|j: int| 0 <= j < i + 1 && #[trigger] builtin_fn_names().take(i + 1)[j] == k;
                        assert(builtin_fn_names().take(i as int)[j] == k);
                    }
                }
            }
            i = i + 1;
        }
        proof {
            assert(builtin_fn_names().take(16) =~= builtin_fn_names());
        }
        let ghost e1 = inf.env@;
        // error : forall a. String -> a
        let a = inf.fresh();
        let err_ty = Ty::arrow(Ty::string(), Ty::Var(a));
        let q = inf.free_vars_of(&err_ty);
        env_insert(&mut inf.env, name_of("error"), Scheme { qvars: q, ty: err_ty });
        let ghost e2 = inf.env@;
        // show : forall a. a -> String
        let a = inf.fresh();
        let show_ty_ = Ty::arrow(Ty::Var(a), Ty::string());
        let q = inf.free_vars_of(&show_ty_);
        env_insert(&mut inf.env, name_of("show"), Scheme { qvars: q, ty: show_ty_ });
        proof {
            reveal_strlit("error");
            reveal_strlit("show");
            lemma_builtin_fn_names_distinct();
            let e3 = inf.env@;
            assert forall|k: Seq<char>| #[trigger] has_binding(e3, k) <==> initial_names().contains(k) by {
                lemma_initial_names(k);
                if k != "show"@ && k != "error"@ {
                    if has_binding(e3, k) {
                        let v = choose|v: Scheme| binds(e3, k, v);
                        assert(binds(e2, k, v));
                        assert(binds(e1, k, v));
                    }
                    if has_binding(e1, k) {
                        let v = choose|v: Scheme| binds(e1, k, v);
                        assert(binds(e2, k, v));
                        assert(binds(e3, k, v));
                    }
                }
            }
            assert forall|k: Seq<char>, v: Scheme| #[trigger] binds(e3, k, v) && builtin_fn_names().contains(k)
                implies v.qvars@.len() == 0 && ground(v.ty) by {
                assert(k != "show"@ && k != "error"@);
                assert(binds(e2, k, v));
                assert(binds(e1, k, v));
            }
        }
        inf
    }

    // ---------- source type conversion ----------

    #[verifier::loop_isolation(false)]
    fn resolve_tyast(&self, ast: &TyAst, scope: &Vec<(String, Tv)>) -> (r: TResult<Ty>)
        ensures
            r is Ok <==> resolvable(self.tydefs@, scope@, *ast),
            r matches Ok(t) ==> resolved(self.tydefs@, scope@, *ast, t),
        decreases ast,
    {
        match ast {
            TyAst::TVar(v) => match lookup_tv(scope, v) {
                Some(tv) => Ok(Ty::Var(tv)),
                None => Err(concat3("unbound type variable `", v.as_str(), "`")),
            },
            TyAst::TCon(name, args) => {
                if args.len() == 0 {
                    if str_is(name, "Int") {
                        return Ok(Ty::int_ty());
                    }
                    if str_is(name, "Bool") {
                        return Ok(Ty::bool());
                    }
                    if str_is(name, "String") {
                        return Ok(Ty::string());
                    }
                    if str_is(name, "Unit") {
                        return Ok(Ty::unit());
                    }
                }
                if str_is(name, "List") {
                    if args.len() != 1 {
                        return Err(name_of("`List` expects exactly one argument"));
                    }
                    proof {
                        assert(decreases_to!(args => args[0]));
                    }
                    let e = self.resolve_tyast(&args[0], scope)?;
                    return Ok(Ty::list(e));
                }
                match tydef_arity(&self.tydefs, name) {
                    Some(ar) => {
                        if ar == args.len() {
                            let mut as_: Vec<Ty> = Vec::new();
                            let mut i: usize = 0;
                            while i < args.len()
                                invariant
                                    i <= args.len(),
                                    as_@.len() == i,
                                    forall|k: int| 0 <= k < i ==> resolvable(self.tydefs@, scope@, #[trigger] args@[k]),
                                    forall|k: int| 0 <= k < i ==> resolved(self.tydefs@, scope@, #[trigger] args@[k], as_@[k]),
                                decreases args.len() - i,
                            {
                                proof {
                                    assert(decreases_to!(args => args[i as int]));
                                }
                                let t = self.resolve_tyast(&args[i], scope)?;
                                as_.push(t);
                                i = i + 1;
                            }
                            Ok(Ty::App(name.clone(), as_))
                        } else {
                            let mut m = concat3("type `", name.as_str(), "` expects ");
                            let a1 = fmt_count(ar);
                            m.append(a1.as_str());
                            m.append(" arguments, got ");
                            let a2 = fmt_count(args.len());
                            m.append(a2.as_str());
                            Err(m)
                        }
                    }
                    None => Err(concat3("unknown type `", name.as_str(), "`")),
                }
            }
            TyAst::Arrow(a, b) => {
                let ta = self.resolve_tyast(a, scope)?;
                let tb = self.resolve_tyast(b, scope)?;
                Ok(Ty::arrow(ta, tb))
            }
            TyAst::TTuple(ts) => {
                let mut out: Vec<Ty> = Vec::new();
                let mut i: usize = 0;
                while i < ts.len()
                    invariant
                        i <= ts.len(),
                        out@.len() == i,
                        forall|k: int| 0 <= k < i ==> resolvable(self.tydefs@, scope@, #[trigger] ts@[k]),
                        forall|k: int| 0 <= k < i ==> resolved(self.tydefs@, scope@, #[trigger] ts@[k], out@[k]),
                    decreases ts.len() - i,
                {
                    proof {
                        assert(decreases_to!(ts => ts[i as int]));
                    }
                    let t = self.resolve_tyast(&ts[i], scope)?;
                    out.push(t);
                    i = i + 1;
                }
                Ok(Ty::Tuple(out))
            }
        }
    }

    /// Gives every type variable named in `ast` a fresh variable in `scope`.
    #[verifier::loop_isolation(false)]
    fn fresh_scope_for_ann(&mut self, ast: &TyAst, scope: &mut Vec<(String, Tv)>)
        ensures
            old(self).tables_same(*final(self)),
            old(scope)@.len() <= final(scope)@.len(),
            final(scope)@.subrange(0, old(scope)@.len() as int) == old(scope)@,
            tyvars_bound(final(scope)@, *ast),
        decreases ast,
    {
        match ast {
            TyAst::TVar(v) => {
                if lookup_tv(scope, v).is_none() {
                    let f = self.fresh();
                    let ghost s0 = scope@;
                    scope.push((v.clone(), f));
                    proof {
                        assert(scope@.subrange(0, s0.len() as int) =~= s0);
                        lemma_first_entry_last(s0, scope@.last(), v@);
                    }
                }
            }
            TyAst::TCon(_, args) | TyAst::TTuple(args) => {
                let mut i: usize = 0;
                while i < args.len()
                    invariant
                        i <= args.len(),
                        old(self).tables_same(*self),
                        old(scope)@.len() <= scope@.len(),
                        scope@.subrange(0, old(scope)@.len() as int) == old(scope)@,
                        forall|k: int| 0 <= k < i ==> tyvars_bound(scope@, #[trigger] args@[k]),
                    decreases args.len() - i,
                {
                    proof {
                        assert(decreases_to!(args => args[i as int]));
                    }
                    let ghost s0 = scope@;
                    self.fresh_scope_for_ann(&args[i], scope);
                    proof {
                        assert forall|k: int| 0 <= k < i + 1 implies tyvars_bound(scope@, #[trigger] args@[k]) by {
                            if k < i {
                                lemma_bound_grows(s0, scope@, args@[k]);
                            }
                        }
                        assert(scope@.subrange(0, old(scope)@.len() as int) =~= scope@.subrange(0, s0.len() as int).subrange(0, old(scope)@.len() as int));
                    }
                    i = i + 1;
                }
            }
            TyAst::Arrow(a, b) => {
                self.fresh_scope_for_ann(a, scope);
                let ghost s1 = scope@;
                self.fresh_scope_for_ann(b, scope);
                proof {
                    lemma_bound_grows(s1, scope@, **a);
                    assert(scope@.subrange(0, old(scope)@.len() as int) =~= scope@.subrange(0, s1.len() as int).subrange(0, old(scope)@.len() as int));
                }
            }
        }
    }

    // ---------- program checking ----------

    /// Checks one item and adds what it defines to the environment.
    pub fn process_item(&mut self, item: &Item) -> (r: TResult<()>)
        requires
            old(self).wf(),
        ensures
            final(self).wf(),
            *item matches Item::Ty(td) ==> {
                &&& builtin_type_name(td.name@) ==> (r matches Err(m) && m@ == "cannot redefine built-in type `"@ + td.name@
                    + "`"@) && *final(self) == *old(self)
                &&& !builtin_type_name(td.name@) && (exists|j: int| 0 <= j < old(self).tydef_table().len()
                    && #[trigger] old(self).tydef_table()[j].0@ == td.name@) ==> (r matches Err(m) && m@ == "duplicate type definition `"@ + td.name@
                    + "`"@) && *final(self) == *old(self)
                &&& r is Ok ==> final(self).tydef_table().drop_last() == old(self).tydef_table()
                    && final(self).tydef_table().len() == old(self).tydef_table().len() + 1
                    && final(self).tydef_table().last().0@ == td.name@
                    && final(self).tydef_table().last().1 == td.params.len()
                &&& r is Ok && ctor_names_distinct(td) ==> forall|c: int| 0 <= c < td.ctors@.len() && td.ctors@[c].fields@.len()
                    < TY_FUEL ==> ctor_defined(final(self).ctor_table(), #[trigger] td.ctors@[c], old(self).tag_bound())
            },
            r is Ok && !(*item is Ty) ==> forall|k: Seq<char>| #[trigger] has_binding(final(self).env_table(), k) <==> (
            item_def_names(*item).contains(k) || has_binding(old(self).env_table(), k)),
            r is Ok && !(*item is Ty) ==> forall|k: Seq<char>, v: Scheme| #[trigger] binds(final(self).env_table(), k, v)
                && item_def_names(*item).contains(k) ==> generalizes(final(self).store(), old(self).env_table(), v),
    {
        match item {
            Item::Ty(td) => self.check_tydef(td),
            Item::Def(d) => {
                let defs: Vec<&Def> = vec![d];
                let ghost e0 = self.env_table();
                let schs = self.infer_def_group(&defs)?;
                let ghost e1 = self.env_table();
                let ghost sv = schs@;
                let ghost c1 = self.cells@;
                self.bind_all(schs);
                proof {
                    assert(self.store() == c1);
                    assert forall|k: Seq<char>, v: Scheme| #[trigger] binds(self.env_table(), k, v) && item_def_names(*item).contains(k)
                        implies generalizes(c1, e0, v) by {
                        lemma_last_entry_some(sv, k);
                        if let Some(x) = last_entry(sv, k) {
                            assert(v == x);
                            let i = choose|i: int| 0 <= i < sv.len() && #[trigger] sv[i].0@ == k && sv[i].1 == x;
                            assert(generalizes(c1, e0, sv[i].1));
                        } else {
                            let j = choose|j: int| 0 <= j < item_def_names(*item).len() && item_def_names(*item)[j] == k;
                            assert(sv[j].0@ == defs@[j].name@);
                            assert(false);
                        }
                    }
                    assert(defs@[0] == d);
                    assert(item_def_names(*item) =~= seq![d.name@]);
                    lemma_names_same(e1, e0);
                    assert forall|k: Seq<char>| #[trigger] has_binding(self.env_table(), k) <==> (item_def_names(*item).contains(k)
                        || has_binding(e0, k)) by {
                        lemma_last_entry_some(sv, k);
                        if item_def_names(*item).contains(k) {
                            assert(sv[0].0@ == k);
                            let x = last_entry(sv, k).unwrap();
                            assert(binds(self.env_table(), k, x));
                        } else {
                            assert(item_def_names(*item)[0] == d.name@);
                            assert forall|i: int| 0 <= i < sv.len() implies #[trigger] sv[i].0@ != k by {
                                assert(sv[i].0@ == defs@[i].name@);
                                assert(i == 0);
                            }
                            if has_binding(self.env_table(), k) {
                                let v = choose|v: Scheme| binds(self.env_table(), k, v);
                                assert(binds(e1, k, v));
                            }
                            if has_binding(e1, k) {
                                let v = choose|v: Scheme| binds(e1, k, v);
                                assert(binds(self.env_table(), k, v));
                            }
                        }
                    }
                }
                Ok(())
            }
            Item::RecGroup(ds) => {
                let mut defs: Vec<&Def> = Vec::new();
                let mut i: usize = 0;
                while i < ds.len()
                    invariant
                        i <= ds.len(),
                        defs.len() == i,
                        forall|m: int| 0 <= m < i ==> #[trigger] defs@[m] == ds@[m],
                    decreases ds.len() - i,
                {
                    defs.push(&ds[i]);
                    i = i + 1;
                }
                let ghost e0 = self.env_table();
                let schs = self.infer_def_group(&defs)?;
                let ghost e1 = self.env_table();
                let ghost sv = schs@;
                let ghost c1 = self.cells@;
                self.bind_all(schs);
                proof {
                    assert(self.store() == c1);
                    assert forall|k: Seq<char>, v: Scheme| #[trigger] binds(self.env_table(), k, v) && item_def_names(*item).contains(k)
                        implies generalizes(c1, e0, v) by {
                        lemma_last_entry_some(sv, k);
                        if let Some(x) = last_entry(sv, k) {
                            assert(v == x);
                            let i = choose|i: int| 0 <= i < sv.len() && #[trigger] sv[i].0@ == k && sv[i].1 == x;
                            assert(generalizes(c1, e0, sv[i].1));
                        } else {
                            let j = choose|j: int| 0 <= j < item_def_names(*item).len() && item_def_names(*item)[j] == k;
                            assert(sv[j].0@ == defs@[j].name@);
                            assert(false);
                        }
                    }
                    lemma_names_same(e1, e0);
                    assert forall|k: Seq<char>| #[trigger] has_binding(self.env_table(), k) <==> (item_def_names(*item).contains(k)
                        || has_binding(e0, k)) by {
                        lemma_last_entry_some(sv, k);
                        if item_def_names(*item).contains(k) {
                            let i = choose|i: int| 0 <= i < item_def_names(*item).len() && item_def_names(*item)[i] == k;
                            assert(sv[i].0@ == defs@[i].name@);
                            assert(defs@[i] == ds@[i]);
                            let x = last_entry(sv, k).unwrap();
                            assert(binds(self.env_table(), k, x));
                        } else {
                            assert forall|i: int| 0 <= i < sv.len() implies #[trigger] sv[i].0@ != k by {
                                assert(sv[i].0@ == defs@[i].name@);
                                assert(defs@[i] == ds@[i]);
                                assert(item_def_names(*item)[i] == ds@[i].name@);
                            }
                            if has_binding(self.env_table(), k) {
                                let v = choose|v: Scheme| binds(self.env_table(), k, v);
                                assert(binds(e1, k, v));
                            }
                            if has_binding(e1, k) {
                                let v = choose|v: Scheme| binds(e1, k, v);
                                assert(binds(self.env_table(), k, v));
                            }
                        }
                    }
                }
                Ok(())
            }
        }
    }

    fn bind_all(&mut self, schs: Vec<(String, Scheme)>)
        requires
            old(self).wf(),
        ensures
            final(self).wf(),
            forall|k: Seq<char>, v: Scheme| #[trigger] binds(final(self).env_table(), k, v) <==> match last_entry(schs@, k) {
                Some(x) => v == x,
                None => binds(old(self).env_table(), k, v),
            },
            final(self).tydefs == old(self).tydefs,
            final(self).ctors == old(self).ctors,
            final(self).cells == old(self).cells,
    {
        let ghost all = schs@;
        let ghost n = schs@.len();
        let mut rest = schs;
        let mut rev: Vec<(String, Scheme)> = Vec::new();
        while rest.len() > 0
            invariant
                n == all.len(),
                rev@.len() + rest@.len() == n,
                rest@ == all.subrange(0, rest@.len() as int),
                forall|t: int| 0 <= t < rev@.len() ==> #[trigger] rev@[t] == all[n - 1 - t],
            decreases rest.len(),
        {
            let ghost r0 = rest@;
            let x = rest.pop().unwrap();
            proof {
                assert(rest@ =~= all.subrange(0, rest@.len() as int));
            }
            rev.push(x);
        }
        proof {
            assert(all.subrange(0, 0) =~= Seq::<(String, Scheme)>::empty());
        }
        while rev.len() > 0
            invariant
                self.wf(),
                self.tydefs == old(self).tydefs,
                self.ctors == old(self).ctors,
                self.cells == old(self).cells,
                n == all.len(),
                rev@.len() <= n,
                forall|t: int| 0 <= t < rev@.len() ==> #[trigger] rev@[t] == all[n - 1 - t],
                forall|k: Seq<char>, v: Scheme| #[trigger] binds(self.env@, k, v) <==> match last_entry(
                    all.subrange(0, n - rev@.len()),
                    k,
                ) {
                    Some(x) => v == x,
                    None => binds(old(self).env@, k, v),
                },
            decreases rev.len(),
        {
            let ghost m = n - rev@.len();
            let ghost e0 = self.env@;
            let (nm, sc) = rev.pop().unwrap();
            proof {
                assert((nm, sc) == all[m]);
            }
            env_insert(&mut self.env, nm, sc);
            proof {
                let sub = all.subrange(0, m + 1);
                assert(sub.drop_last() =~= all.subrange(0, m));
                assert(sub.last() == all[m]);
                assert forall|k: Seq<char>, v: Scheme| #[trigger] binds(self.env@, k, v) <==> match last_entry(sub, k) {
                    Some(x) => v == x,
                    None => binds(old(self).env@, k, v),
                } by {
                    if k == all[m].0@ {
                    } else {
                        assert(binds(self.env@, k, v) <==> binds(e0, k, v));
                    }
                }
            }
        }
        proof {
            assert(all.subrange(0, n as int) =~= all);
        }
    }

    /// Checks every item of a program in order.
    pub fn check_program(&mut self, prog: &Program) -> (r: TResult<()>)
        requires
            old(self).wf(),
        ensures
            final(self).wf(),
            prog.items@.len() == 0 ==> r is Ok && *final(self) == *old(self),
    {
        let mut i: usize = 0;
        while i < prog.items.len()
            invariant
                i <= prog.items.len(),
                self.wf(),
                prog.items@.len() == 0 ==> *self == *old(self),
            decreases prog.items.len() - i,
        {
            self.process_item(&prog.items[i])?;
            i = i + 1;
        }
        Ok(())
    }

    #[verifier::spinoff_prover]
    fn check_tydef(&mut self, td: &TyDecl) -> (r: TResult<()>)
        requires
            old(self).wf(),
        ensures
            final(self).wf(),
            builtin_type_name(td.name@) ==> (r matches Err(m) && m@ == "cannot redefine built-in type `"@ + td.name@ + "`"@)
                && *final(self) == *old(self),
            !builtin_type_name(td.name@) && (exists|j: int| 0 <= j < old(self).tydefs@.len() && #[trigger] old(self).tydefs@[j].0@
                == td.name@) ==> (r matches Err(m) && m@ == "duplicate type definition `"@ + td.name@ + "`"@) && *final(self)
                == *old(self),
            r is Ok ==> {
                &&& final(self).tydefs@.len() == old(self).tydefs@.len() + 1
                &&& final(self).tydefs@.drop_last() == old(self).tydefs@
                &&& final(self).tydefs@.last().0@ == td.name@
                &&& final(self).tydefs@.last().1 == td.params.len()
            },
            r is Ok && ctor_names_distinct(*td) ==> forall|c: int| 0 <= c < td.ctors@.len() && td.ctors@[c].fields@.len()
                < TY_FUEL ==> ctor_defined(final(self).ctors@, #[trigger] td.ctors@[c], old(self).next_tag),
    {
        proof {
            reveal_strlit("Int");
            reveal_strlit("Bool");
            reveal_strlit("String");
            reveal_strlit("Unit");
            reveal_strlit("List");
        }
        if str_is(&td.name, "Int") || str_is(&td.name, "Bool") || str_is(&td.name, "String")
            || str_is(&td.name, "Unit") || str_is(&td.name, "List") {
            return Err(concat3("cannot redefine built-in type `", td.name.as_str(), "`"));
        }
        if tydef_arity(&self.tydefs, &td.name).is_some() {
            return Err(concat3("duplicate type definition `", td.name.as_str(), "`"));
        }
        let mut scope: Vec<(String, Tv)> = Vec::new();
        let mut i: usize = 0;
        while i < td.params.len()
            invariant
                i <= td.params.len(),
                self.wf(),
                self.tydefs == old(self).tydefs,
                self.next_tag == old(self).next_tag,
                forall|j: int| 0 <= j < self.tydefs.len() ==> #[trigger] self.tydefs@[j].0@ != td.name@,
            decreases td.params.len() - i,
        {
            let f = self.fresh();
            // later duplicates shadow earlier ones, as a map insert would
            let mut k: usize = 0;
            let mut found = false;
            while k < scope.len()
                invariant
                    k <= scope.len(),
                    i < td.params.len(),
                decreases scope.len() - k,
            {
                if scope[k].0 == td.params[i] {
                    scope.set(k, (td.params[i].clone(), f));
                    found = true;
                }
                k = k + 1;
            }
            if !found {
                scope.push((td.params[i].clone(), f));
            }
            i = i + 1;
        }
        let ghost t0 = self.tydefs@;
        let ghost in_len = old(self).tydefs@.len();
        proof {
            assert(t0 == old(self).tydefs@);
        }
        self.tydefs.push((td.name.clone(), td.params.len()));
        let ghost t_new = self.tydefs@;
        proof {
            assert(t_new.drop_last() =~= t0);
            let t1 = self.tydefs@;
            assert forall|a: int, b: int| #![trigger t1[a], t1[b]] 0 <= a < b < t1.len()
                implies t1[a].0@ != t1[b].0@ by {
                if b == t0.len() {
                    assert(t0[a].0@ != td.name@);
                } else {
                    assert(t0[a] == t1[a] && t0[b] == t1[b]);
                }
            }
        }

        let mut ctor_schemes: Vec<(String, Scheme)> = Vec::new();
        let ghost cells0 = self.cells@;
        let ghost next0 = self.next_tag;
        proof {
            assert(next0 == old(self).next_tag);
        }
        let mut c: usize = 0;
        while c < td.ctors.len()
            invariant
                c <= td.ctors.len(),
                self.wf(),
                self.tydefs@ == t_new,
                self.cells@ == cells0,
                self.next_tag == next0,
                !builtin_type_name(td.name@),
                forall|j: int| 0 <= j < old(self).tydefs@.len() ==> #[trigger] old(self).tydefs@[j].0@ != td.name@,
                ctor_schemes@.len() == c,
                forall|p: int| 0 <= p < c ==> #[trigger] ctor_schemes@[p].0@ == td.ctors@[p].name@ && (td.ctors@[p].fields@.len()
                    < TY_FUEL ==> arrow_count(cells0, ctor_schemes@[p].1.ty, TY_FUEL as nat) == td.ctors@[p].fields@.len()),
            decreases td.ctors.len() - c,
        {
            let cd = &td.ctors[c];
            let mut field_tys: Vec<Ty> = Vec::new();
            let mut f: usize = 0;
            while f < cd.fields.len()
                invariant
                    f <= cd.fields.len(),
                    field_tys@.len() == f,
                    self.wf(),
                    !builtin_type_name(td.name@),
                    forall|j: int| 0 <= j < old(self).tydefs@.len() ==> #[trigger] old(self).tydefs@[j].0@ != td.name@,
                decreases cd.fields.len() - f,
            {
                let t = self.resolve_tyast(&cd.fields[f], &scope)?;
                field_tys.push(t);
                f = f + 1;
            }
            let mut res_params: Vec<Ty> = Vec::new();
            let mut p: usize = 0;
            while p < td.params.len()
                invariant
                    p <= td.params.len(),
                decreases td.params.len() - p,
            {
                match lookup_tv(&scope, &td.params[p]) {
                    Some(tv) => res_params.push(Ty::Var(tv)),
                    None => {},
                }
                p = p + 1;
            }
            let mut t = Ty::App(td.name.clone(), res_params);
            let ghost nf = field_tys@.len();
            proof {
                assert(nf == cd.fields@.len());
                assert forall|fu: nat| fu > 0 implies #[trigger] arrow_count(cells0, t, fu) == 0 by {
                    assert(walk(cells0, t, cells0.len()) == t);
                }
            }
            while field_tys.len() > 0
                invariant
                    field_tys@.len() <= nf,
                    nf <= usize::MAX,
                    forall|fu: nat| fu > nf - field_tys@.len() ==> #[trigger] arrow_count(cells0, t, fu) == nf - field_tys@.len(),
                decreases field_tys.len(),
            {
                let ghost t0 = t;
                let ghost k0 = nf - field_tys@.len();
                let ft = field_tys.pop().unwrap();
                t = Ty::arrow(ft, t);
                proof {
                    assert forall|fu: nat| fu > k0 + 1 implies #[trigger] arrow_count(cells0, t, fu) == k0 + 1 by {
                        assert(walk(cells0, t, cells0.len()) == t);
                        assert(arrow_count(cells0, t0, (fu - 1) as nat) == k0);
                    }
                }
            }
            let q = self.free_vars_of(&t);
            let ghost cs0 = ctor_schemes@;
            ctor_schemes.push((cd.name.clone(), Scheme { qvars: q, ty: t }));
            proof {
                assert forall|p: int| 0 <= p < c + 1 implies #[trigger] ctor_schemes@[p].0@ == td.ctors@[p].name@ && (
                td.ctors@[p].fields@.len() < TY_FUEL ==> arrow_count(cells0, ctor_schemes@[p].1.ty, TY_FUEL as nat)
                    == td.ctors@[p].fields@.len()) by {
                    if p < c {
                        assert(ctor_schemes@[p] == cs0[p]);
                    }
                }
            }
            c = c + 1;
        }
        let mut ci: usize = 0;
        while ci < ctor_schemes.len()
            invariant
                self.wf(),
                self.tydefs@ == t_new,
                self.cells@ == cells0,
                next0 <= self.next_tag,
                ci <= ctor_schemes@.len(),
                ctor_schemes@.len() == td.ctors@.len(),
                !builtin_type_name(td.name@),
                forall|j: int| 0 <= j < old(self).tydefs@.len() ==> #[trigger] old(self).tydefs@[j].0@ != td.name@,
                forall|p: int| 0 <= p < td.ctors@.len() ==> #[trigger] ctor_schemes@[p].0@ == td.ctors@[p].name@ && (td.ctors@[p].fields@.len()
                    < TY_FUEL ==> arrow_count(cells0, ctor_schemes@[p].1.ty, TY_FUEL as nat) == td.ctors@[p].fields@.len()),
                ctor_names_distinct(*td) ==> forall|p: int| 0 <= p < ci && td.ctors@[p].fields@.len() < TY_FUEL ==> ctor_defined(
                    self.ctors@,
                    #[trigger] td.ctors@[p],
                    next0,
                ),
            decreases ctor_schemes.len() - ci,
        {
            let name = ctor_schemes[ci].0.clone();
            let sch = clone_scheme(&ctor_schemes[ci].1);
            proof {
                lemma_arrow_count_same(cells0, sch.ty, ctor_schemes@[ci as int].1.ty, TY_FUEL as nat);
            }
            let arity = self.count_arrows(&sch.ty, TY_FUEL);
            let tag = self.next_tag;
            if tag == u32::MAX {
                return Err(name_of("too many constructors"));
            }
            let ghost c0 = self.ctors@;
            proof {
                assert forall|j: int| 0 <= j < c0.len() implies #[trigger] c0[j].1.0 < tag by {
                    assert(self.ctors@[j].1.0 < self.next_tag);
                }
            }
            self.next_tag = tag + 1;
            let ghost s1 = *self;
            let mut k: usize = 0;
            let mut found = false;
            while k < self.ctors.len()
                invariant
                    k <= self.ctors.len(),
                    self.env == s1.env,
                    self.tydefs == s1.tydefs,
                    self.cells == s1.cells,
                    self.next_tag == tag + 1,
                    keys_unique(self.env@),
                    keys_unique(self.tydefs@),
                    self.ctors@.len() == c0.len(),
                    keys_unique(c0),
                    forall|j: int| 0 <= j < c0.len() ==> #[trigger] self.ctors@[j].0@ == c0[j].0@,
                    forall|j: int| 0 <= j < c0.len() && j < k && c0[j].0@ == name@
                        ==> #[trigger] self.ctors@[j].1 == (tag, arity),
                    forall|j: int| 0 <= j < c0.len() && !(j < k && c0[j].0@ == name@)
                        ==> #[trigger] self.ctors@[j] == c0[j],
                    forall|j: int| 0 <= j < c0.len() ==> #[trigger] c0[j].1.0 < tag,
                    forall|a: int, b: int| #![trigger c0[a], c0[b]] 0 <= a < b < c0.len() ==> c0[a].1.0 != c0[b].1.0,
                    found <==> exists|j: int| 0 <= j < k && #[trigger] c0[j].0@ == name@,
                decreases self.ctors.len() - k,
            {
                if self.ctors[k].0 == name {
                    self.ctors.set(k, (name.clone(), (tag, arity)));
                    found = true;
                    proof {
                        assert(self.ctors@[k as int].1 == (tag, arity));
                        assert(self.ctors@[k as int].0@ == c0[k as int].0@);
                    }
                }
                k = k + 1;
            }
            proof {
                let c1 = self.ctors@;
                assert forall|a: int, b: int| #![trigger c1[a], c1[b]] 0 <= a < b < c1.len()
                    implies c1[a].0@ != c1[b].0@ by {
                    assert(self.ctors@[a].0@ == c0[a].0@);
                    assert(self.ctors@[b].0@ == c0[b].0@);
                    assert(c0[a].0@ != c0[b].0@);
                }
                assert forall|a: int, b: int| #![trigger c1[a], c1[b]] 0 <= a < b < c1.len()
                    implies c1[a].1.0 != c1[b].1.0 by {
                    assert(c0[a].0@ != c0[b].0@);
                    assert(c0[a].1.0 < tag && c0[b].1.0 < tag);
                    assert(c0[a].1.0 != c0[b].1.0);
                    if c0[a].0@ == name@ {
                        assert(c1[a].1 == (tag, arity));
                        assert(c1[b] == c0[b]);
                    } else if c0[b].0@ == name@ {
                        assert(c1[b].1 == (tag, arity));
                        assert(c1[a] == c0[a]);
                    } else {
                        assert(c1[a] == c0[a] && c1[b] == c0[b]);
                    }
                }
                assert forall|a: int| 0 <= a < c1.len() implies #[trigger] c1[a].1.0 < self.next_tag by {
                    assert(c0[a].1.0 < tag);
                    if c0[a].0@ == name@ {
                        assert(c1[a].1 == (tag, arity));
                    } else {
                        assert(c1[a] == c0[a]);
                    }
                }
            }
            if !found {
                let ghost c1 = self.ctors@;
                self.ctors.push((name.clone(), (tag, arity)));
                proof {
                    let c2 = self.ctors@;
                    let n = c1.len() as int;
                    assert forall|a: int| 0 <= a < n implies #[trigger] c1[a].0@ != name@ by {
                        if c1[a].0@ == name@ {
                            assert(c0[a].0@ == name@);
                        }
                    }
                    assert forall|a: int, b: int| #![trigger c2[a], c2[b]] 0 <= a < b < c2.len()
                        implies c2[a].0@ != c2[b].0@ && c2[a].1.0 != c2[b].1.0 by {
                        if b == n {
                            assert(c2[a] == c1[a]);
                        } else {
                            assert(c2[a] == c1[a] && c2[b] == c1[b]);
                        }
                    }
                    assert forall|a: int| 0 <= a < c2.len() implies #[trigger] c2[a].1.0 < self.next_tag by {
                        if a < n {
                            assert(c2[a] == c1[a]);
                        }
                    }
                }
            }
            proof {
                let gc = self.ctors@;
                let cd = td.ctors@[ci as int];
                assert(name@ == cd.name@);
                if ctor_names_distinct(*td) {
                    assert forall|p: int| 0 <= p < ci + 1 && td.ctors@[p].fields@.len() < TY_FUEL implies ctor_defined(
                        gc,
                        #[trigger] td.ctors@[p],
                        next0,
                    ) by {
                        if p == ci {
                            assert(arity as int == cd.fields@.len());
                            if found {
                                let j = choose|j: int| 0 <= j < c0.len() && #[trigger] c0[j].0@ == name@;
                                assert(gc[j].1 == (tag, arity));
                                assert(gc[j].0@ == c0[j].0@);
                            } else {
                                assert(gc[gc.len() - 1].0@ == name@ && gc[gc.len() - 1].1 == (tag, arity));
                            }
                        } else {
                            assert(td.ctors@[p].name@ != cd.name@);
                            assert(ctor_defined(c0, td.ctors@[p], next0));
                            let j = choose|j: int| 0 <= j < c0.len() && c0[j].0@ == td.ctors@[p].name@
                                && c0[j].1.1 == td.ctors@[p].fields@.len() && c0[j].1.0 >= next0;
                            assert(gc[j] == c0[j]);
                        }
                    }
                }
            }
            env_insert(&mut self.env, name, sch);
            ci = ci + 1;
        }
        Ok(())
    }
}

} // verus!

verus! {

/// `p1 -> ... -> pn -> r` for the variables `ps`.
pub open spec fn arrows_from(ps: Seq<Tv>, r: Ty) -> Ty
    decreases ps.len(),
{
    if ps.len() == 0 {
        r
    } else {
        Ty::Arrow(Box::new(Ty::Var(ps[0])), Box::new(arrows_from(ps.drop_first(), r)))
    }
}

fn arrow_chain(params: &Vec<Tv>, result: &Ty) -> (t: Ty)
    ensures
        ty_same(t, arrows_from(params@, *result)),
{
    let mut full = clone_ty(result);
    let mut i: usize = params.len();
    proof {
        assert(params@.subrange(params@.len() as int, params@.len() as int) =~= Seq::<Tv>::empty());
    }
    while i > 0
        invariant
            i <= params.len(),
            ty_same(full, arrows_from(params@.subrange(i as int, params@.len() as int), *result)),
        decreases i,
    {
        i = i - 1;
        proof {
            assert(params@.subrange(i as int, params@.len() as int).drop_first() =~= params@.subrange(i + 1, params@.len() as int));
        }
        let ghost prev = full;
        full = Ty::arrow(Ty::Var(params[i]), full);
        proof {
            let ps = params@.subrange(i as int, params@.len() as int);
            assert(ps[0] == params@[i as int]);
            assert(arrows_from(ps, *result) == Ty::Arrow(Box::new(Ty::Var(ps[0])), Box::new(arrows_from(ps.drop_first(), *result))));
            assert(ty_same(Ty::Var(params@[i as int]), Ty::Var(ps[0])));
        }
    }
    proof {
        assert(params@.subrange(0, params@.len() as int) =~= params@);
    }
    full
}

impl Infer {
    /// Infers one definition or a mutually recursive group
    /// (`let rec ... and ...`), returning the generalized scheme of each
    /// member.
    #[verifier::loop_isolation(false)]
    fn infer_def_group(&mut self, defs: &Vec<&Def>) -> (r: TResult<Vec<(String, Scheme)>>)
        requires
            old(self).wf(),
        ensures
            final(self).wf(),
            (exists|a: int, b: int| 0 <= a < b < defs.len() && #[trigger] defs@[a].name@ == #[trigger] defs@[b].name@) ==> (
            r matches Err(m) && exists|a: int, b: int|
                0 <= a < b < defs.len() && #[trigger] defs@[a].name@ == #[trigger] defs@[b].name@ && m@ == "duplicate definition `"@
                    + defs@[a].name@ + "`"@),
            r matches Ok(schs) ==> {
                &&& schs.len() == defs.len()
                &&& forall|k: int| 0 <= k < defs.len() ==> #[trigger] schs@[k].0@ == defs@[k].name@
                &&& forall|k: int| 0 <= k < defs.len() ==> generalizes(final(self).cells@, old(self).env@, #[trigger] schs@[k].1)
                &&& final(self).env@.len() == old(self).env@.len()
                &&& forall|k: int| 0 <= k < old(self).env@.len() ==> #[trigger] final(self).env@[k].0 == old(self).env@[k].0
            },
    {
        // duplicate name check
        let mut i: usize = 0;
        while i < defs.len()
            invariant
                i <= defs.len(),
                self.wf(),
                *self == *old(self),
                forall|a: int, b: int| 0 <= a < i && a < b < defs.len() ==> #[trigger] defs@[a].name@ != #[trigger] defs@[b].name@,
            decreases defs.len() - i,
        {
            let mut j: usize = i + 1;
            while j < defs.len()
                invariant
                    i < defs.len(),
                    i < j <= defs.len(),
                    self.wf(),
                    forall|b: int| i < b < j ==> defs@[i as int].name@ != #[trigger] defs@[b].name@,
                decreases defs.len() - j,
            {
                if defs[i].name == defs[j].name {
                    return Err(concat3("duplicate definition `", defs[i].name.as_str(), "`"));
                }
                j = j + 1;
            }
            i = i + 1;
        }
        let outer = clone_env(&self.env);
        let ghost env0 = old(self).env@;
        proof {
            assert(self.env@ == env0);
        }

        // 1. parameter types & pattern bindings per def
        let mut all_param_tys: Vec<Vec<Tv>> = Vec::new();
        let mut all_binds: Vec<Vec<(String, Scheme)>> = Vec::new();
        let mut k: usize = 0;
        while k < defs.len()
            invariant
                k <= defs.len(),
                all_param_tys.len() == k,
                all_binds.len() == k,
                self.wf(),
            decreases defs.len() - k,
        {
            let d = defs[k];
            let mut param_tys: Vec<Tv> = Vec::new();
            let mut binds: Vec<(String, Scheme)> = Vec::new();
            let mut p: usize = 0;
            while p < d.params.len()
                invariant
                    p <= d.params.len(),
                    self.wf(),
                decreases d.params.len() - p,
            {
                let tv = self.fresh();
                param_tys.push(tv);
                self.pat_type(&d.params[p], &Ty::Var(tv), &mut binds)?;
                p = p + 1;
            }
            all_param_tys.push(param_tys);
            all_binds.push(binds);
            k = k + 1;
        }

        // 2. monomorphic placeholders for every member (rec group)
        let mut k: usize = 0;
        while k < defs.len()
            invariant
                k <= defs.len(),
                all_param_tys.len() == defs.len(),
                self.wf(),
            decreases defs.len() - k,
        {
            let d = defs[k];
            if !d.is_rec && defs.len() > 1 {
                return Err(concat3("`", d.name.as_str(), "`: all members of an `and` group must be recursive"));
            }
            let rtv = self.fresh();
            if d.is_rec {
                let t = arrow_chain(&all_param_tys[k], &Ty::Var(rtv));
                env_insert(&mut self.env, d.name.clone(), Scheme { qvars: Vec::new(), ty: t });
            }
            k = k + 1;
        }

        // 3. each member's body sees only its own parameter bindings; the
        // recursive placeholders of all members stay visible throughout.
        let mut body_tys: Vec<Ty> = Vec::new();
        let mut k: usize = 0;
        while k < defs.len()
            invariant
                k <= defs.len(),
                all_param_tys.len() == defs.len(),
                all_binds.len() == defs.len(),
                body_tys.len() == k,
                self.wf(),
            decreases defs.len() - k,
        {
            let d = defs[k];
            let pre = clone_env(&self.env);
            let mut b: usize = 0;
            while b < all_binds[k].len()
                invariant
                    k < all_binds.len(),
                    b <= all_binds[k as int].len(),
                    self.wf(),
                    keys_unique(pre@),
                decreases all_binds[k as int].len() - b,
            {
                env_insert(&mut self.env, all_binds[k][b].0.clone(), clone_scheme(&all_binds[k][b].1));
                b = b + 1;
            }
            let bt = match self.expr_type(&d.body) {
                Ok(t) => t,
                Err(e) => {
                    let mut m = concat3("in def `", d.name.as_str(), "`: ");
                    m.append(e.as_str());
                    return Err(m);
                }
            };
            self.env = pre;
            if d.is_rec {
                let full = arrow_chain(&all_param_tys[k], &bt);
                match env_find(&self.env, &d.name) {
                    Some(idx) => {
                        let recorded = clone_ty(&self.env[idx].1.ty);
                        match self.unify(&recorded, &full) {
                            Ok(()) => {},
                            Err(e) => {
                                let mut m = concat3("in `", d.name.as_str(), "`: ");
                                m.append(e.as_str());
                                return Err(m);
                            }
                        }
                    }
                    None => {},
                }
            }
            body_tys.push(bt);
            k = k + 1;
        }

        // 4. type annotations
        let mut k: usize = 0;
        while k < defs.len()
            invariant
                k <= defs.len(),
                all_param_tys.len() == defs.len(),
                body_tys.len() == defs.len(),
                self.wf(),
            decreases defs.len() - k,
        {
            let d = defs[k];
            match &d.ann {
                Some(ann) => {
                    let mut scope: Vec<(String, Tv)> = Vec::new();
                    self.fresh_scope_for_ann(ann, &mut scope);
                    let ann_ty = self.resolve_tyast(ann, &scope)?;
                    let full = arrow_chain(&all_param_tys[k], &body_tys[k]);
                    match self.unify(&full, &ann_ty) {
                        Ok(()) => {},
                        Err(e) => {
                            let mut m = concat3("annotation on `", d.name.as_str(), "`: ");
                            m.append(e.as_str());
                            return Err(m);
                        }
                    }
                }
                None => {},
            }
            k = k + 1;
        }

        // 5. restore outer env and generalize each member
        self.env = clone_env(&outer);
        let ghost env1 = self.env@;
        let mut out: Vec<(String, Scheme)> = Vec::new();
        let mut k: usize = 0;
        while k < defs.len()
            invariant
                k <= defs.len(),
                all_param_tys.len() == defs.len(),
                body_tys.len() == defs.len(),
                self.wf(),
                self.env@ == env1,
                out.len() == k,
                forall|m: int| 0 <= m < k ==> #[trigger] out@[m].0@ == defs@[m].name@,
                forall|m: int| 0 <= m < k ==> generalizes(self.cells@, outer@, #[trigger] out@[m].1),
            decreases defs.len() - k,
        {
            let full = arrow_chain(&all_param_tys[k], &body_tys[k]);
            let sch = self.generalize(&outer, &full);
            proof {
                assert forall|y: usize| #[trigger] sch.qvars@.contains(y) <==> free_in(self.cells@, y, sch.ty, TY_FUEL as nat)
                    && !env_free(self.cells@, outer@, y) by {
                    lemma_free_same(self.cells@, y, sch.ty, full, TY_FUEL as nat);
                }
            }
            let ghost o0 = out@;
            out.push((defs[k].name.clone(), sch));
            proof {
                assert(out@[k as int].0 == defs@[k as int].name);
                assert forall|m: int| 0 <= m < k + 1 implies #[trigger] out@[m].0@ == defs@[m].name@ by {
                    if m < k {
                        assert(out@[m] == o0[m]);
                    }
                }
                assert forall|m: int| 0 <= m < k + 1 implies generalizes(self.cells@, outer@, #[trigger] out@[m].1) by {
                    if m < k {
                        assert(out@[m] == o0[m]);
                    }
                }
            }
            k = k + 1;
        }
        proof {
            lemma_env_free_same(self.cells@, outer@, env0);
            assert forall|m: int| 0 <= m < defs.len() implies generalizes(self.cells@, old(self).env@, #[trigger] out@[m].1) by {
                assert(generalizes(self.cells@, outer@, out@[m].1));
            }
        }
        Ok(out)
    }

    // ---------- pattern typing ----------

    #[verifier::loop_isolation(false)]
    fn pat_type(&mut self, pat: &Pattern, ty: &Ty, binds: &mut Vec<(String, Scheme)>) -> (r: TResult<()>)
        ensures
            old(self).tables_same(*final(self)),
            *pat is Wildcard ==> r is Ok && final(binds)@ == old(binds)@,
            *pat matches Pattern::Var(n) ==> {
                &&& r is Ok
                &&& exists|v: Scheme| crate::infer::binds(final(binds)@, n@, v) && v.qvars@.len() == 0 && ty_same(v.ty, *ty)
                &&& forall|k: Seq<char>, v: Scheme| k != n@ ==> (crate::infer::binds(final(binds)@, k, v) <==> crate::infer::binds(
                    old(binds)@,
                    k,
                    v,
                ))
            },
            *pat matches Pattern::PLit(l) ==> (ground(*ty) && depth_below(*ty, TY_FUEL as nat) ==> (r is Ok <==> (
            *ty matches Ty::Con(c) && c@ == lit_type_name(l)))),
            *pat matches Pattern::PCtor(name, _) ==> ((forall|j: int| 0 <= j < old(self).env_table().len() ==> #[trigger] old(
                self,
            ).env_table()[j].0@ != name@) ==> (r matches Err(m) && m@ == "unknown constructor `"@ + name@ + "`"@)),
        decreases pat,
    {
        match pat {
            Pattern::Wildcard => Ok(()),
            Pattern::Var(n) => {
                let sch = Scheme { qvars: Vec::new(), ty: clone_ty(ty) };
                proof {
                    assert(sch.qvars@.len() == 0);
                }
                env_insert(binds, n.clone(), sch);
                Ok(())
            }
            Pattern::PLit(Lit::Int(_)) => {
                let c = Ty::int_ty();
                proof {
                    reveal_strlit("Int");
                }
                self.unify(ty, &c)
            }
            Pattern::PLit(Lit::Bool(_)) => {
                let c = Ty::bool();
                proof {
                    reveal_strlit("Bool");
                }
                self.unify(ty, &c)
            }
            Pattern::PLit(Lit::Str(_)) => {
                let c = Ty::string();
                proof {
                    reveal_strlit("String");
                }
                self.unify(ty, &c)
            }
            Pattern::PLit(Lit::Unit) => {
                let c = Ty::unit();
                proof {
                    reveal_strlit("Unit");
                }
                self.unify(ty, &c)
            }
            Pattern::PTuple(ps) => {
                let mut ts: Vec<Ty> = Vec::new();
                let mut i: usize = 0;
                while i < ps.len()
                    invariant
                        i <= ps.len(),
                        ts.len() == i,
                        old(self).tables_same(*self),
                    decreases ps.len() - i,
                {
                    let f = self.fresh();
                    ts.push(Ty::Var(f));
                    i = i + 1;
                }
                self.unify(ty, &Ty::Tuple(clone_tys(&ts)))?;
                let mut i: usize = 0;
                while i < ps.len()
                    invariant
                        i <= ps.len(),
                        ts.len() == ps.len(),
                        old(self).tables_same(*self),
                    decreases ps.len() - i,
                {
                    proof {
                        assert(decreases_to!(ps => ps[i as int]));
                    }
                    self.pat_type(&ps[i], &ts[i], binds)?;
                    i = i + 1;
                }
                Ok(())
            }
            Pattern::PCtor(name, ps) => {
                let idx = match env_find(&self.env, name) {
                    Some(i) => i,
                    None => {
                        return Err(concat3("unknown constructor `", name.as_str(), "`"));
                    }
                };
                proof {
                    assert(self.env_table() == self.env@);
                    assert(self.env_table()[idx as int].0@ == name@);
                }
                let sch = clone_scheme(&self.env[idx].1);
                let instantiated = self.instantiate(&sch);
                // decompose argument types
                let mut args: Vec<Ty> = Vec::new();
                let mut cur = instantiated;
                let mut guard: u64 = TY_FUEL;
                while guard > 0
                    decreases guard,
                {
                    match cur {
                        Ty::Arrow(a, b) => {
                            args.push(*a);
                            cur = *b;
                        }
                        other => {
                            cur = other;
                            break;
                        }
                    }
                    guard = guard - 1;
                }
                if args.len() != ps.len() {
                    let mut m = concat3("constructor `", name.as_str(), "` expects ");
                    let a1 = fmt_count(args.len());
                    m.append(a1.as_str());
                    m.append(" argument(s), pattern gives ");
                    let a2 = fmt_count(ps.len());
                    m.append(a2.as_str());
                    return Err(m);
                }
                self.unify(ty, &cur)?;
                let mut i: usize = 0;
                while i < ps.len()
                    invariant
                        i <= ps.len(),
                        args.len() == ps.len(),
                        old(self).tables_same(*self),
                    decreases ps.len() - i,
                {
                    proof {
                        assert(decreases_to!(ps => ps[i as int]));
                    }
                    self.pat_type(&ps[i], &args[i], binds)?;
                    i = i + 1;
                }
                Ok(())
            }
        }
    }

    // ---------- expression typing ----------

    /// Infers the type of an expression in the current environment.
    #[verifier::loop_isolation(false)]
    pub fn expr_type(&mut self, e: &Expr) -> (r: TResult<Ty>)
        requires
            old(self).wf(),
        ensures
            final(self).wf(),
            *e is Lit ==> r is Ok,
            r matches Ok(t) ==> (result_base(*e) matches Some(b) ==> (t matches Ty::Con(c) && c@ == b)),
            r matches Ok(t) ==> expr_type_shape(*e, t),
            *e matches Expr::Var(n) ==> (!has_binding(old(self).env_table(), n@) ==> (r matches Err(m) && m@ == "unbound variable `"@ + n@
                + "`"@)),
            *e matches Expr::Var(n) ==> (has_binding(old(self).env_table(), n@) ==> r is Ok),
        decreases e,
    {
        match e {
            Expr::Lit(Lit::Int(_)) => Ok(Ty::int_ty()),
            Expr::Lit(Lit::Bool(_)) => Ok(Ty::bool()),
            Expr::Lit(Lit::Str(_)) => Ok(Ty::string()),
            Expr::Lit(Lit::Unit) => Ok(Ty::unit()),
            Expr::Var(n) | Expr::Ctor(n) => {
                match env_find(&self.env, n) {
                    Some(idx) => {
                        proof {
                            assert(binds(self.env_table(), n@, self.env@[idx as int].1));
                        }
                        let sch = clone_scheme(&self.env[idx].1);
                        Ok(self.instantiate(&sch))
                    }
                    None => {
                        proof {
                            if has_binding(self.env_table(), n@) {
                                let v = choose|v: Scheme| binds(self.env_table(), n@, v);
                                assert(binds(self.env_table(), n@, v));
                            }
                        }
                        Err(concat3("unbound variable `", n.as_str(), "`"))
                    }
                }
            }
            Expr::Lam(p, body) => {
                let tv = self.fresh();
                let mut binds: Vec<(String, Scheme)> = Vec::new();
                self.pat_type(p, &Ty::Var(tv), &mut binds)?;
                let outer = clone_env(&self.env);
                let mut rest = binds;
                while rest.len() > 0
                    invariant
                        self.wf(),
                    decreases rest.len(),
                {
                    let (k, v) = rest.pop().unwrap();
                    env_insert(&mut self.env, k, v);
                }
                let bt = self.expr_type(body)?;
                self.env = outer;
                Ok(Ty::arrow(Ty::Var(tv), bt))
            }
            Expr::App(f, x) => {
                let tf = self.expr_type(f)?;
                let tx = self.expr_type(x)?;
                let r = self.fresh();
                let ctr = self.app_ctr;
                if self.app_ctr < u64::MAX {
                    self.app_ctr = self.app_ctr + 1;
                }
                match self.unify(&tf, &Ty::arrow(tx, Ty::Var(r))) {
                    Ok(()) => Ok(Ty::Var(r)),
                    Err(err) => {
                        let c = u64_to_string(ctr);
                        let mut m = concat3("in application #", c.as_str(), ": ");
                        m.append(err.as_str());
                        Err(m)
                    }
                }
            }
            Expr::Bin(op, l, rt) => {
                let tl = self.expr_type(l)?;
                let tr = self.expr_type(rt)?;
                match op {
                    BinOp::Add | BinOp::Sub | BinOp::Mul | BinOp::Div | BinOp::Mod => {
                        self.bin_check(op_name(*op), &tl, &tr, Ty::int_ty())?;
                        Ok(Ty::int_ty())
                    }
                    BinOp::Concat => {
                        self.bin_check(op_name(*op), &tl, &tr, Ty::string())?;
                        Ok(Ty::string())
                    }
                    BinOp::Cons => {
                        let a = self.fresh();
                        let tl_expect = Ty::Var(a);
                        let tr_expect = Ty::list(Ty::Var(a));
                        match self.unify(&tl, &tl_expect) {
                            Ok(()) => {},
                            Err(err) => {
                                return Err(prefix_err("`::`: ", err));
                            }
                        }
                        match self.unify(&tr, &tr_expect) {
                            Ok(()) => {},
                            Err(err) => {
                                return Err(prefix_err("`::`: ", err));
                            }
                        }
                        Ok(tr_expect)
                    }
                    BinOp::Eq | BinOp::Neq => {
                        match self.unify(&tl, &tr) {
                            Ok(()) => Ok(Ty::bool()),
                            Err(err) => {
                                let mut m = concat3("`", op_name(*op), "`: ");
                                m.append(err.as_str());
                                Err(m)
                            }
                        }
                    }
                    BinOp::Lt | BinOp::Gt | BinOp::Le | BinOp::Ge => {
                        self.bin_check(op_name(*op), &tl, &tr, Ty::int_ty())?;
                        Ok(Ty::bool())
                    }
                    BinOp::And | BinOp::Or => {
                        self.bin_check(op_name(*op), &tl, &tr, Ty::bool())?;
                        Ok(Ty::bool())
                    }
                }
            }
            Expr::If(c, t, el) => {
                let tc = self.expr_type(c)?;
                match self.unify(&tc, &Ty::bool()) {
                    Ok(()) => {},
                    Err(_) => {
                        return Err(name_of("`if` condition must be Bool"));
                    }
                }
                let tt = self.expr_type(t)?;
                let te = self.expr_type(el)?;
                match self.unify(&tt, &te) {
                    Ok(()) => Ok(tt),
                    Err(err) => Err(prefix_err("if branches differ: ", err)),
                }
            }
            Expr::Case(scrut, branches) => {
                let st = self.expr_type(scrut)?;
                let result = self.fresh();
                let outer = clone_env(&self.env);
                let mut i: usize = 0;
                while i < branches.len()
                    invariant
                        i <= branches.len(),
                        self.wf(),
                    decreases branches.len() - i,
                {
                    let mut binds: Vec<(String, Scheme)> = Vec::new();
                    let istr = fmt_count(i);
                    match self.pat_type(&branches[i].0, &st, &mut binds) {
                        Ok(()) => {},
                        Err(err) => {
                            let mut m = concat3("case branch ", istr.as_str(), ": ");
                            m.append(err.as_str());
                            return Err(m);
                        }
                    }
                    let mut rest = binds;
                    while rest.len() > 0
                        invariant
                            self.wf(),
                        decreases rest.len(),
                    {
                        let (k, v) = rest.pop().unwrap();
                        env_insert(&mut self.env, k, v);
                    }
                    proof {
                        assert(decreases_to!(branches => branches[i as int]));
                    }
                    let bt = self.expr_type(&branches[i].1)?;
                    self.env = clone_env(&outer);
                    match self.unify(&bt, &Ty::Var(result)) {
                        Ok(()) => {},
                        Err(err) => {
                            let mut m = concat3("case branch ", istr.as_str(), ": ");
                            m.append(err.as_str());
                            return Err(m);
                        }
                    }
                    i = i + 1;
                }
                Ok(Ty::Var(result))
            }
            Expr::Let { is_rec, name, rhs, body } => {
                let outer = clone_env(&self.env);
                let rt = if *is_rec {
                    let tv = self.fresh();
                    env_insert(&mut self.env, name.clone(), Scheme { qvars: Vec::new(), ty: Ty::Var(tv) });
                    let t = self.expr_type(rhs)?;
                    match env_find(&self.env, name) {
                        Some(idx) => {
                            let recorded = clone_ty(&self.env[idx].1.ty);
                            self.unify(&recorded, &t)?;
                        }
                        None => {},
                    }
                    t
                } else {
                    self.expr_type(rhs)?
                };
                self.bind_let(outer, name, rt);
                self.expr_type(body)
            }
            Expr::Sequence(l, rt) => {
                let lt = self.expr_type(l)?;
                match self.unify(&lt, &Ty::unit()) {
                    Ok(()) => {},
                    Err(err) => {
                        return Err(prefix_err("left side of `;` must be Unit: ", err));
                    }
                }
                self.expr_type(rt)
            }
            Expr::Tuple(es) => {
                let mut ts: Vec<Ty> = Vec::new();
                let mut i: usize = 0;
                while i < es.len()
                    invariant
                        i <= es.len(),
                        ts@.len() == i,
                        self.wf(),
                    decreases es.len() - i,
                {
                    proof {
                        assert(decreases_to!(es => es[i as int]));
                    }
                    let t = self.expr_type(&es[i])?;
                    ts.push(t);
                    i = i + 1;
                }
                Ok(Ty::Tuple(ts))
            }
            Expr::Ann(inner, t) => {
                let mut scope: Vec<(String, Tv)> = Vec::new();
                self.fresh_scope_for_ann(t, &mut scope);
                let at = self.resolve_tyast(t, &scope)?;
                let et = self.expr_type(inner)?;
                self.unify(&et, &at)?;
                Ok(at)
            }
        }
    }

    fn bin_check(&mut self, op: &str, tl: &Ty, tr: &Ty, want: Ty) -> (r: TResult<()>)
        ensures
            old(self).tables_same(*final(self)),
            operands_ground(*tl, *tr, want) ==> (r is Ok <==> ty_same(*tl, want) && ty_same(*tr, want)),
            operands_ground(*tl, *tr, want) && !ty_same(*tl, want) ==> (r matches Err(m) && m@ == "operator `"@ + op@
                + "` expects `"@ + ty_text(want, TY_FUEL as nat) + "` operands, got left `"@ + ty_text(*tl, TY_FUEL as nat) + "`"@),
            operands_ground(*tl, *tr, want) && ty_same(*tl, want) && !ty_same(*tr, want) ==> (r matches Err(m) && m@ == "operator `"@
                + op@ + "` expects `"@ + ty_text(want, TY_FUEL as nat) + "` operands, got right `"@ + ty_text(*tr, TY_FUEL as nat)
                + "`"@),
    {
        match self.unify(tl, &want) {
            Ok(()) => {},
            Err(_) => {
                let w = self.show(&want);
                let l = self.show(tl);
                let mut m = concat3("operator `", op, "` expects `");
                m.append(w.as_str());
                m.append("` operands, got left `");
                m.append(l.as_str());
                m.append("`");
                return Err(m);
            }
        }
        match self.unify(tr, &want) {
            Ok(()) => Ok(()),
            Err(_) => {
                let w = self.show(&want);
                let rs = self.show(tr);
                let mut m = concat3("operator `", op, "` expects `");
                m.append(w.as_str());
                m.append("` operands, got right `");
                m.append(rs.as_str());
                m.append("`");
                Err(m)
            }
        }
    }
}

} // verus!

verus! {

/// Renders `t` under the substitution of `inf`, naming its variables in
/// order of appearance: `a` ... `z`, then `a1`, `b1`, ...  The names given
/// so far are in `names`, which later calls share.
pub fn show_ty(inf: &Infer, t: &Ty, names: &mut Vec<(usize, String)>) -> (s: String)
    ensures
        ground(*t) ==> s@ == ty_text(*t, TY_FUEL as nat),
        unbound_var_of(inf.store(), *t) matches Some(id) ==> {
            &&& name_given(old(names)@, id) matches Some(s0) ==> s == s0 && final(names)@ == old(names)@
            &&& name_given(old(names)@, id) is None ==> s@ == var_name(old(names)@.len()) && final(names)@ == old(
                names,
            )@.push((id, s))
        },
{
    inf.render(t, names, TY_FUEL)
}

} // verus!

verus! {

/// The messages of a failed unification: a mismatch, an infinite type, or
/// a type too deep to compare.
pub open spec fn is_unify_error(m: Seq<char>) -> bool {
    ||| "type mismatch: "@.is_prefix_of(m)
    ||| "infinite type: "@.is_prefix_of(m)
    ||| "type too deep"@.is_prefix_of(m)
}

proof fn lemma_prefix_of_append(m: Seq<char>, p: Seq<char>)
    requires
        m.len() >= p.len(),
        m.subrange(0, p.len() as int) == p,
    ensures
        p.is_prefix_of(m),
{
}

/// The tables of a well-formed state are maps: in the environment and in
/// the constructor table no name occurs twice, and no two constructors
/// share a tag.
pub proof fn lemma_tables_are_maps(inf: Infer)
    requires
        inf.wf(),
    ensures
        keys_unique(inf.env_table()),
        keys_unique(inf.ctor_table()),
        forall|i: int, j: int| #![trigger inf.ctor_table()[i], inf.ctor_table()[j]]
            0 <= i < j < inf.ctor_table().len() ==> inf.ctor_table()[i].1.0 != inf.ctor_table()[j].1.0,
{
}

proof fn lemma_keeps_refl(s: Infer)
    ensures
        s.keeps_bindings(s),
{
}

proof fn lemma_keeps_trans(a: Infer, b: Infer, c: Infer)
    requires
        a.keeps_bindings(b),
        b.keeps_bindings(c),
    ensures
        a.keeps_bindings(c),
{
    assert forall|v: int| 0 <= v < a.cells@.len() && #[trigger] a.cells@[v].link is Some
        implies c.cells@[v].link == a.cells@[v].link by {
        assert(b.cells@[v].link == a.cells@[v].link);
    }
}

} // verus!

verus! {

/// `v` is strictly increasing.
pub open spec fn strictly_increasing(v: Seq<usize>) -> bool {
    forall|i: int, j: int| 0 <= i < j < v.len() ==> #[trigger] v[i] < #[trigger] v[j]
}

/// The ids of `v`, each once, in increasing order.
fn sorted_set(v: &Vec<usize>) -> (r: Vec<usize>)
    ensures
        strictly_increasing(r@),
        forall|x: usize| r@.contains(x) <==> v@.contains(x),
{
    let mut out: Vec<usize> = Vec::new();
    let mut i: usize = 0;
    while i < v.len()
        invariant
            i <= v.len(),
            strictly_increasing(out@),
            forall|x: usize| out@.contains(x) ==> exists|j: int| 0 <= j < i && #[trigger] v@[j] == x,
            forall|j: int| 0 <= j < i ==> out@.contains(#[trigger] v@[j]),
        decreases v.len() - i,
    {
        let x = v[i];
        let ghost o0 = out@;
        // position of the first element not below x
        let mut k: usize = 0;
        while k < out.len() && out[k] < x
            invariant
                k <= out.len(),
                out@ == o0,
                forall|j: int| 0 <= j < k ==> #[trigger] out@[j] < x,
            decreases out.len() - k,
        {
            k = k + 1;
        }
        if k < out.len() && out[k] == x {
            proof {
                assert(out@[k as int] == v@[i as int]);
                assert forall|y: usize| out@.contains(y) implies exists|j: int| 0 <= j < i + 1 && #[trigger] v@[j] == y by {
                    let j = choose|j: int| 0 <= j < i && #[trigger] v@[j] == y;
                    assert(0 <= j < i + 1 && v@[j] == y);
                }
            }
        } else {
            out.insert(k, x);
            proof {
                assert forall|a: int, b: int| 0 <= a < b < out@.len() implies #[trigger] out@[a] < #[trigger] out@[b] by {
                    if b < k {
                        assert(out@[a] == o0[a] && out@[b] == o0[b]);
                    } else if b == k {
                        assert(out@[a] == o0[a]);
                    } else if a == k {
                        assert(out@[b] == o0[b - 1]);
                        assert(o0[k as int] >= x);
                        if b - 1 > k {
                            assert(o0[k as int] < o0[b - 1]);
                        }
                        assert(o0[k as int] != x);
                    } else if a < k {
                        assert(out@[a] == o0[a] && out@[b] == o0[b - 1]);
                    } else {
                        assert(out@[a] == o0[a - 1] && out@[b] == o0[b - 1]);
                    }
                }
                assert forall|y: usize| out@.contains(y) implies exists|j: int| 0 <= j < i + 1 && #[trigger] v@[j] == y by {
                    let m = choose|m: int| 0 <= m < out@.len() && out@[m] == y;
                    if m == k {
                        assert(v@[i as int] == y);
                    } else {
                        let mm = if m < k { m } else { m - 1 };
                        assert(o0[mm] == y);
                        assert(o0.contains(y));
                        let j = choose|j: int| 0 <= j < i && #[trigger] v@[j] == y;
                        assert(0 <= j < i + 1 && v@[j] == y);
                    }
                }
                assert forall|j: int| 0 <= j < i + 1 implies out@.contains(#[trigger] v@[j]) by {
                    if j == i {
                        assert(out@[k as int] == v@[j]);
                    } else {
                        assert(o0.contains(v@[j]));
                        let m = choose|m: int| 0 <= m < o0.len() && o0[m] == v@[j];
                        if m < k {
                            assert(out@[m] == v@[j]);
                        } else {
                            assert(out@[m + 1] == v@[j]);
                        }
                    }
                }
            }
        }
        i = i + 1;
    }
    proof {
        assert forall|x: usize| out@.contains(x) <==> v@.contains(x) by {
            if v@.contains(x) {
                let j = choose|j: int| 0 <= j < v@.len() && v@[j] == x;
                assert(out@.contains(v@[j]));
            }
            if out@.contains(x) {
                let j = choose|j: int| 0 <= j < v@.len() && #[trigger] v@[j] == x;
                assert(v@[j] == x);
            }
        }
    }
    out
}

/// `y` is an unbound variable of the type of the binding `e` that its
/// scheme does not quantify.
pub open spec fn leaked_by(cells: Seq<TvCell>, e: (String, Scheme), y: usize) -> bool {
    free_in(cells, y, e.1.ty, TY_FUEL as nat) && !e.1.qvars@.contains(y)
}

/// The positions, in order, of the bindings of `env` that leak a variable.
pub open spec fn leaky_entries(cells: Seq<TvCell>, env: Seq<(String, Scheme)>) -> Seq<int>
    decreases env.len(),
{
    if env.len() == 0 {
        Seq::empty()
    } else {
        let pre = leaky_entries(cells, env.drop_last());
        if exists|y: usize| leaked_by(cells, env.last(), y) {
            pre.push(env.len() - 1)
        } else {
            pre
        }
    }
}

proof fn lemma_leaky_bounds(cells: Seq<TvCell>, env: Seq<(String, Scheme)>)
    ensures
        leaky_entries(cells, env).len() <= env.len(),
        forall|k: int| 0 <= k < leaky_entries(cells, env).len() ==> 0 <= #[trigger] leaky_entries(cells, env)[k] < env.len(),
    decreases env.len(),
{
    if env.len() > 0 {
        lemma_leaky_bounds(cells, env.drop_last());
    }
}

/// A scheme of the environment whose type has variables that the scheme
/// does not quantify.
pub struct Leak {
    pub name: String,
    /// the type, as `show` writes it
    pub shown: String,
    /// the unquantified variables, in increasing order
    pub vars: Vec<usize>,
}

/// One binding of the environment, for inspection.
pub struct EnvEntry {
    pub name: String,
    /// the type, as `show` writes it
    pub shown: String,
    /// how many variables the scheme quantifies
    pub quantified: usize,
}

impl Infer {
    /// The schemes of the environment that have free variables they do not
    /// quantify (such variables are shared between definitions), in
    /// environment order.
    #[verifier::spinoff_prover]
    pub fn scan_leaks(&self) -> (r: Vec<Leak>)
        ensures
            r.len() == leaky_entries(self.store(), self.env_table()).len(),
            r.len() <= self.env_table().len(),
            forall|k: int| 0 <= k < r.len() ==> {
                let j = leaky_entries(self.store(), self.env_table())[k];
                &&& 0 <= j < self.env_table().len()
                &&& (#[trigger] r@[k]).name@ == self.env_table()[j].0@
                &&& r@[k].vars@.len() > 0
                &&& strictly_increasing(r@[k].vars@)
                &&& forall|x: usize| r@[k].vars@.contains(x) <==> leaked_by(self.store(), self.env_table()[j], x)
            },
    {
        let ghost cells = self.cells@;
        let ghost env = self.env@;
        let mut out: Vec<Leak> = Vec::new();
        let mut i: usize = 0;
        while i < self.env.len()
            invariant
                i <= self.env.len(),
                cells == self.cells@,
                env == self.env@,
                out.len() == leaky_entries(cells, env.take(i as int)).len(),
                forall|k: int| #![trigger out@[k]] #![trigger leaky_entries(cells, env.take(i as int))[k]] 0 <= k < out.len() ==> {
                    let j = leaky_entries(cells, env.take(i as int))[k];
                    &&& 0 <= j < i
                    &&& out@[k].name@ == env[j].0@
                    &&& out@[k].vars@.len() > 0
                    &&& strictly_increasing(out@[k].vars@)
                    &&& forall|x: usize| out@[k].vars@.contains(x) <==> leaked_by(cells, env[j], x)
                },
            decreases self.env.len() - i,
        {
            let fv = self.free_vars_of(&self.env[i].1.ty);
            let mut leaked: Vec<usize> = Vec::new();
            let mut j: usize = 0;
            while j < fv.len()
                invariant
                    j <= fv.len(),
                    i < self.env.len(),
                    forall|x: usize| #[trigger] leaked@.contains(x) <==> exists|m: int|
                        0 <= m < j && #[trigger] fv@[m] == x && !self.env@[i as int].1.qvars@.contains(x),
                decreases fv.len() - j,
            {
                let ghost l0 = leaked@;
                if !contains_id(&self.env[i].1.qvars, fv[j]) {
                    leaked.push(fv[j]);
                }
                proof {
                    assert forall|x: usize| #[trigger] leaked@.contains(x) <==> exists|m: int|
                        0 <= m < j + 1 && #[trigger] fv@[m] == x && !self.env@[i as int].1.qvars@.contains(x) by {
                        if leaked@.contains(x) {
                            let m = choose|m: int| 0 <= m < leaked@.len() && leaked@[m] == x;
                            if m < l0.len() {
                                assert(l0[m] == x);
                                assert(l0.contains(x));
                            } else {
                                assert(x == fv@[j as int]);
                            }
                        }
                        if exists|m: int| 0 <= m < j + 1 && #[trigger] fv@[m] == x && !self.env@[i as int].1.qvars@.contains(x) {
                            let m = choose|m: int| 0 <= m < j + 1 && #[trigger] fv@[m] == x && !self.env@[i as int].1.qvars@.contains(x);
                            if m < j {
                                assert(l0.contains(x));
                                let n = choose|n: int| 0 <= n < l0.len() && l0[n] == x;
                                assert(leaked@[n] == x);
                            } else {
                                assert(leaked@[leaked@.len() - 1] == x);
                            }
                        }
                    }
                }
                j = j + 1;
            }
            let ghost e = env[i as int];
            proof {
                assert forall|x: usize| #[trigger] leaked@.contains(x) <==> leaked_by(cells, e, x) by {
                    if leaked_by(cells, e, x) {
                        assert(fv@.contains(x));
                        let m = choose|m: int| 0 <= m < fv@.len() && fv@[m] == x;
                        assert(fv@[m] == x);
                    }
                    if leaked@.contains(x) {
                        let m = choose|m: int| 0 <= m < fv@.len() && #[trigger] fv@[m] == x && !e.1.qvars@.contains(x);
                        assert(fv@.contains(x));
                    }
                }
                let e0 = env.take(i as int);
                let e1 = env.take(i + 1);
                assert(e1.drop_last() =~= e0);
                assert(e1.last() == e);
                assert(e1.len() == i + 1);
            }
            let ghost pre = leaky_entries(cells, env.take(i as int));
            if leaked.len() > 0 {
                let vars = sorted_set(&leaked);
                proof {
                    assert(leaked@.contains(leaked@[0]));
                    assert(vars@.contains(leaked@[0]));
                    assert(leaked_by(cells, e, leaked@[0]));
                    assert(leaky_entries(cells, env.take(i + 1)) == pre.push(i as int));
                }
                let shown = self.show(&self.env[i].1.ty);
                let ghost o0 = out@;
                out.push(Leak { name: self.env[i].0.clone(), shown, vars });
                proof {
                    let idx = leaky_entries(cells, env.take(i + 1));
                    assert forall|kk: int| 0 <= kk < out.len() implies {
                        let j = idx[kk];
                        &&& 0 <= j < i + 1
                        &&& (#[trigger] out@[kk]).name@ == env[j].0@
                        &&& out@[kk].vars@.len() > 0
                        &&& strictly_increasing(out@[kk].vars@)
                        &&& forall|x: usize| out@[kk].vars@.contains(x) <==> leaked_by(cells, env[j], x)
                    } by {
                        if kk < o0.len() {
                            assert(out@[kk] == o0[kk]);
                            assert(idx[kk] == pre[kk]);
                        } else {
                            assert(idx[kk] == i);
                            assert(out@[kk].vars@ == vars@);
                        }
                    }
                }
            } else {
                proof {
                    assert forall|y: usize| !leaked_by(cells, e, y) by {
                        if leaked_by(cells, e, y) {
                            assert(leaked@.contains(y));
                        }
                    }
                    let idx = leaky_entries(cells, env.take(i + 1));
                    assert(idx == pre);
                    assert forall|kk: int| 0 <= kk < out.len() implies {
                        let j = idx[kk];
                        &&& 0 <= j < i + 1
                        &&& (#[trigger] out@[kk]).name@ == env[j].0@
                        &&& out@[kk].vars@.len() > 0
                        &&& strictly_increasing(out@[kk].vars@)
                        &&& forall|x: usize| out@[kk].vars@.contains(x) <==> leaked_by(cells, env[j], x)
                    } by {
                        assert(idx[kk] == pre[kk]);
                    }
                }
            }
            i = i + 1;
        }
        proof {
            assert(env.take(env.len() as int) =~= env);
            assert(self.env_table() == self.env@);
            assert(self.store() == self.cells@);
            lemma_leaky_bounds(cells, env);
        }
        out
    }

    /// The bindings of the environment, in environment order, with their
    /// types as `show` writes them.
    pub fn env_entries(&self) -> (r: Vec<EnvEntry>)
        ensures
            r.len() == self.env_table().len(),
            forall|i: int| 0 <= i < r.len() ==> {
                &&& (#[trigger] r@[i]).name == self.env_table()[i].0
                &&& r@[i].quantified == self.env_table()[i].1.qvars@.len()
                &&& ground(self.env_table()[i].1.ty) ==> r@[i].shown@ == ty_text(self.env_table()[i].1.ty, TY_FUEL as nat)
            },
    {
        let mut out: Vec<EnvEntry> = Vec::new();
        let mut i: usize = 0;
        while i < self.env.len()
            invariant
                i <= self.env.len(),
                out.len() == i,
                forall|k: int| 0 <= k < i ==> {
                    &&& (#[trigger] out@[k]).name == self.env@[k].0
                    &&& out@[k].quantified == self.env@[k].1.qvars@.len()
                    &&& ground(self.env@[k].1.ty) ==> out@[k].shown@ == ty_text(self.env@[k].1.ty, TY_FUEL as nat)
                },
            decreases self.env.len() - i,
        {
            let shown = self.show(&self.env[i].1.ty);
            out.push(EnvEntry { name: self.env[i].0.clone(), shown, quantified: self.env[i].1.qvars.len() });
            i = i + 1;
        }
        out
    }
}

} // verus!
