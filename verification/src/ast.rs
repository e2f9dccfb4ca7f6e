//! Abstract syntax of dacelo programs.
use vstd::prelude::*;

verus! {

/// Literal constants.
#[derive(Debug)]
pub enum Lit {
    Int(i64),
    Bool(bool),
    Str(String),
    Unit,
}

/// Patterns of `case`, `fun` and definition parameters.
#[derive(Debug)]
pub enum Pattern {
    Wildcard,
    Var(String),
    PLit(Lit),
    PTuple(Vec<Pattern>),
    /// constructor application: Ctor p1 p2 ...
    PCtor(String, Vec<Pattern>),
}

/// Infix operators.
#[derive(Debug, Clone, Copy, PartialEq, Eq, Structural)]
pub enum BinOp {
    Add,
    Sub,
    Mul,
    Div,
    Mod,
    Concat,
    Cons,
    Eq,
    Neq,
    Lt,
    Gt,
    Le,
    Ge,
    And,
    Or,
}

/// A type expression as written in source.
#[derive(Debug)]
pub enum TyAst {
    /// lowercase identifier: type variable
    TVar(String),
    /// named type constructor with arguments: Int, Tree, List a
    TCon(String, Vec<TyAst>),
    Arrow(Box<TyAst>, Box<TyAst>),
    TTuple(Vec<TyAst>),
}

impl TyAst {
    /// The list type `List t`.
    pub fn list(t: TyAst) -> (r: TyAst)
        ensures
            r matches TyAst::TCon(name, args) && name@ == "List"@ && args@ == seq![t],
    {
        let mut args: Vec<TyAst> = Vec::new();
        args.push(t);
        proof {
            reveal_strlit("List");
        }
        TyAst::TCon(String::from_str("List"), args)
    }
}

/// Expressions.
#[derive(Debug)]
pub enum Expr {
    Lit(Lit),
    Var(String),
    Ctor(String),
    Lam(Pattern, Box<Expr>),
    App(Box<Expr>, Box<Expr>),
    Bin(BinOp, Box<Expr>, Box<Expr>),
    If(Box<Expr>, Box<Expr>, Box<Expr>),
    Case(Box<Expr>, Vec<(Pattern, Expr)>),
    Let { is_rec: bool, name: String, rhs: Box<Expr>, body: Box<Expr> },
    /// sequencing: evaluate left (must be Unit), discard, evaluate right
    Sequence(Box<Expr>, Box<Expr>),
    Tuple(Vec<Expr>),
    Ann(Box<Expr>, TyAst),
}

/// A (possibly recursive) definition `let [rec] name params [: ann] = body`.
#[derive(Debug)]
pub struct Def {
    pub name: String,
    pub params: Vec<Pattern>,
    pub ann: Option<TyAst>,
    pub body: Expr,
    pub is_rec: bool,
}

/// One constructor of a type declaration.
#[derive(Debug)]
pub struct CtorDecl {
    pub name: String,
    pub fields: Vec<TyAst>,
}

/// `type Name params = | Ctor fields ...`
#[derive(Debug)]
pub struct TyDecl {
    pub name: String,
    pub params: Vec<String>,
    pub ctors: Vec<CtorDecl>,
}

/// Top-level items.
#[derive(Debug)]
pub enum Item {
    /// single definition (rec or not)
    Def(Def),
    /// mutually recursive group: `let rec f ... = ... and g ... = ...`
    RecGroup(Vec<Def>),
    Ty(TyDecl),
}

/// A whole program.
#[derive(Debug)]
pub struct Program {
    pub items: Vec<Item>,
}


/// Copy of a literal.
pub fn clone_lit(l: &Lit) -> (r: Lit)
    ensures
        r == *l,
{
    match l {
        Lit::Int(n) => Lit::Int(*n),
        Lit::Bool(b) => Lit::Bool(*b),
        Lit::Str(s) => Lit::Str(s.clone()),
        Lit::Unit => Lit::Unit,
    }
}

impl Clone for Lit {
    fn clone(&self) -> (r: Self)
        ensures
            r == *self,
    {
        clone_lit(self)
    }
}

/// `a` and `b` are the same pattern, all the way down.
pub open spec fn pat_same(a: Pattern, b: Pattern) -> bool
    decreases a,
{
    match (a, b) {
        (Pattern::Wildcard, Pattern::Wildcard) => true,
        (Pattern::Var(x), Pattern::Var(y)) => x == y,
        (Pattern::PLit(x), Pattern::PLit(y)) => x == y,
        (Pattern::PTuple(xs), Pattern::PTuple(ys)) => xs@.len() == ys@.len()
            && forall|i: int| 0 <= i < xs@.len() ==> pat_same(#[trigger] xs@[i], ys@[i]),
        (Pattern::PCtor(n, xs), Pattern::PCtor(m, ys)) => n == m && xs@.len() == ys@.len()
            && forall|i: int| 0 <= i < xs@.len() ==> pat_same(#[trigger] xs@[i], ys@[i]),
        _ => false,
    }
}

/// `a` and `b` are the same type expression, all the way down.
pub open spec fn tyast_same(a: TyAst, b: TyAst) -> bool
    decreases a,
{
    match (a, b) {
        (TyAst::TVar(x), TyAst::TVar(y)) => x == y,
        (TyAst::TCon(n, xs), TyAst::TCon(m, ys)) => n == m && xs@.len() == ys@.len()
            && forall|i: int| 0 <= i < xs@.len() ==> tyast_same(#[trigger] xs@[i], ys@[i]),
        (TyAst::Arrow(a1, a2), TyAst::Arrow(b1, b2)) => tyast_same(*a1, *b1) && tyast_same(*a2, *b2),
        (TyAst::TTuple(xs), TyAst::TTuple(ys)) => xs@.len() == ys@.len()
            && forall|i: int| 0 <= i < xs@.len() ==> tyast_same(#[trigger] xs@[i], ys@[i]),
        _ => false,
    }
}

/// `a` and `b` are the same expression, all the way down.
pub open spec fn expr_same(a: Expr, b: Expr) -> bool
    decreases a,
{
    match (a, b) {
        (Expr::Lit(x), Expr::Lit(y)) => x == y,
        (Expr::Var(x), Expr::Var(y)) => x == y,
        (Expr::Ctor(x), Expr::Ctor(y)) => x == y,
        (Expr::Lam(p, x), Expr::Lam(q, y)) => pat_same(p, q) && expr_same(*x, *y),
        (Expr::App(f, x), Expr::App(g, y)) => expr_same(*f, *g) && expr_same(*x, *y),
        (Expr::Bin(o, l, r), Expr::Bin(p, m, s)) => o == p && expr_same(*l, *m) && expr_same(*r, *s),
        (Expr::If(c, t, f), Expr::If(d, u, g)) => expr_same(*c, *d) && expr_same(*t, *u) && expr_same(*f, *g),
        (Expr::Case(x, bs), Expr::Case(y, cs)) => expr_same(*x, *y) && bs@.len() == cs@.len()
            && forall|i: int| 0 <= i < bs@.len() ==> pat_same((#[trigger] bs@[i]).0, cs@[i].0)
                && expr_same(bs@[i].1, cs@[i].1),
        (Expr::Let { is_rec: r1, name: n1, rhs: x1, body: b1 }, Expr::Let { is_rec: r2, name: n2, rhs: x2, body: b2 }) =>
            r1 == r2 && n1 == n2 && expr_same(*x1, *x2) && expr_same(*b1, *b2),
        (Expr::Sequence(l, r), Expr::Sequence(m, s)) => expr_same(*l, *m) && expr_same(*r, *s),
        (Expr::Tuple(xs), Expr::Tuple(ys)) => xs@.len() == ys@.len()
            && forall|i: int| 0 <= i < xs@.len() ==> expr_same(#[trigger] xs@[i], ys@[i]),
        (Expr::Ann(x, t), Expr::Ann(y, u)) => expr_same(*x, *y) && tyast_same(t, u),
        _ => false,
    }
}

/// Deep copy of a pattern.
pub fn clone_pattern(p: &Pattern) -> (r: Pattern)
    ensures
        pat_same(r, *p),
    decreases p,
{
    match p {
        Pattern::Wildcard => Pattern::Wildcard,
        Pattern::Var(n) => Pattern::Var(n.clone()),
        Pattern::PLit(l) => Pattern::PLit(clone_lit(l)),
        Pattern::PTuple(ps) => Pattern::PTuple(clone_patterns(ps)),
        Pattern::PCtor(n, ps) => Pattern::PCtor(n.clone(), clone_patterns(ps)),
    }
}

/// Deep copy of a list of patterns.
pub fn clone_patterns(ps: &Vec<Pattern>) -> (r: Vec<Pattern>)
    ensures
        r@.len() == ps@.len(),
        forall|i: int| 0 <= i < ps@.len() ==> pat_same(#[trigger] r@[i], ps@[i]),
    decreases ps,
{
    let mut out: Vec<Pattern> = Vec::new();
    let mut i: usize = 0;
    while i < ps.len()
        invariant
            i <= ps.len(),
            out@.len() == i,
            forall|k: int| 0 <= k < i ==> pat_same(#[trigger] out@[k], ps@[k]),
        decreases ps.len() - i,
    {
        let q = clone_pattern(&ps[i]);
        out.push(q);
        i = i + 1;
    }
    out
}

/// Deep copy of a type expression.
#[verifier::loop_isolation(false)]
pub fn clone_tyast(t: &TyAst) -> (r: TyAst)
    ensures
        tyast_same(r, *t),
    decreases t,
{
    match t {
        TyAst::TVar(v) => TyAst::TVar(v.clone()),
        TyAst::TCon(n, args) => {
            let mut out: Vec<TyAst> = Vec::new();
            let mut i: usize = 0;
            while i < args.len()
                invariant
                    i <= args.len(),
                    out@.len() == i,
                    forall|k: int| 0 <= k < i ==> tyast_same(#[trigger] out@[k], args@[k]),
                decreases args.len() - i,
            {
                proof {
                    assert(decreases_to!(args => args[i as int]));
                }
                out.push(clone_tyast(&args[i]));
                i = i + 1;
            }
            TyAst::TCon(n.clone(), out)
        }
        TyAst::Arrow(a, b) => TyAst::Arrow(Box::new(clone_tyast(a)), Box::new(clone_tyast(b))),
        TyAst::TTuple(ts) => {
            let mut out: Vec<TyAst> = Vec::new();
            let mut i: usize = 0;
            while i < ts.len()
                invariant
                    i <= ts.len(),
                    out@.len() == i,
                    forall|k: int| 0 <= k < i ==> tyast_same(#[trigger] out@[k], ts@[k]),
                decreases ts.len() - i,
            {
                proof {
                    assert(decreases_to!(ts => ts[i as int]));
                }
                out.push(clone_tyast(&ts[i]));
                i = i + 1;
            }
            TyAst::TTuple(out)
        }
    }
}

/// Deep copy of an expression.
#[verifier::loop_isolation(false)]
pub fn clone_expr(e: &Expr) -> (r: Expr)
    ensures
        expr_same(r, *e),
    decreases e,
{
    match e {
        Expr::Lit(l) => Expr::Lit(clone_lit(l)),
        Expr::Var(n) => Expr::Var(n.clone()),
        Expr::Ctor(n) => Expr::Ctor(n.clone()),
        Expr::Lam(p, b) => Expr::Lam(clone_pattern(p), Box::new(clone_expr(b))),
        Expr::App(f, x) => Expr::App(Box::new(clone_expr(f)), Box::new(clone_expr(x))),
        Expr::Bin(op, l, r) => Expr::Bin(*op, Box::new(clone_expr(l)), Box::new(clone_expr(r))),
        Expr::If(c, t, f) => Expr::If(Box::new(clone_expr(c)), Box::new(clone_expr(t)), Box::new(clone_expr(f))),
        Expr::Case(s, bs) => {
            let mut out: Vec<(Pattern, Expr)> = Vec::new();
            let mut i: usize = 0;
            while i < bs.len()
                invariant
                    i <= bs.len(),
                    out@.len() == i,
                    forall|k: int| 0 <= k < i ==> pat_same((#[trigger] out@[k]).0, bs@[k].0) && expr_same(out@[k].1, bs@[k].1),
                decreases bs.len() - i,
            {
                proof {
                    assert(decreases_to!(bs => bs[i as int]));
                }
                out.push((clone_pattern(&bs[i].0), clone_expr(&bs[i].1)));
                i = i + 1;
            }
            Expr::Case(Box::new(clone_expr(s)), out)
        }
        Expr::Let { is_rec, name, rhs, body } => Expr::Let {
            is_rec: *is_rec,
            name: name.clone(),
            rhs: Box::new(clone_expr(rhs)),
            body: Box::new(clone_expr(body)),
        },
        Expr::Sequence(l, r) => Expr::Sequence(Box::new(clone_expr(l)), Box::new(clone_expr(r))),
        Expr::Tuple(es) => {
            let mut out: Vec<Expr> = Vec::new();
            let mut i: usize = 0;
            while i < es.len()
                invariant
                    i <= es.len(),
                    out@.len() == i,
                    forall|k: int| 0 <= k < i ==> expr_same(#[trigger] out@[k], es@[k]),
                decreases es.len() - i,
            {
                proof {
                    assert(decreases_to!(es => es[i as int]));
                }
                out.push(clone_expr(&es[i]));
                i = i + 1;
            }
            Expr::Tuple(out)
        }
        Expr::Ann(x, t) => Expr::Ann(Box::new(clone_expr(x)), clone_tyast(t)),
    }
}

impl Clone for Pattern {
    fn clone(&self) -> (r: Self) {
        clone_pattern(self)
    }
}

} // verus!
