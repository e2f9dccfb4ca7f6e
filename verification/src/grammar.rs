//! The grammar of dacelo as relations between token spans and syntax trees.
//!
//! `rel(t, i, j, x)` holds when the tokens `t[i..j]` form the phrase `x` of
//! that nonterminal.  Precedence and associativity are encoded by
//! stratification: `a - b - c` is `(a - b) - c`, `a :: b :: c` is
//! `a :: (b :: c)`, and application binds tighter than any operator.
use vstd::prelude::*;
use crate::ast::{BinOp, CtorDecl, Def, Expr, Item, Lit, Pattern, TyAst};
use crate::lexer::{Keyword, Symbol, Tok, Token};

verus! {

/// The token kind at index `k`.
pub open spec fn tk(t: Seq<Token>, k: int) -> Tok {
    t[k].tok
}

/// A non-empty span inside `t`.
pub open spec fn span(t: Seq<Token>, i: int, j: int) -> bool {
    0 <= i < j <= t.len()
}

/// `t[i] ... t[j-1]` are the bracket `open`, an inside, and the bracket
/// `close`, with at least one token inside.
pub open spec fn bracketed(t: Seq<Token>, i: int, j: int, open: Symbol, close: Symbol) -> bool {
    &&& 0 <= i && i + 2 < j <= t.len()
    &&& tk(t, i) == Tok::Sym(open)
    &&& tk(t, j - 1) == Tok::Sym(close)
}

// ---------- types ----------
//
// Inside one group of mutually recursive relations, an existential names
// only token positions and is triggered by the token there.

/// `type := app_type | app_type -> type` (the arrow associates to the right).
pub open spec fn ty(t: Seq<Token>, i: int, j: int, x: TyAst) -> bool
    decreases j - i, 12nat,
{
    span(t, i, j) && (app_ty(t, i, j, x) || (x matches TyAst::Arrow(l, r) && exists|k: int|
        #![trigger tk(t, k)]
        i < k && k + 1 < j && app_ty(t, i, k, *l) && tk(t, k) == Tok::Sym(Symbol::Arrow) && ty(t, k + 1, j, *r)))
}

/// `app_type := atom_type | head atom_type+`, where the head names a type
/// constructor without arguments.
pub open spec fn app_ty(t: Seq<Token>, i: int, j: int, x: TyAst) -> bool
    decreases j - i, 11nat,
{
    span(t, i, j) && (atom_ty(t, i, j, x) || (x matches TyAst::TCon(name, args) && args@.len() > 0
        && exists|k: int| #![trigger tk(t, k)] i < k < j && !(tk(t, k) is Eof) && con_head(t, i, k, name)
        && atom_tys(t, k, j, args@)))
}

/// A constructor name or `()`, possibly in parentheses.
pub open spec fn con_head(t: Seq<Token>, i: int, j: int, name: String) -> bool
    decreases j - i, 0nat,
{
    span(t, i, j) && {
        ||| j == i + 1 && tk(t, i) == Tok::Upper(name)
        ||| j == i + 2 && tk(t, i) == Tok::Sym(Symbol::LParen) && tk(t, i + 1) == Tok::Sym(Symbol::RParen)
            && name@ == "Unit"@
        ||| bracketed(t, i, j, Symbol::LParen, Symbol::RParen) && con_head(t, i + 1, j - 1, name)
    }
}

/// Consecutive atomic types covering `t[i..j]` exactly.
pub open spec fn atom_tys(t: Seq<Token>, i: int, j: int, xs: Seq<TyAst>) -> bool
    decreases j - i, 14nat,
{
    0 <= i <= j <= t.len() && if xs.len() == 0 {
        i == j
    } else {
        exists|k: int| #![trigger tk(t, k)] i <= k < j && !(tk(t, k) is Eof) && atom_tys(t, i, k, xs.drop_last())
            && atom_ty(t, k, j, xs.last())
    }
}

/// `atom_type := ident | Name | () | ( type ) | ( type, type, ... ) | [ type ]`.
pub open spec fn atom_ty(t: Seq<Token>, i: int, j: int, x: TyAst) -> bool
    decreases j - i, 10nat,
{
    span(t, i, j) && {
        ||| j == i + 1 && (tk(t, i) matches Tok::Ident(v) && x == TyAst::TVar(v))
        ||| j == i + 1 && (tk(t, i) matches Tok::Upper(c) && (x matches TyAst::TCon(n, a) && n == c && a@.len() == 0))
        ||| j == i + 2 && tk(t, i) == Tok::Sym(Symbol::LParen) && tk(t, i + 1) == Tok::Sym(Symbol::RParen)
            && (x matches TyAst::TCon(n, a) && n@ == "Unit"@ && a@.len() == 0)
        ||| bracketed(t, i, j, Symbol::LParen, Symbol::RParen) && ty(t, i + 1, j - 1, x)
        ||| bracketed(t, i, j, Symbol::LParen, Symbol::RParen) && (x matches TyAst::TTuple(es) && es@.len() >= 2
            && ty_commas(t, i + 1, j - 1, es@))
        ||| bracketed(t, i, j, Symbol::LBracket, Symbol::RBracket) && (x matches TyAst::TCon(n, a) && n@ == "List"@
            && a@.len() == 1 && ty(t, i + 1, j - 1, a@[0]))
    }
}

/// One or more types separated by commas, covering `t[i..j]`.
pub open spec fn ty_commas(t: Seq<Token>, i: int, j: int, xs: Seq<TyAst>) -> bool
    decreases j - i, 13nat,
{
    span(t, i, j) && xs.len() >= 1 && if xs.len() == 1 {
        ty(t, i, j, xs[0])
    } else {
        exists|k: int| #![trigger tk(t, k)] i < k && k + 1 < j && ty_commas(t, i, k, xs.drop_last())
            && tk(t, k) == Tok::Sym(Symbol::Comma) && ty(t, k + 1, j, xs.last())
    }
}

} // verus!

verus! {

// ---------- patterns ----------

/// `p` is the list pattern of the elements `es`: `Cons e0 (Cons e1 ... Nil)`.
pub open spec fn is_pat_list(p: Pattern, es: Seq<Pattern>) -> bool
    decreases es.len(),
{
    if es.len() == 0 {
        p matches Pattern::PCtor(n, a) && n@ == "Nil"@ && a@.len() == 0
    } else {
        p matches Pattern::PCtor(n, a) && n@ == "Cons"@ && a@.len() == 2 && a@[0] == es[0]
            && is_pat_list(a@[1], es.drop_first())
    }
}

/// `pattern := app_pattern | app_pattern :: pattern`.
pub open spec fn pattern(t: Seq<Token>, i: int, j: int, p: Pattern) -> bool
    decreases j - i, 7nat,
{
    span(t, i, j) && (pat_app(t, i, j, p) || (p matches Pattern::PCtor(n, args) && n@ == "Cons"@
        && args@.len() == 2 && exists|k: int| #![trigger tk(t, k)] i < k && k + 1 < j
        && pat_app(t, i, k, args@[0]) && tk(t, k) == Tok::Sym(Symbol::ColonColon) && pattern(t, k + 1, j, args@[1])))
}

/// `app_pattern := atom_pattern | Name atom_pattern*`.
pub open spec fn pat_app(t: Seq<Token>, i: int, j: int, p: Pattern) -> bool
    decreases j - i, 6nat,
{
    span(t, i, j) && (pat_atom(t, i, j, p) || (tk(t, i) matches Tok::Upper(c) && (p matches Pattern::PCtor(n, args)
        && n == c && pat_atoms(t, i + 1, j, args@))))
}

/// Consecutive atomic patterns covering `t[i..j]` exactly.
pub open spec fn pat_atoms(t: Seq<Token>, i: int, j: int, ps: Seq<Pattern>) -> bool
    decreases j - i, 8nat,
{
    0 <= i <= j <= t.len() && if ps.len() == 0 {
        i == j
    } else {
        exists|k: int| #![trigger tk(t, k)] i <= k < j && !(tk(t, k) is Eof) && pat_atoms(t, i, k, ps.drop_last())
            && pat_atom(t, k, j, ps.last())
    }
}

/// `atom_pattern := _ | ident | literal | () | ( pattern ) | ( pattern, ... ) | [] | [ pattern, ... ]`.
pub open spec fn pat_atom(t: Seq<Token>, i: int, j: int, p: Pattern) -> bool
    decreases j - i, 5nat,
{
    span(t, i, j) && {
        ||| j == i + 1 && tk(t, i) == Tok::Sym(Symbol::Underscore) && p == Pattern::Wildcard
        ||| j == i + 1 && (tk(t, i) matches Tok::Ident(v) && p == Pattern::Var(v))
        ||| j == i + 1 && (tk(t, i) matches Tok::Int(n) && p == Pattern::PLit(Lit::Int(n)))
        ||| j == i + 1 && (tk(t, i) matches Tok::Str(v) && p == Pattern::PLit(Lit::Str(v)))
        ||| j == i + 1 && tk(t, i) == Tok::Kw(Keyword::True) && p == Pattern::PLit(Lit::Bool(true))
        ||| j == i + 1 && tk(t, i) == Tok::Kw(Keyword::False) && p == Pattern::PLit(Lit::Bool(false))
        ||| j == i + 2 && tk(t, i) == Tok::Sym(Symbol::LParen) && tk(t, i + 1) == Tok::Sym(Symbol::RParen)
            && p == Pattern::PLit(Lit::Unit)
        ||| bracketed(t, i, j, Symbol::LParen, Symbol::RParen) && pattern(t, i + 1, j - 1, p)
        ||| bracketed(t, i, j, Symbol::LParen, Symbol::RParen) && (p matches Pattern::PTuple(es) && es@.len() >= 2
            && pat_commas(t, i + 1, j - 1, es@))
        ||| j == i + 2 && tk(t, i) == Tok::Sym(Symbol::LBracket) && tk(t, i + 1) == Tok::Sym(Symbol::RBracket)
            && is_pat_list(p, seq![])
        ||| bracketed(t, i, j, Symbol::LBracket, Symbol::RBracket) && exists|es: Seq<Pattern>|
            #[trigger] is_pat_list(p, es) && es.len() >= 1 && pat_commas(t, i + 1, j - 1, es)
    }
}

/// One or more patterns separated by commas, covering `t[i..j]`.
pub open spec fn pat_commas(t: Seq<Token>, i: int, j: int, ps: Seq<Pattern>) -> bool
    decreases j - i, 9nat,
{
    span(t, i, j) && ps.len() >= 1 && if ps.len() == 1 {
        pattern(t, i, j, ps[0])
    } else {
        exists|k: int| #![trigger tk(t, k)] i < k && k + 1 < j && pat_commas(t, i, k, ps.drop_last())
            && tk(t, k) == Tok::Sym(Symbol::Comma) && pattern(t, k + 1, j, ps.last())
    }
}

} // verus!

verus! {

// ---------- expressions ----------

/// The token of an infix operator.
pub open spec fn binop_symbol(op: BinOp) -> Symbol {
    match op {
        BinOp::Add => Symbol::Plus,
        BinOp::Sub => Symbol::Minus,
        BinOp::Mul => Symbol::Star,
        BinOp::Div => Symbol::Slash,
        BinOp::Mod => Symbol::Percent,
        BinOp::Concat => Symbol::PlusPlus,
        BinOp::Cons => Symbol::ColonColon,
        BinOp::Eq => Symbol::EqEq,
        BinOp::Neq => Symbol::NotEq,
        BinOp::Lt => Symbol::Lt,
        BinOp::Gt => Symbol::Gt,
        BinOp::Le => Symbol::Le,
        BinOp::Ge => Symbol::Ge,
        BinOp::And => Symbol::AndAnd,
        BinOp::Or => Symbol::OrOr,
    }
}

/// `fun p1 -> ... fun pn -> body` as nested lambdas.
pub open spec fn lams(ps: Seq<Pattern>, body: Expr) -> Expr
    decreases ps.len(),
{
    if ps.len() == 0 {
        body
    } else {
        lams(ps.drop_last(), Expr::Lam(ps.last(), Box::new(body)))
    }
}

/// `e` is the list expression of the elements `es`: `Cons e0 (Cons e1 ... Nil)`.
pub open spec fn is_expr_list(e: Expr, es: Seq<Expr>) -> bool
    decreases es.len(),
{
    if es.len() == 0 {
        e matches Expr::Ctor(n) && n@ == "Nil"@
    } else {
        e matches Expr::App(f, tl) && (*f matches Expr::App(c, hd) && *hd == es[0] && (*c matches Expr::Ctor(n)
            && n@ == "Cons"@)) && is_expr_list(*tl, es.drop_first())
    }
}

/// `expr := fun atom_pattern+ -> expr | if expr then expr else expr
///        | case expr of [|] branch (| branch)* | let ... in expr | seq`.
pub open spec fn expr(t: Seq<Token>, i: int, j: int, e: Expr) -> bool
    decreases j - i, 30nat,
{
    span(t, i, j) && {
        ||| seq_expr(t, i, j, e)
        ||| tk(t, i) == Tok::Kw(Keyword::Fun) && fun_rest(t, i + 1, j, e)
        ||| tk(t, i) == Tok::Kw(Keyword::If) && (e matches Expr::If(c, a, b) && exists|k1: int, k2: int|
            #![trigger tk(t, k1), tk(t, k2)]
            i + 1 < k1 && k1 + 1 < k2 && k2 + 1 < j && expr(t, i + 1, k1, *c) && tk(t, k1) == Tok::Kw(Keyword::Then)
                && expr(t, k1 + 1, k2, *a) && tk(t, k2) == Tok::Kw(Keyword::Else) && expr(t, k2 + 1, j, *b))
        ||| tk(t, i) == Tok::Kw(Keyword::Case) && (e matches Expr::Case(x, bs) && bs@.len() >= 1 && exists|k: int|
            #![trigger tk(t, k)]
            i + 1 < k && k + 1 < j && expr(t, i + 1, k, *x) && tk(t, k) == Tok::Kw(Keyword::Of) && (branches(
                t,
                k + 1,
                j,
                bs@,
            ) || k + 2 < j && tk(t, k + 1) == Tok::Sym(Symbol::Bar) && branches(t, k + 2, j, bs@)))
        ||| local_def(t, i, j, e)
    }
}

/// The parameters and body after `fun`: `p1 p2 ... -> body` is
/// `fun p1 -> fun p2 -> ... body`.
pub open spec fn fun_rest(t: Seq<Token>, i: int, j: int, e: Expr) -> bool
    decreases j - i, 35nat,
{
    span(t, i, j) && (e matches Expr::Lam(p, b) && exists|k: int| #![trigger tk(t, k)] i < k < j && !(tk(t, k) is Eof)
        && pat_atom(t, i, k, p)
        && (fun_rest(t, k, j, *b) || k + 1 < j && tk(t, k) == Tok::Sym(Symbol::Arrow) && expr(t, k + 1, j, *b)))
}

/// One `pattern -> expr` branch of a `case`.
pub open spec fn branch(t: Seq<Token>, i: int, j: int, pb: (Pattern, Expr)) -> bool
    decreases j - i, 33nat,
{
    span(t, i, j) && exists|k: int| #![trigger tk(t, k)] i < k && k + 1 < j && pattern(t, i, k, pb.0)
        && tk(t, k) == Tok::Sym(Symbol::Arrow) && expr(t, k + 1, j, pb.1)
}

/// One or more branches separated by `|`.
pub open spec fn branches(t: Seq<Token>, i: int, j: int, bs: Seq<(Pattern, Expr)>) -> bool
    decreases j - i, 34nat,
{
    span(t, i, j) && bs.len() >= 1 && if bs.len() == 1 {
        branch(t, i, j, bs[0])
    } else {
        exists|k: int| #![trigger tk(t, k)] i < k && k + 1 < j && branches(t, i, k, bs.drop_last())
            && tk(t, k) == Tok::Sym(Symbol::Bar) && branch(t, k + 1, j, bs.last())
    }
}

/// A local definition: `let (pattern) = expr in expr`, a one-branch `case`,
/// or `let [rec] name params [: type] = expr in expr`, whose right-hand side
/// takes the parameters as nested lambdas (the annotation is not kept).
pub open spec fn local_def(t: Seq<Token>, i: int, j: int, e: Expr) -> bool
    decreases j - i, 29nat,
{
    span(t, i, j) && tk(t, i) == Tok::Kw(Keyword::Let) && {
        ||| i + 1 < j && tk(t, i + 1) == Tok::Sym(Symbol::LParen) && (e matches Expr::Case(x, bs) && bs@.len() == 1
            && exists|k1: int, k2: int| #![trigger tk(t, k1), tk(t, k2)]
            i + 1 < k1 && k1 + 1 < k2 && k2 + 1 < j && pat_atom(t, i + 1, k1, bs@[0].0) && tk(t, k1) == Tok::Sym(
                Symbol::Eq,
            ) && expr(t, k1 + 1, k2, *x) && tk(t, k2) == Tok::Kw(Keyword::In) && expr(t, k2 + 1, j, bs@[0].1))
        ||| e matches Expr::Let { is_rec, name, rhs, body } && {
            let s = if is_rec { i + 2 } else { i + 1 };
            &&& is_rec ==> tk(t, i + 1) == Tok::Kw(Keyword::Rec)
            &&& s < j && tk(t, s) == Tok::Ident(name)
            &&& exists|k: int| #![trigger tk(t, k)] s + 1 < k && k + 1 < j && let_rhs(t, s + 1, k, *rhs)
                && tk(t, k) == Tok::Kw(Keyword::In) && expr(t, k + 1, j, *body)
        }
    }
}

/// `atom_pattern* [: type] = expr` after the name of a definition, as the
/// value it binds: one lambda per parameter around the body.
pub open spec fn let_rhs(t: Seq<Token>, i: int, j: int, rhs: Expr) -> bool
    decreases j - i, 28nat,
{
    span(t, i, j) && {
        ||| rhs matches Expr::Lam(p, b) && exists|k: int| #![trigger tk(t, k)] i < k < j && !(tk(t, k) is Eof)
            && pat_atom(t, i, k, p)
            && let_rhs(t, k, j, *b)
        ||| exists|k: int| #![trigger tk(t, k)] i <= k && k + 1 < j && tk(t, k) == Tok::Sym(Symbol::Eq) && expr(t, k + 1, j, rhs)
            && (k == i || tk(t, i) == Tok::Sym(Symbol::Colon) && exists|a: TyAst| #[trigger] ty(t, i + 1, k, a))
    }
}

/// `seq := ann_expr | ann_expr ; expr`.
pub open spec fn seq_expr(t: Seq<Token>, i: int, j: int, e: Expr) -> bool
    decreases j - i, 27nat,
{
    span(t, i, j) && (ann_expr(t, i, j, e) || (e matches Expr::Sequence(l, r) && exists|k: int|
        #![trigger tk(t, k)]
        i < k && k + 1 < j && ann_expr(t, i, k, *l) && tk(t, k) == Tok::Sym(Symbol::Semi) && expr(t, k + 1, j, *r)))
}

/// `ann_expr := or_expr | or_expr : type`.
pub open spec fn ann_expr(t: Seq<Token>, i: int, j: int, e: Expr) -> bool
    decreases j - i, 26nat,
{
    span(t, i, j) && (or_expr(t, i, j, e) || (e matches Expr::Ann(l, a) && exists|k: int| #![trigger tk(t, k)]
        i < k && k + 1 < j && or_expr(t, i, k, *l) && tk(t, k) == Tok::Sym(Symbol::Colon) && ty(t, k + 1, j, a)))
}

/// `||`, associating to the left.
pub open spec fn or_expr(t: Seq<Token>, i: int, j: int, e: Expr) -> bool
    decreases j - i, 25nat,
{
    span(t, i, j) && (and_expr(t, i, j, e) || (e matches Expr::Bin(op, l, r) && op == BinOp::Or && exists|k: int|
        #![trigger tk(t, k)]
        i < k && k + 1 < j && or_expr(t, i, k, *l) && tk(t, k) == Tok::Sym(Symbol::OrOr) && and_expr(t, k + 1, j, *r)))
}

/// `&&`, associating to the left.
pub open spec fn and_expr(t: Seq<Token>, i: int, j: int, e: Expr) -> bool
    decreases j - i, 24nat,
{
    span(t, i, j) && (compare_expr(t, i, j, e) || (e matches Expr::Bin(op, l, r) && op == BinOp::And && exists|k: int|
        #![trigger tk(t, k)]
        i < k && k + 1 < j && and_expr(t, i, k, *l) && tk(t, k) == Tok::Sym(Symbol::AndAnd) && compare_expr(
            t,
            k + 1,
            j,
            *r,
        )))
}

/// Comparison operators.
pub open spec fn is_compare_op(op: BinOp) -> bool {
    op == BinOp::Eq || op == BinOp::Neq || op == BinOp::Lt || op == BinOp::Gt || op == BinOp::Le || op == BinOp::Ge
}

/// At most one comparison between two `cons_expr`s (comparisons do not chain).
pub open spec fn compare_expr(t: Seq<Token>, i: int, j: int, e: Expr) -> bool
    decreases j - i, 23nat,
{
    span(t, i, j) && (cons_expr(t, i, j, e) || (e matches Expr::Bin(op, l, r) && is_compare_op(op) && exists|k: int|
        #![trigger tk(t, k)]
        i < k && k + 1 < j && cons_expr(t, i, k, *l) && tk(t, k) == Tok::Sym(binop_symbol(op)) && cons_expr(
            t,
            k + 1,
            j,
            *r,
        )))
}

/// `::` and `++`, associating to the right.
pub open spec fn cons_expr(t: Seq<Token>, i: int, j: int, e: Expr) -> bool
    decreases j - i, 22nat,
{
    span(t, i, j) && (add_expr(t, i, j, e) || (e matches Expr::Bin(op, l, r) && (op == BinOp::Cons || op
        == BinOp::Concat) && exists|k: int| #![trigger tk(t, k)]
        i < k && k + 1 < j && add_expr(t, i, k, *l) && tk(t, k) == Tok::Sym(binop_symbol(op)) && cons_expr(
            t,
            k + 1,
            j,
            *r,
        )))
}

/// `+` and `-`, associating to the left.
pub open spec fn add_expr(t: Seq<Token>, i: int, j: int, e: Expr) -> bool
    decreases j - i, 21nat,
{
    span(t, i, j) && (mul_expr(t, i, j, e) || (e matches Expr::Bin(op, l, r) && (op == BinOp::Add || op == BinOp::Sub)
        && exists|k: int| #![trigger tk(t, k)]
        i < k && k + 1 < j && add_expr(t, i, k, *l) && tk(t, k) == Tok::Sym(binop_symbol(op)) && mul_expr(
            t,
            k + 1,
            j,
            *r,
        )))
}

/// `*`, `/` and `%`, associating to the left.
pub open spec fn mul_expr(t: Seq<Token>, i: int, j: int, e: Expr) -> bool
    decreases j - i, 20nat,
{
    span(t, i, j) && (app_expr(t, i, j, e) || (e matches Expr::Bin(op, l, r) && (op == BinOp::Mul || op == BinOp::Div
        || op == BinOp::Mod) && exists|k: int| #![trigger tk(t, k)]
        i < k && k + 1 < j && mul_expr(t, i, k, *l) && tk(t, k) == Tok::Sym(binop_symbol(op)) && app_expr(
            t,
            k + 1,
            j,
            *r,
        )))
}

/// Application by juxtaposition, associating to the left.
pub open spec fn app_expr(t: Seq<Token>, i: int, j: int, e: Expr) -> bool
    decreases j - i, 19nat,
{
    span(t, i, j) && (atom_expr(t, i, j, e) || (e matches Expr::App(f, a) && exists|k: int| #![trigger tk(t, k)]
        i < k < j && !(tk(t, k) is Eof) && app_expr(t, i, k, *f) && atom_expr(t, k, j, *a)))
}

/// `atom := literal | -int | ident | Name | () | ( expr ) | ( expr, ... ) | [] | [ expr, ... ]`.
pub open spec fn atom_expr(t: Seq<Token>, i: int, j: int, e: Expr) -> bool
    decreases j - i, 18nat,
{
    span(t, i, j) && {
        ||| j == i + 1 && (tk(t, i) matches Tok::Int(n) && e == Expr::Lit(Lit::Int(n)))
        ||| j == i + 1 && (tk(t, i) matches Tok::Str(v) && e == Expr::Lit(Lit::Str(v)))
        ||| j == i + 1 && tk(t, i) == Tok::Kw(Keyword::True) && e == Expr::Lit(Lit::Bool(true))
        ||| j == i + 1 && tk(t, i) == Tok::Kw(Keyword::False) && e == Expr::Lit(Lit::Bool(false))
        ||| j == i + 2 && tk(t, i) == Tok::Sym(Symbol::Minus) && (tk(t, i + 1) matches Tok::Int(n) && e == Expr::Lit(
            Lit::Int(0i64.wrapping_sub(n)),
        ))
        ||| j == i + 1 && (tk(t, i) matches Tok::Ident(v) && e == Expr::Var(v))
        ||| j == i + 1 && (tk(t, i) matches Tok::Upper(c) && e == Expr::Ctor(c))
        ||| j == i + 2 && tk(t, i) == Tok::Sym(Symbol::LParen) && tk(t, i + 1) == Tok::Sym(Symbol::RParen)
            && e == Expr::Lit(Lit::Unit)
        ||| bracketed(t, i, j, Symbol::LParen, Symbol::RParen) && expr(t, i + 1, j - 1, e)
        ||| bracketed(t, i, j, Symbol::LParen, Symbol::RParen) && (e matches Expr::Tuple(es) && es@.len() >= 2
            && expr_commas(t, i + 1, j - 1, es@))
        ||| j == i + 2 && tk(t, i) == Tok::Sym(Symbol::LBracket) && tk(t, i + 1) == Tok::Sym(Symbol::RBracket)
            && is_expr_list(e, seq![])
        ||| bracketed(t, i, j, Symbol::LBracket, Symbol::RBracket) && exists|es: Seq<Expr>|
            #[trigger] is_expr_list(e, es) && es.len() >= 1 && expr_commas(t, i + 1, j - 1, es)
    }
}

/// One or more expressions separated by commas, covering `t[i..j]`.
pub open spec fn expr_commas(t: Seq<Token>, i: int, j: int, es: Seq<Expr>) -> bool
    decreases j - i, 32nat,
{
    span(t, i, j) && es.len() >= 1 && if es.len() == 1 {
        expr(t, i, j, es[0])
    } else {
        exists|k: int| #![trigger tk(t, k)] i < k && k + 1 < j && expr_commas(t, i, k, es.drop_last())
            && tk(t, k) == Tok::Sym(Symbol::Comma) && expr(t, k + 1, j, es.last())
    }
}

} // verus!

verus! {

// ---------- items ----------

/// `name atom_pattern* [: type] = expr`, the part of a definition after
/// `let [rec]` (and after `and` in a group).
pub open spec fn def_rel(t: Seq<Token>, i: int, j: int, d: Def) -> bool {
    &&& span(t, i, j)
    &&& tk(t, i) == Tok::Ident(d.name)
    &&& exists|k1: int, k2: int| #![trigger tk(t, k1), tk(t, k2)]
        i + 1 <= k1 <= k2 && k2 + 1 < j && !(tk(t, k1) is Eof) && pat_atoms(t, i + 1, k1, d.params@) && match d.ann {
            None => k2 == k1,
            Some(a) => k1 < k2 && tk(t, k1) == Tok::Sym(Symbol::Colon) && ty(t, k1 + 1, k2, a),
        } && tk(t, k2) == Tok::Sym(Symbol::Eq) && expr(t, k2 + 1, j, d.body)
}

/// One or more definitions separated by `and`.
pub open spec fn def_group(t: Seq<Token>, i: int, j: int, ds: Seq<Def>) -> bool
    decreases j - i,
{
    span(t, i, j) && ds.len() >= 1 && if ds.len() == 1 {
        def_rel(t, i, j, ds[0])
    } else {
        exists|k: int| #![trigger tk(t, k)] i < k && k + 1 < j && def_group(t, i, k, ds.drop_last())
            && tk(t, k) == Tok::Kw(Keyword::And) && def_rel(t, k + 1, j, ds.last())
    }
}

/// Type variables: one identifier token each.
pub open spec fn idents(t: Seq<Token>, i: int, j: int, ns: Seq<String>) -> bool {
    &&& 0 <= i && j == i + ns.len() && j <= t.len()
    &&& forall|m: int| 0 <= m < ns.len() ==> #[trigger] tk(t, i + m) == Tok::Ident(ns[m])
}

/// `Name atom_type*`: one constructor of a type declaration.
pub open spec fn ctor_decl(t: Seq<Token>, i: int, j: int, c: CtorDecl) -> bool {
    span(t, i, j) && tk(t, i) == Tok::Upper(c.name) && atom_tys(t, i + 1, j, c.fields@)
}

/// One or more constructors separated by `|`.
pub open spec fn ctor_decls(t: Seq<Token>, i: int, j: int, cs: Seq<CtorDecl>) -> bool
    decreases j - i,
{
    span(t, i, j) && cs.len() >= 1 && if cs.len() == 1 {
        ctor_decl(t, i, j, cs[0])
    } else {
        exists|k: int| #![trigger tk(t, k)] i < k && k + 1 < j && ctor_decls(t, i, k, cs.drop_last())
            && tk(t, k) == Tok::Sym(Symbol::Bar) && ctor_decl(t, k + 1, j, cs.last())
    }
}

/// `item := let [rec] def | let rec def (and def)+ | type Name ident* = [|] ctor (| ctor)*`.
pub open spec fn item(t: Seq<Token>, i: int, j: int, it: Item) -> bool {
    span(t, i, j) && match it {
        Item::Def(d) => {
            let s = if d.is_rec { i + 2 } else { i + 1 };
            &&& tk(t, i) == Tok::Kw(Keyword::Let)
            &&& d.is_rec ==> tk(t, i + 1) == Tok::Kw(Keyword::Rec)
            &&& def_rel(t, s, j, d)
        },
        Item::RecGroup(g) => {
            &&& tk(t, i) == Tok::Kw(Keyword::Let)
            &&& tk(t, i + 1) == Tok::Kw(Keyword::Rec)
            &&& g@.len() >= 2
            &&& forall|m: int| 0 <= m < g@.len() ==> (#[trigger] g@[m]).is_rec
            &&& def_group(t, i + 2, j, g@)
        },
        Item::Ty(decl) => {
            &&& tk(t, i) == Tok::Kw(Keyword::Type)
            &&& tk(t, i + 1) == Tok::Upper(decl.name)
            &&& decl.ctors@.len() >= 1
            &&& exists|k: int| #![trigger tk(t, k)] i + 2 <= k && k + 1 < j && idents(t, i + 2, k, decl.params@)
                && tk(t, k) == Tok::Sym(Symbol::Eq) && (ctor_decls(t, k + 1, j, decl.ctors@) || k + 2 < j && tk(t, k + 1)
                == Tok::Sym(Symbol::Bar) && ctor_decls(t, k + 2, j, decl.ctors@))
        },
    }
}

/// Consecutive items covering `t[i..j]` exactly.
pub open spec fn items(t: Seq<Token>, i: int, j: int, its: Seq<Item>) -> bool
    decreases its.len(),
{
    0 <= i <= j <= t.len() && if its.len() == 0 {
        i == j
    } else {
        exists|k: int| #![trigger tk(t, k)] i <= k < j && !(tk(t, k) is Eof) && items(t, i, k, its.drop_last())
            && item(t, k, j, its.last())
    }
}

/// A program: items up to the first `Eof`.
pub open spec fn program(t: Seq<Token>, its: Seq<Item>) -> bool {
    exists|j: int| #![trigger tk(t, j)] 0 <= j < t.len() && tk(t, j) is Eof && items(t, 0, j, its)
}

} // verus!

verus! {

/// An arrow type from its two sides.
pub proof fn lemma_ty_arrow(t: Seq<Token>, i: int, k: int, j: int, l: TyAst, r: TyAst)
    requires
        i < k,
        app_ty(t, i, k, l),
        tk(t, k) == Tok::Sym(Symbol::Arrow),
        ty(t, k + 1, j, r),
    ensures
        ty(t, i, j, TyAst::Arrow(Box::new(l), Box::new(r))),
{
}

/// An atomic type that is a constructor without arguments is a head that
/// arguments can follow.
pub proof fn lemma_con_head(t: Seq<Token>, i: int, j: int, h: TyAst)
    requires
        atom_ty(t, i, j, h),
        h matches TyAst::TCon(_, a) && a@.len() == 0,
    ensures
        h matches TyAst::TCon(n, _) && con_head(t, i, j, n),
    decreases j - i,
{
    if bracketed(t, i, j, Symbol::LParen, Symbol::RParen) && ty(t, i + 1, j - 1, h) {
        if atom_ty(t, i + 1, j - 1, h) {
            lemma_con_head(t, i + 1, j - 1, h);
        }
    }
}

} // verus!

verus! {

/// Parameters followed by the rest of a `fun` make its nested lambdas.
pub proof fn lemma_fun_rest(t: Seq<Token>, i: int, k: int, j: int, ps: Seq<Pattern>, b: Expr)
    requires
        ps.len() >= 1,
        pat_atoms(t, i, k, ps),
        k < j,
        fun_rest(t, k, j, b) || k + 1 < j && tk(t, k) == Tok::Sym(Symbol::Arrow) && expr(t, k + 1, j, b),
    ensures
        fun_rest(t, i, j, lams(ps, b)),
    decreases ps.len(),
{
    let q = ps.last();
    let k0 = choose|k0: int| #![trigger tk(t, k0)] i <= k0 < k && !(tk(t, k0) is Eof) && pat_atoms(t, i, k0, ps.drop_last())
            && pat_atom(t, k0, k, q);
    let b2 = Expr::Lam(q, Box::new(b));
    assert(fun_rest(t, k0, j, b2));
    assert(lams(ps, b) == lams(ps.drop_last(), b2));
    if ps.len() > 1 {
        lemma_fun_rest(t, i, k0, j, ps.drop_last(), b2);
    } else {
        assert(lams(ps.drop_last(), b2) == b2);
    }
}

/// Parameters followed by `[: type] = expr` make the bound value.
pub proof fn lemma_let_rhs(t: Seq<Token>, i: int, k: int, j: int, ps: Seq<Pattern>, b: Expr)
    requires
        pat_atoms(t, i, k, ps),
        let_rhs(t, k, j, b),
    ensures
        let_rhs(t, i, j, lams(ps, b)),
    decreases ps.len(),
{
    if ps.len() > 0 {
        let q = ps.last();
        let k0 = choose|k0: int| #![trigger tk(t, k0)] i <= k0 < k && !(tk(t, k0) is Eof) && pat_atoms(t, i, k0, ps.drop_last())
            && pat_atom(t, k0, k, q);
        let b2 = Expr::Lam(q, Box::new(b));
        assert(let_rhs(t, k0, j, b2));
        lemma_let_rhs(t, i, k0, j, ps.drop_last(), b2);
    }
}

} // verus!

verus! {

/// The definition part of a local `let` makes the value it binds.
pub proof fn lemma_def_rhs(t: Seq<Token>, i: int, j: int, d: Def)
    requires
        def_rel(t, i, j, d),
    ensures
        let_rhs(t, i + 1, j, lams(d.params@, d.body)),
{
    let (k1, k2) = choose|k1: int, k2: int| #![trigger tk(t, k1), tk(t, k2)]
        i + 1 <= k1 <= k2 && k2 + 1 < j && !(tk(t, k1) is Eof) && pat_atoms(t, i + 1, k1, d.params@) && match d.ann {
            None => k2 == k1,
            Some(a) => k1 < k2 && tk(t, k1) == Tok::Sym(Symbol::Colon) && ty(t, k1 + 1, k2, a),
        } && tk(t, k2) == Tok::Sym(Symbol::Eq) && expr(t, k2 + 1, j, d.body);
    if let Some(a) = d.ann {
        assert(ty(t, k1 + 1, k2, a));
    }
    assert(let_rhs(t, k1, j, d.body));
    lemma_let_rhs(t, i + 1, k1, j, d.params@, d.body);
}

} // verus!
