//! Recursive-descent parser from tokens to the abstract syntax.
use vstd::prelude::*;
use crate::ast::{BinOp, Def, CtorDecl, Expr, Item, Lit, Pattern, Program, TyAst, TyDecl};
use crate::lexer::{Keyword, Symbol, Tok, Token, pos_prefix, well_formed_tokens};
use crate::grammar::{tk, span, bracketed, ty, app_ty, atom_ty, atom_tys, ty_commas, con_head, lemma_ty_arrow, lemma_con_head,
    pattern, pat_app, pat_atom, pat_atoms, pat_commas, is_pat_list, binop_symbol, is_compare_op, is_expr_list,
    expr, fun_rest, branch, branches, local_def, let_rhs, seq_expr, ann_expr, or_expr, and_expr, compare_expr,
    cons_expr, add_expr, mul_expr, app_expr, atom_expr, expr_commas, lams, lemma_fun_rest, lemma_let_rhs,
    def_rel, def_group, idents, ctor_decl, ctor_decls, item, program, lemma_def_rhs};
use crate::text::{debug_quote, i64_to_string, concat3};

verus! {

/// Token sequences the parser accepts as input: non-empty and ending with
/// `Eof` (what the lexer produces).
pub open spec fn parsable(toks: Seq<Token>) -> bool {
    toks.len() >= 1 && toks.last().tok is Eof
}

/// A parser positioned in a token sequence.
pub struct Parser {
    toks: Vec<Token>,
    pos: usize,
}

type PResult<T> = Result<T, String>;

// ---------- token access ----------

/// How diagnostics describe a token.
pub open spec fn tok_description(t: Tok) -> Seq<char> {
    match t {
        Tok::Int(n) => "int "@ + crate::text::int_digits(n as int),
        Tok::Str(s) => "string "@ + crate::text::debug_text(s@),
        Tok::Ident(s) => "ident `"@ + s@ + "`"@,
        Tok::Upper(s) => "ctor `"@ + s@ + "`"@,
        Tok::Kw(k) => "keyword `"@ + crate::lexer::keyword_text(k) + "`"@,
        Tok::Sym(s) => "`"@ + crate::lexer::symbol_text(s) + "`"@,
        Tok::Eof => "end of input"@,
    }
}

/// Human-readable description of a token, used in diagnostics.
pub fn describe_tok(t: &Tok) -> (s: String)
    ensures
        s@ == tok_description(*t),
{
    match t {
        Tok::Int(n) => {
            let d = i64_to_string(*n);
            let r = concat3("int ", d.as_str(), "");
            proof {
                reveal_strlit("");
                assert(r@ =~= "int "@ + d@);
            }
            r
        }
        Tok::Str(s) => {
            let q = debug_quote(s.as_str());
            let r = concat3("string ", q.as_str(), "");
            proof {
                reveal_strlit("");
                assert(r@ =~= "string "@ + q@);
            }
            r
        }
        Tok::Ident(s) => concat3("ident `", s.as_str(), "`"),
        Tok::Upper(s) => concat3("ctor `", s.as_str(), "`"),
        Tok::Kw(k) => concat3("keyword `", k.text(), "`"),
        Tok::Sym(s) => concat3("`", s.text(), "`"),
        Tok::Eof => String::from_str("end of input"),
    }
}

/// `"line:col: msg (found tok)"` at the token under `pos`.
fn err_at(toks: &Vec<Token>, pos: usize, msg: &str) -> (s: String)
    requires
        pos < toks.len(),
    ensures
        s@ == crate::text::nat_digits(toks@[pos as int].line as nat) + ":"@ + crate::text::nat_digits(
            toks@[pos as int].col as nat,
        ) + ": "@ + msg@ + " (found "@ + tok_description(toks@[pos as int].tok) + ")"@,
{
    let t = &toks[pos];
    let mut m = pos_prefix(t.line, t.col);
    m.append(msg);
    m.append(" (found ");
    let d = describe_tok(&t.tok);
    m.append(d.as_str());
    m.append(")");
    m
}

fn at_sym(toks: &Vec<Token>, pos: usize, s: Symbol) -> (b: bool)
    requires
        pos < toks.len(),
    ensures
        b <==> toks@[pos as int].tok == Tok::Sym(s),
{
    match &toks[pos].tok {
        Tok::Sym(x) => *x == s,
        _ => false,
    }
}

fn at_kw(toks: &Vec<Token>, pos: usize, k: Keyword) -> (b: bool)
    requires
        pos < toks.len(),
    ensures
        b <==> toks@[pos as int].tok == Tok::Kw(k),
{
    match &toks[pos].tok {
        Tok::Kw(x) => *x == k,
        _ => false,
    }
}

/// Consumes the token under `pos` if it is the symbol `s`.
fn eat_sym(toks: &Vec<Token>, pos: usize, s: Symbol) -> (r: Option<usize>)
    requires
        parsable(toks@),
        pos < toks.len(),
    ensures
        r matches Some(p) ==> p == pos + 1 && p < toks.len(),
        r is None <==> toks@[pos as int].tok != Tok::Sym(s),
{
    if at_sym(toks, pos, s) {
        Some(pos + 1)
    } else {
        None
    }
}

fn eat_kw(toks: &Vec<Token>, pos: usize, k: Keyword) -> (r: Option<usize>)
    requires
        parsable(toks@),
        pos < toks.len(),
    ensures
        r matches Some(p) ==> p == pos + 1 && p < toks.len(),
        r is None <==> toks@[pos as int].tok != Tok::Kw(k),
{
    if at_kw(toks, pos, k) {
        Some(pos + 1)
    } else {
        None
    }
}

fn expect_sym(toks: &Vec<Token>, pos: usize, s: Symbol) -> (r: PResult<usize>)
    requires
        parsable(toks@),
        pos < toks.len(),
    ensures
        r matches Ok(p) ==> p == pos + 1 && p < toks.len() && toks@[pos as int].tok == Tok::Sym(s),
        r is Ok <==> toks@[pos as int].tok == Tok::Sym(s),
{
    match eat_sym(toks, pos, s) {
        Some(p) => Ok(p),
        None => {
            let m = concat3("expected `", s.text(), "`");
            Err(err_at(toks, pos, m.as_str()))
        }
    }
}

fn expect_kw(toks: &Vec<Token>, pos: usize, k: Keyword) -> (r: PResult<usize>)
    requires
        parsable(toks@),
        pos < toks.len(),
    ensures
        r matches Ok(p) ==> p == pos + 1 && p < toks.len() && toks@[pos as int].tok == Tok::Kw(k),
        r is Ok <==> toks@[pos as int].tok == Tok::Kw(k),
{
    match eat_kw(toks, pos, k) {
        Some(p) => Ok(p),
        None => {
            let m = concat3("expected `", k.text(), "`");
            Err(err_at(toks, pos, m.as_str()))
        }
    }
}

/// Position after the current (non-`Eof`) token.
fn adv(toks: &Vec<Token>, pos: usize) -> (p: usize)
    requires
        parsable(toks@),
        pos < toks.len(),
        !(toks@[pos as int].tok is Eof),
    ensures
        p == pos + 1,
        p < toks.len(),
{
    pos + 1
}

fn parse_ident(toks: &Vec<Token>, pos: usize) -> (r: PResult<(String, usize)>)
    requires
        parsable(toks@),
        pos < toks.len(),
    ensures
        r matches Ok((n, p)) ==> p == pos + 1 && p < toks.len() && toks@[pos as int].tok == Tok::Ident(n),
        r is Ok <==> toks@[pos as int].tok is Ident,
{
    match &toks[pos].tok {
        Tok::Ident(s) => Ok((s.clone(), adv(toks, pos))),
        _ => Err(err_at(toks, pos, "expected identifier")),
    }
}

fn parse_upper(toks: &Vec<Token>, pos: usize) -> (r: PResult<(String, usize)>)
    requires
        parsable(toks@),
        pos < toks.len(),
    ensures
        r matches Ok((n, p)) ==> p == pos + 1 && p < toks.len() && toks@[pos as int].tok == Tok::Upper(n),
        r is Ok <==> toks@[pos as int].tok is Upper,
{
    match &toks[pos].tok {
        Tok::Upper(s) => Ok((s.clone(), adv(toks, pos))),
        _ => Err(err_at(toks, pos, "expected constructor/type name")),
    }
}

fn starts_type_atom(toks: &Vec<Token>, pos: usize) -> (b: bool)
    requires
        pos < toks.len(),
    ensures
        b ==> !(toks@[pos as int].tok is Eof),
        b <==> (toks@[pos as int].tok is Ident || toks@[pos as int].tok is Upper || toks@[pos as int].tok == Tok::Sym(
            Symbol::LParen,
        ) || toks@[pos as int].tok == Tok::Sym(Symbol::LBracket)),
{
    match &toks[pos].tok {
        Tok::Ident(_) | Tok::Upper(_) => true,
        Tok::Sym(s) => *s == Symbol::LParen || *s == Symbol::LBracket,
        _ => false,
    }
}

/// Tokens that may start a parameter pattern of a definition or `fun`.
fn starts_param(toks: &Vec<Token>, pos: usize) -> (b: bool)
    requires
        pos < toks.len(),
    ensures
        b ==> !(toks@[pos as int].tok is Eof),
        b <==> (toks@[pos as int].tok is Ident || toks@[pos as int].tok == Tok::Sym(Symbol::Underscore)
            || toks@[pos as int].tok == Tok::Sym(Symbol::LParen)),
{
    match &toks[pos].tok {
        Tok::Ident(_) => true,
        Tok::Sym(s) => *s == Symbol::Underscore || *s == Symbol::LParen,
        _ => false,
    }
}

fn starts_atom(toks: &Vec<Token>, pos: usize) -> (b: bool)
    requires
        pos < toks.len(),
    ensures
        b ==> !(toks@[pos as int].tok is Eof),
        b <==> starts_atom_tok(toks@[pos as int].tok),
{
    match &toks[pos].tok {
        Tok::Int(_) | Tok::Str(_) | Tok::Ident(_) | Tok::Upper(_) => true,
        Tok::Kw(k) => *k == Keyword::True || *k == Keyword::False,
        Tok::Sym(s) => *s == Symbol::LParen || *s == Symbol::LBracket,
        Tok::Eof => false,
    }
}

/// Tokens that may start an atomic expression.
pub open spec fn starts_atom_tok(t: Tok) -> bool {
    ||| t is Int || t is Str || t is Ident || t is Upper
    ||| t == Tok::Kw(Keyword::True) || t == Tok::Kw(Keyword::False)
    ||| t == Tok::Sym(Symbol::LParen) || t == Tok::Sym(Symbol::LBracket)
}

/// Tokens that end a phrase: nothing of an expression, pattern or type
/// continues with them.
pub open spec fn ends_phrase(t: Tok) -> bool {
    ||| t is Eof
    ||| t == Tok::Sym(Symbol::RParen) || t == Tok::Sym(Symbol::RBracket) || t == Tok::Sym(Symbol::Comma)
    ||| t == Tok::Kw(Keyword::Then) || t == Tok::Kw(Keyword::Else) || t == Tok::Kw(Keyword::In)
    ||| t == Tok::Kw(Keyword::Of) || t == Tok::Kw(Keyword::Let) || t == Tok::Kw(Keyword::Type)
}

/// A literal, a name or a constructor: a whole expression by itself.
pub open spec fn simple_atom_tok(t: Tok) -> bool {
    t is Int || t is Str || t is Ident || t is Upper || t == Tok::Kw(Keyword::True) || t == Tok::Kw(Keyword::False)
}

/// The expression that a token of [`simple_atom_tok`] stands for.
pub open spec fn simple_atom_expr(t: Tok) -> Expr {
    match t {
        Tok::Int(n) => Expr::Lit(Lit::Int(n)),
        Tok::Str(v) => Expr::Lit(Lit::Str(v)),
        Tok::Ident(v) => Expr::Var(v),
        Tok::Upper(c) => Expr::Ctor(c),
        Tok::Kw(Keyword::True) => Expr::Lit(Lit::Bool(true)),
        _ => Expr::Lit(Lit::Bool(false)),
    }
}

/// `t[i]` is such an atom and the phrase ends right after it.
pub open spec fn lone_atom(t: Seq<Token>, i: int) -> bool {
    0 <= i && i + 1 < t.len() && simple_atom_tok(t[i].tok) && ends_phrase(t[i + 1].tok)
}

/// `t[i]` and `t[i + 1]` are such atoms and the phrase ends right after
/// them: the application of the first to the second.
pub open spec fn simple_app(t: Seq<Token>, i: int) -> bool {
    0 <= i && i + 2 < t.len() && simple_atom_tok(t[i].tok) && simple_atom_tok(t[i + 1].tok) && ends_phrase(t[i + 2].tok)
}

/// The expression of a phrase of one atom or of one atom applied to
/// another, and where it ends.
pub open spec fn short_phrase(t: Seq<Token>, i: int) -> Option<(Expr, int)> {
    if lone_atom(t, i) {
        Some((simple_atom_expr(t[i].tok), i + 1))
    } else if simple_app(t, i) {
        Some((Expr::App(Box::new(simple_atom_expr(t[i].tok)), Box::new(simple_atom_expr(t[i + 1].tok))), i + 2))
    } else {
        None
    }
}

/// `t[i]` opens a list literal of `n` atoms separated by commas: `[]`, or
/// `[a1, ..., an]`.
pub open spec fn atom_list_at(t: Seq<Token>, i: int, n: nat) -> bool {
    &&& 0 <= i && i + 2 * n + 1 < t.len()
    &&& t[i].tok == Tok::Sym(Symbol::LBracket)
    &&& n == 0 ==> t[i + 1].tok == Tok::Sym(Symbol::RBracket)
    &&& forall|k: int| 0 <= k < n ==> simple_atom_tok(#[trigger] t[i + 1 + 2 * k].tok)
    &&& forall|k: int| 0 <= k < n - 1 ==> #[trigger] t[i + 2 + 2 * k].tok == Tok::Sym(Symbol::Comma)
    &&& n > 0 ==> t[i + 2 * n].tok == Tok::Sym(Symbol::RBracket)
}

proof fn lemma_atom_list_unique(t: Seq<Token>, i: int, a: nat, b: nat)
    requires
        atom_list_at(t, i, a),
        atom_list_at(t, i, b),
    ensures
        a == b,
{
    if a < b {
        if a == 0 {
            assert(simple_atom_tok(t[i + 1 + 2 * 0].tok));
        } else {
            assert(t[i + 2 + 2 * (a - 1)].tok == Tok::Sym(Symbol::Comma));
        }
    } else if b < a {
        if b == 0 {
            assert(simple_atom_tok(t[i + 1 + 2 * 0].tok));
        } else {
            assert(t[i + 2 + 2 * (b - 1)].tok == Tok::Sym(Symbol::Comma));
        }
    }
}

/// The atoms of such a list literal.
pub open spec fn list_atoms(t: Seq<Token>, i: int, n: nat) -> Seq<Expr> {
    Seq::new(n, |k: int| simple_atom_expr(t[i + 1 + 2 * k].tok))
}

/// A wildcard, a variable or a literal: a whole pattern by itself.
pub open spec fn simple_pat_tok(t: Tok) -> bool {
    t == Tok::Sym(Symbol::Underscore) || t is Ident || t is Int || t is Str || t == Tok::Kw(Keyword::True)
        || t == Tok::Kw(Keyword::False)
}

/// The pattern that a token of [`simple_pat_tok`] stands for.
pub open spec fn simple_pat(t: Tok) -> Pattern {
    match t {
        Tok::Ident(v) => Pattern::Var(v),
        Tok::Int(n) => Pattern::PLit(Lit::Int(n)),
        Tok::Str(v) => Pattern::PLit(Lit::Str(v)),
        Tok::Kw(Keyword::True) => Pattern::PLit(Lit::Bool(true)),
        Tok::Kw(Keyword::False) => Pattern::PLit(Lit::Bool(false)),
        _ => Pattern::Wildcard,
    }
}

/// `t[i]` is such a pattern and the pattern ends right after it (at an
/// arrow, `=`, or where a phrase ends).
pub open spec fn lone_pat(t: Seq<Token>, i: int) -> bool {
    &&& 0 <= i && i + 1 < t.len() && simple_pat_tok(t[i].tok)
    &&& ends_phrase(t[i + 1].tok) || t[i + 1].tok == Tok::Sym(Symbol::Arrow) || t[i + 1].tok == Tok::Sym(Symbol::Eq)
}

/// `t[i]` is a type variable or a type name and the type ends right after
/// it (at `=`, `|`, or where a phrase ends).
pub open spec fn lone_ty(t: Seq<Token>, i: int) -> bool {
    &&& 0 <= i && i + 1 < t.len() && (t[i].tok is Ident || t[i].tok is Upper)
    &&& ends_phrase(t[i + 1].tok) || t[i + 1].tok == Tok::Sym(Symbol::Eq) || t[i + 1].tok == Tok::Sym(Symbol::Bar)
}

/// The type that a lone type token stands for.
pub open spec fn lone_ty_value(t: Tok, x: TyAst) -> bool {
    match t {
        Tok::Ident(v) => x == TyAst::TVar(v),
        Tok::Upper(c) => x matches TyAst::TCon(n, a) && n == c && a@.len() == 0,
        _ => false,
    }
}

/// `name = atom` at `t[i]`, ending after the atom.
pub open spec fn simple_def_at(t: Seq<Token>, i: int) -> bool {
    0 <= i && i + 3 < t.len() && t[i].tok is Ident && t[i + 1].tok == Tok::Sym(Symbol::Eq) && lone_atom(t, i + 2)
}

/// `type Name = Ctor` at `t[i]`, followed by a token that ends a phrase.
pub open spec fn simple_tydef_at(t: Seq<Token>, i: int) -> bool {
    &&& 0 <= i && i + 4 < t.len()
    &&& t[i].tok == Tok::Kw(Keyword::Type) && t[i + 1].tok is Upper && t[i + 2].tok == Tok::Sym(Symbol::Eq)
    &&& t[i + 3].tok is Upper && ends_phrase(t[i + 4].tok)
}

// ---------- syntax helpers ----------

/// Wraps `body` in one lambda per parameter pattern, first parameter
/// outermost.
pub fn wrap_params(params: Vec<Pattern>, body: Expr) -> (e: Expr)
    ensures
        e == lams(params@, body),
{
    let ghost orig = params@;
    let ghost orig_body = body;
    let mut ps = params;
    let mut cur = body;
    while ps.len() > 0
        invariant
            lams(orig, orig_body) == lams(ps@, cur),
        decreases ps.len(),
    {
        let ghost before = ps@;
        let p = ps.pop().unwrap();
        proof {
            assert(ps@ == before.drop_last());
        }
        cur = Expr::Lam(p, Box::new(cur));
    }
    cur
}

fn str_name(s: &str) -> (r: String)
    ensures
        r@ == s@,
{
    String::from_str(s)
}

/// The empty list `Nil`.
pub fn nil() -> (e: Expr)
    ensures
        e matches Expr::Ctor(n) && n@ == "Nil"@,
{
    proof {
        reveal_strlit("Nil");
    }
    Expr::Ctor(str_name("Nil"))
}

/// `Cons h t`.
pub fn cons(h: Expr, t: Expr) -> (e: Expr)
    ensures
        e matches Expr::App(f, tl) && *tl == t && (*f matches Expr::App(c, hd) && *hd == h
            && (*c matches Expr::Ctor(n) && n@ == "Cons"@)),
{
    Expr::App(Box::new(Expr::App(Box::new(Expr::Ctor(str_name("Cons"))), Box::new(h))), Box::new(t))
}

/// The empty-list pattern.
pub fn pat_nil() -> (p: Pattern)
    ensures
        p matches Pattern::PCtor(n, args) && n@ == "Nil"@ && args@.len() == 0,
{
    Pattern::PCtor(str_name("Nil"), Vec::new())
}

} // verus!

verus! {

// ---------- types ----------

fn parse_type(toks: &Vec<Token>, pos: usize) -> (r: PResult<(TyAst, usize)>)
    requires
        parsable(toks@),
        pos < toks.len(),
    ensures
        r matches Ok((x, p)) ==> pos < p < toks.len() && ty(toks@, pos as int, p as int, x),
        lone_ty(toks@, pos as int) ==> (r matches Ok((x, p)) && p == pos + 1 && lone_ty_value(toks@[pos as int].tok, x)),
    decreases toks.len() - pos, 12nat,
{
    let (l, p) = parse_app_ty(toks, pos)?;
    match eat_sym(toks, p, Symbol::Arrow) {
        Some(p2) => {
            let (rt, p3) = parse_type(toks, p2)?;
            let x = TyAst::Arrow(Box::new(l), Box::new(rt));
            proof {
                lemma_ty_arrow(toks@, pos as int, p as int, p3 as int, l, rt);
            }
            Ok((x, p3))
        }
        None => {
            assert(ty(toks@, pos as int, p as int, l));
            Ok((l, p))
        }
    }
}

fn parse_app_ty(toks: &Vec<Token>, pos: usize) -> (r: PResult<(TyAst, usize)>)
    requires
        parsable(toks@),
        pos < toks.len(),
    ensures
        r matches Ok((x, p)) ==> pos < p < toks.len() && app_ty(toks@, pos as int, p as int, x),
        lone_ty(toks@, pos as int) ==> (r matches Ok((x, p)) && p == pos + 1 && lone_ty_value(toks@[pos as int].tok, x)),
    decreases toks.len() - pos, 11nat,
{
    let (head, p0) = parse_atomty(toks, pos)?;
    let ghost h = head;
    let mut p = p0;
    let mut args: Vec<TyAst> = Vec::new();
    while starts_type_atom(toks, p)
        invariant
            parsable(toks@),
            pos < p0 <= p < toks.len(),
            atom_tys(toks@, p0 as int, p as int, args@),
            args@.len() > 0 ==> !(tk(toks@, p0 as int) is Eof),
            lone_ty(toks@, pos as int) ==> p == pos + 1 && args@.len() == 0 && lone_ty_value(toks@[pos as int].tok, head),
        decreases toks.len() - p,
    {
        let (a, p2) = parse_atomty(toks, p)?;
        let ghost before = args@;
        args.push(a);
        proof {
            assert(args@.drop_last() == before);
            assert(tk(toks@, p as int) == tk(toks@, p as int));
        }
        p = p2;
    }
    if args.len() == 0 {
        Ok((head, p))
    } else {
        match head {
            TyAst::TCon(name, existing) => {
                if existing.len() == 0 {
                    proof {
                        lemma_con_head(toks@, pos as int, p0 as int, h);
                        assert(tk(toks@, p0 as int) == tk(toks@, p0 as int));
                    }
                    Ok((TyAst::TCon(name, args), p))
                } else {
                    let t = TyAst::TCon(name, existing);
                    let f = format_tyast(&t);
                    Err(concat3("invalid type application on `", f.as_str(), "`"))
                }
            }
            other => {
                let f = format_tyast(&other);
                Err(concat3("invalid type application on `", f.as_str(), "`"))
            }
        }
    }
}

fn parse_atomty(toks: &Vec<Token>, pos: usize) -> (r: PResult<(TyAst, usize)>)
    requires
        parsable(toks@),
        pos < toks.len(),
    ensures
        r matches Ok((x, p)) ==> pos < p < toks.len() && atom_ty(toks@, pos as int, p as int, x),
        lone_ty(toks@, pos as int) ==> (r matches Ok((x, p)) && p == pos + 1 && lone_ty_value(toks@[pos as int].tok, x)),
    decreases toks.len() - pos, 10nat,
{
    match &toks[pos].tok {
        Tok::Ident(v) => {
            let x = TyAst::TVar(v.clone());
            assert(atom_ty(toks@, pos as int, pos + 1, x));
            Ok((x, adv(toks, pos)))
        }
        Tok::Upper(c) => {
            let x = TyAst::TCon(c.clone(), Vec::new());
            assert(atom_ty(toks@, pos as int, pos + 1, x));
            Ok((x, adv(toks, pos)))
        }
        Tok::Sym(Symbol::LParen) => {
            let p = adv(toks, pos);
            if let Some(p2) = eat_sym(toks, p, Symbol::RParen) {
                let x = TyAst::TCon(str_name("Unit"), Vec::new());
                assert(atom_ty(toks@, pos as int, p2 as int, x));
                return Ok((x, p2));
            }
            let (t, p3) = parse_type(toks, p)?;
            if let Some(p4) = eat_sym(toks, p3, Symbol::Comma) {
                let mut elems: Vec<TyAst> = Vec::new();
                elems.push(t);
                let mut q = p4;
                proof {
                    assert(ty_commas(toks@, p as int, p3 as int, elems@));
                }
                loop
                    invariant_except_break
                        p < q - 1,
                        ty_commas(toks@, p as int, q - 1, elems@),
                        tk(toks@, q - 1) == Tok::Sym(Symbol::Comma),
                    invariant
                        parsable(toks@),
                        pos < p < q < toks.len(),
                        !lone_ty(toks@, pos as int),
                        elems@.len() >= 1,
                    ensures
                        elems@.len() >= 2,
                        ty_commas(toks@, p as int, q as int, elems@),
                    decreases toks.len() - q,
                {
                    let (e, q2) = parse_type(toks, q)?;
                    let ghost before = elems@;
                    elems.push(e);
                    proof {
                        assert(elems@.drop_last() == before);
                        assert(tk(toks@, q - 1) == tk(toks@, q - 1));
                        assert(ty_commas(toks@, p as int, q2 as int, elems@));
                    }
                    match eat_sym(toks, q2, Symbol::Comma) {
                        Some(q3) => {
                            q = q3;
                        }
                        None => {
                            q = q2;
                            break;
                        }
                    }
                }
                let q5 = expect_sym(toks, q, Symbol::RParen)?;
                let x = TyAst::TTuple(elems);
                assert(atom_ty(toks@, pos as int, q5 as int, x));
                Ok((x, q5))
            } else {
                let p5 = expect_sym(toks, p3, Symbol::RParen)?;
                assert(atom_ty(toks@, pos as int, p5 as int, t));
                Ok((t, p5))
            }
        }
        Tok::Sym(Symbol::LBracket) => {
            let p = adv(toks, pos);
            let (t, p2) = parse_type(toks, p)?;
            let p3 = expect_sym(toks, p2, Symbol::RBracket)?;
            let x = TyAst::list(t);
            assert(atom_ty(toks@, pos as int, p3 as int, x));
            Ok((x, p3))
        }
        _ => Err(err_at(toks, pos, "expected type")),
    }
}

// ---------- patterns ----------

fn parse_pattern(toks: &Vec<Token>, pos: usize) -> (r: PResult<(Pattern, usize)>)
    requires
        parsable(toks@),
        pos < toks.len(),
    ensures
        r matches Ok((x, p)) ==> pos < p < toks.len() && pattern(toks@, pos as int, p as int, x),
        lone_pat(toks@, pos as int) ==> r == Ok::<(Pattern, usize), String>((simple_pat(toks@[pos as int].tok), (pos + 1) as usize)),
    decreases toks.len() - pos, 7nat,
{
    let (l, p) = parse_pat_app(toks, pos)?;
    match eat_sym(toks, p, Symbol::ColonColon) {
        Some(p2) => {
            let (rp, p3) = parse_pattern(toks, p2)?;
            let mut args: Vec<Pattern> = Vec::new();
            args.push(l);
            args.push(rp);
            let x = Pattern::PCtor(str_name("Cons"), args);
            proof {
                assert(tk(toks@, p as int) == Tok::Sym(Symbol::ColonColon));
                assert(pattern(toks@, pos as int, p3 as int, x));
            }
            Ok((x, p3))
        }
        None => Ok((l, p)),
    }
}

fn parse_pat_app(toks: &Vec<Token>, pos: usize) -> (r: PResult<(Pattern, usize)>)
    requires
        parsable(toks@),
        pos < toks.len(),
    ensures
        r matches Ok((x, p)) ==> pos < p < toks.len() && pat_app(toks@, pos as int, p as int, x),
        lone_pat(toks@, pos as int) ==> r == Ok::<(Pattern, usize), String>((simple_pat(toks@[pos as int].tok), (pos + 1) as usize)),
    decreases toks.len() - pos, 6nat,
{
    match &toks[pos].tok {
        Tok::Upper(name) => {
            let mut p = adv(toks, pos);
            let mut args: Vec<Pattern> = Vec::new();
            while starts_atom(toks, p)
                invariant
                    parsable(toks@),
                    pos < p < toks.len(),
                    pat_atoms(toks@, pos + 1, p as int, args@),
                    !lone_pat(toks@, pos as int),
                decreases toks.len() - p,
            {
                let (a, p2) = parse_pat_atom(toks, p)?;
                let ghost before = args@;
                args.push(a);
                proof {
                    assert(args@.drop_last() == before);
                    assert(tk(toks@, p as int) == tk(toks@, p as int));
                }
                p = p2;
            }
            Ok((Pattern::PCtor(name.clone(), args), p))
        }
        _ => parse_pat_atom(toks, pos),
    }
}

fn parse_pat_atom(toks: &Vec<Token>, pos: usize) -> (r: PResult<(Pattern, usize)>)
    requires
        parsable(toks@),
        pos < toks.len(),
    ensures
        r matches Ok((x, p)) ==> pos < p < toks.len() && pat_atom(toks@, pos as int, p as int, x),
        lone_pat(toks@, pos as int) ==> r == Ok::<(Pattern, usize), String>((simple_pat(toks@[pos as int].tok), (pos + 1) as usize)),
    decreases toks.len() - pos, 5nat,
{
    match &toks[pos].tok {
        Tok::Sym(Symbol::Underscore) => Ok((Pattern::Wildcard, adv(toks, pos))),
        Tok::Ident(name) => Ok((Pattern::Var(name.clone()), adv(toks, pos))),
        Tok::Int(n) => Ok((Pattern::PLit(Lit::Int(*n)), adv(toks, pos))),
        Tok::Str(s) => Ok((Pattern::PLit(Lit::Str(s.clone())), adv(toks, pos))),
        Tok::Kw(Keyword::True) => Ok((Pattern::PLit(Lit::Bool(true)), adv(toks, pos))),
        Tok::Kw(Keyword::False) => Ok((Pattern::PLit(Lit::Bool(false)), adv(toks, pos))),
        Tok::Sym(Symbol::LParen) => {
            let p = adv(toks, pos);
            if let Some(p2) = eat_sym(toks, p, Symbol::RParen) {
                return Ok((Pattern::PLit(Lit::Unit), p2));
            }
            let (first, p3) = parse_pattern(toks, p)?;
            if let Some(p4) = eat_sym(toks, p3, Symbol::Comma) {
                let mut elems: Vec<Pattern> = Vec::new();
                elems.push(first);
                let mut q = p4;
                proof {
                    assert(pat_commas(toks@, p as int, p3 as int, elems@));
                }
                loop
                    invariant_except_break
                        p < q - 1,
                        pat_commas(toks@, p as int, q - 1, elems@),
                        tk(toks@, q - 1) == Tok::Sym(Symbol::Comma),
                    invariant
                        parsable(toks@),
                        pos < p < q < toks.len(),
                        !lone_pat(toks@, pos as int),
                        elems@.len() >= 1,
                    ensures
                        elems@.len() >= 2,
                        pat_commas(toks@, p as int, q as int, elems@),
                    decreases toks.len() - q,
                {
                    let (e, q2) = parse_pattern(toks, q)?;
                    let ghost before = elems@;
                    elems.push(e);
                    proof {
                        assert(elems@.drop_last() == before);
                        assert(tk(toks@, q - 1) == tk(toks@, q - 1));
                    }
                    match eat_sym(toks, q2, Symbol::Comma) {
                        Some(q3) => {
                            q = q3;
                        }
                        None => {
                            q = q2;
                            break;
                        }
                    }
                }
                let q5 = expect_sym(toks, q, Symbol::RParen)?;
                Ok((Pattern::PTuple(elems), q5))
            } else {
                let p5 = expect_sym(toks, p3, Symbol::RParen)?;
                Ok((first, p5))
            }
        }
        Tok::Sym(Symbol::LBracket) => {
            let p = adv(toks, pos);
            if let Some(p2) = eat_sym(toks, p, Symbol::RBracket) {
                return Ok((pat_nil(), p2));
            }
            let mut elems: Vec<Pattern> = Vec::new();
            let (first, p3) = parse_pattern(toks, p)?;
            elems.push(first);
            let mut q = p3;
            while at_sym(toks, q, Symbol::Comma)
                invariant
                    parsable(toks@),
                    pos < p < q < toks.len(),
                    pat_commas(toks@, p as int, q as int, elems@),
                    !lone_pat(toks@, pos as int),
                decreases toks.len() - q,
            {
                let q2 = adv(toks, q);
                let (e, q3) = parse_pattern(toks, q2)?;
                let ghost before = elems@;
                elems.push(e);
                proof {
                    assert(elems@.drop_last() == before);
                    assert(tk(toks@, q as int) == Tok::Sym(Symbol::Comma));
                    assert(pattern(toks@, q2 as int, q3 as int, elems@.last()));
                }
                q = q3;
            }
            let q4 = expect_sym(toks, q, Symbol::RBracket)?;
            let ghost all = elems@;
            let mut acc = pat_nil();
            while elems.len() > 0
                invariant
                    all.len() >= elems@.len(),
                    elems@ == all.subrange(0, elems@.len() as int),
                    is_pat_list(acc, all.subrange(elems@.len() as int, all.len() as int)),
                decreases elems.len(),
            {
                let e = elems.pop().unwrap();
                let mut args: Vec<Pattern> = Vec::new();
                args.push(e);
                args.push(acc);
                acc = Pattern::PCtor(str_name("Cons"), args);
                proof {
                    let n = elems@.len() as int;
                    assert(all.subrange(n, all.len() as int).drop_first() =~= all.subrange(n + 1, all.len() as int));
                    assert(elems@ =~= all.subrange(0, n));
                }
            }
            proof {
                assert(all.subrange(0, all.len() as int) =~= all);
            }
            Ok((acc, q4))
        }
        _ => Err(err_at(toks, pos, "expected pattern")),
    }
}

// ---------- printing type expressions ----------

/// Source-like rendering of a type expression: `a`, `Name`, `Name a b`,
/// `a -> b`, `(a, b)`.
pub open spec fn tyast_text(t: TyAst) -> Seq<char>
    decreases t, 0nat,
{
    match t {
        TyAst::TVar(v) => v@,
        TyAst::TCon(name, args) => if args@.len() == 0 {
            name@
        } else {
            name@ + tyasts_spaced(args@)
        },
        TyAst::Arrow(a, b) => tyast_text(*a) + " -> "@ + tyast_text(*b),
        TyAst::TTuple(ts) => "("@ + tyasts_joined(ts@) + ")"@,
    }
}

/// Each type expression of `ts` after a space.
pub open spec fn tyasts_spaced(ts: Seq<TyAst>) -> Seq<char>
    decreases ts, ts.len(),
{
    if ts.len() == 0 {
        Seq::empty()
    } else {
        tyasts_spaced(ts.drop_last()) + " "@ + tyast_text(ts.last())
    }
}

/// The type expressions of `ts` separated by `, `.
pub open spec fn tyasts_joined(ts: Seq<TyAst>) -> Seq<char>
    decreases ts, ts.len(),
{
    if ts.len() == 0 {
        Seq::empty()
    } else if ts.len() == 1 {
        tyast_text(ts[0])
    } else {
        tyasts_joined(ts.drop_last()) + ", "@ + tyast_text(ts.last())
    }
}

/// Source-like rendering of a type expression.
#[verifier::loop_isolation(false)]
pub fn format_tyast(t: &TyAst) -> (s: String)
    ensures
        s@ == tyast_text(*t),
    decreases t,
{
    match t {
        TyAst::TVar(v) => v.clone(),
        TyAst::TCon(name, args) => {
            if args.len() == 0 {
                name.clone()
            } else {
                let mut s = name.clone();
                let mut i: usize = 0;
                while i < args.len()
                    invariant
                        i <= args.len(),
                        s@ == name@ + tyasts_spaced(args@.subrange(0, i as int)),
                    decreases args.len() - i,
                {
                    s.append(" ");
                    proof {
                        assert(decreases_to!(args => args[i as int]));
                    }
                    let a = format_tyast(&args[i]);
                    s.append(a.as_str());
                    proof {
                        let pre = args@.subrange(0, i + 1);
                        assert(pre.drop_last() =~= args@.subrange(0, i as int));
                        assert(s@ =~= name@ + tyasts_spaced(pre));
                    }
                    i = i + 1;
                }
                proof {
                    assert(args@.subrange(0, args.len() as int) =~= args@);
                }
                s
            }
        }
        TyAst::Arrow(a, b) => {
            let sa = format_tyast(a);
            let sb = format_tyast(b);
            concat3(sa.as_str(), " -> ", sb.as_str())
        }
        TyAst::TTuple(ts) => {
            let mut s = String::from_str("(");
            let mut i: usize = 0;
            while i < ts.len()
                invariant
                    i <= ts.len(),
                    s@ == "("@ + tyasts_joined(ts@.subrange(0, i as int)),
                decreases ts.len() - i,
            {
                if i > 0 {
                    s.append(", ");
                }
                proof {
                    assert(decreases_to!(ts => ts[i as int]));
                }
                let a = format_tyast(&ts[i]);
                s.append(a.as_str());
                proof {
                    let pre = ts@.subrange(0, i + 1);
                    assert(pre.drop_last() =~= ts@.subrange(0, i as int));
                    if i == 0 {
                        assert(pre.len() == 1);
                        assert(s@ =~= "("@ + tyasts_joined(pre));
                    } else {
                        assert(s@ =~= "("@ + tyasts_joined(pre));
                    }
                }
                i = i + 1;
            }
            s.append(")");
            proof {
                assert(ts@.subrange(0, ts.len() as int) =~= ts@);
            }
            s
        }
    }
}

} // verus!

verus! {

// ---------- expressions ----------

fn parse_expr_at(toks: &Vec<Token>, pos: usize) -> (r: PResult<(Expr, usize)>)
    requires
        parsable(toks@),
        pos < toks.len(),
    ensures
        r matches Ok((x, p)) ==> pos < p < toks.len() && expr(toks@, pos as int, p as int, x),
        short_phrase(toks@, pos as int) matches Some((x, q)) ==> r == Ok::<(Expr, usize), String>((x, q as usize)),
    decreases toks.len() - pos, 30nat,
{
    match &toks[pos].tok {
        Tok::Kw(Keyword::Fun) => {
            let p = adv(toks, pos);
            let (first, p1) = parse_pat_atom(toks, p)?;
            let mut ps: Vec<Pattern> = Vec::new();
            ps.push(first);
            proof {
                assert(!(tk(toks@, p as int) is Eof));
                assert(ps@.drop_last() =~= Seq::<Pattern>::empty());
                assert(pat_atoms(toks@, p as int, p as int, ps@.drop_last()));
                assert(pat_atoms(toks@, p as int, p1 as int, ps@));
            }
            let mut q = p1;
            while starts_param(toks, q)
                invariant
                    parsable(toks@),
                    pos < p < q < toks.len(),
                    short_phrase(toks@, pos as int) is None,
                    ps@.len() >= 1,
                    pat_atoms(toks@, p as int, q as int, ps@),
                decreases toks.len() - q,
            {
                let (pp, q2) = parse_pat_atom(toks, q)?;
                let ghost before = ps@;
                ps.push(pp);
                proof {
                    assert(ps@.drop_last() == before);
                    assert(!(tk(toks@, q as int) is Eof));
                }
                q = q2;
            }
            let q3 = expect_sym(toks, q, Symbol::Arrow)?;
            let (body, q4) = parse_expr_at(toks, q3)?;
            proof {
                lemma_fun_rest(toks@, p as int, q as int, q4 as int, ps@, body);
            }
            Ok((wrap_params(ps, body), q4))
        }
        Tok::Kw(Keyword::If) => {
            let p = adv(toks, pos);
            let (cond, p1) = parse_expr_at(toks, p)?;
            let p2 = expect_kw(toks, p1, Keyword::Then)?;
            let (th, p3) = parse_expr_at(toks, p2)?;
            let p4 = expect_kw(toks, p3, Keyword::Else)?;
            let (el, p5) = parse_expr_at(toks, p4)?;
            proof {
                assert(tk(toks@, p1 as int) == Tok::Kw(Keyword::Then));
                assert(tk(toks@, p3 as int) == Tok::Kw(Keyword::Else));
            }
            Ok((Expr::If(Box::new(cond), Box::new(th), Box::new(el)), p5))
        }
        Tok::Kw(Keyword::Case) => {
            let p = adv(toks, pos);
            let (scrut, p1) = parse_expr_at(toks, p)?;
            let p2 = expect_kw(toks, p1, Keyword::Of)?;
            let q0 = match eat_sym(toks, p2, Symbol::Bar) {
                Some(p3) => p3,
                None => p2,
            };
            let mut q = q0;
            let mut bs: Vec<(Pattern, Expr)> = Vec::new();
            loop
                invariant_except_break
                    bs@.len() == 0 ==> q == q0,
                    bs@.len() > 0 ==> q0 < q - 1 && tk(toks@, q - 1) == Tok::Sym(Symbol::Bar) && branches(
                        toks@,
                        q0 as int,
                        q - 1,
                        bs@,
                    ),
                invariant
                    parsable(toks@),
                    pos < p1 < q0 <= q < toks.len(),
                    q0 == p1 + 1 || q0 == p1 + 2 && tk(toks@, p1 + 1) == Tok::Sym(Symbol::Bar),
                    short_phrase(toks@, pos as int) is None,
                ensures
                    bs@.len() >= 1,
                    q0 < q,
                    branches(toks@, q0 as int, q as int, bs@),
                decreases toks.len() - q,
            {
                let (pat, q1) = parse_pattern(toks, q)?;
                let q2 = expect_sym(toks, q1, Symbol::Arrow)?;
                let (body, q3) = parse_expr_at(toks, q2)?;
                let ghost before = bs@;
                proof {
                    assert(tk(toks@, q1 as int) == Tok::Sym(Symbol::Arrow));
                    assert(branch(toks@, q as int, q3 as int, (pat, body)));
                }
                bs.push((pat, body));
                proof {
                    assert(bs@.drop_last() == before);
                }
                match eat_sym(toks, q3, Symbol::Bar) {
                    Some(q4) => {
                        q = q4;
                    }
                    None => {
                        q = q3;
                        break;
                    }
                }
            }
            proof {
                assert(tk(toks@, p1 as int) == Tok::Kw(Keyword::Of));
            }
            Ok((Expr::Case(Box::new(scrut), bs), q))
        }
        Tok::Kw(Keyword::Let) => parse_local_def(toks, pos),
        _ => parse_seq(toks, pos),
    }
}

/// local `let`: consumes `let` and requires `in`
fn parse_local_def(toks: &Vec<Token>, pos: usize) -> (r: PResult<(Expr, usize)>)
    requires
        parsable(toks@),
        pos < toks.len(),
    ensures
        r matches Ok((x, p)) ==> pos < p < toks.len() && local_def(toks@, pos as int, p as int, x),
        pos + 6 < toks.len() && toks@[pos as int].tok == Tok::Kw(Keyword::Let) && simple_def_at(toks@, pos + 1)
            && toks@[pos + 4].tok == Tok::Kw(Keyword::In) && lone_atom(toks@, pos + 5) ==> (r matches Ok((x, p))
            && p == pos + 6 && (x matches Expr::Let { is_rec, name, rhs, body } && !is_rec && toks@[pos + 1].tok
            == Tok::Ident(name) && *rhs == simple_atom_expr(toks@[pos + 3].tok) && *body == simple_atom_expr(
            toks@[pos + 5].tok,
        ))),
    decreases toks.len() - pos, 29nat,
{
    let p = expect_kw(toks, pos, Keyword::Let)?;
    if at_sym(toks, p, Symbol::LParen) {
        // `let (a, b) = rhs in body` is a one-branch `case`
        let (pat, p1) = parse_pat_atom(toks, p)?;
        let p2 = expect_sym(toks, p1, Symbol::Eq)?;
        let (rhs, p3) = parse_expr_at(toks, p2)?;
        let p4 = expect_kw(toks, p3, Keyword::In)?;
        let (body, p5) = parse_expr_at(toks, p4)?;
        let mut branches: Vec<(Pattern, Expr)> = Vec::new();
        branches.push((pat, body));
        proof {
            assert(tk(toks@, p1 as int) == Tok::Sym(Symbol::Eq));
            assert(tk(toks@, p3 as int) == Tok::Kw(Keyword::In));
        }
        return Ok((Expr::Case(Box::new(rhs), branches), p5));
    }
    let (is_rec, p1) = match eat_kw(toks, p, Keyword::Rec) {
        Some(q) => (true, q),
        None => (false, p),
    };
    let (d, p2) = parse_let_tail(toks, p1, is_rec)?;
    if at_kw(toks, p2, Keyword::And) {
        let t = &toks[p2];
        let mut m = pos_prefix(t.line, t.col);
        m.append("`and` groups are not supported in local lets yet");
        return Err(m);
    }
    let p3 = expect_kw(toks, p2, Keyword::In)?;
    let (rest, p4) = parse_expr_at(toks, p3)?;
    proof {
        lemma_def_rhs(toks@, p1 as int, p2 as int, d);
        assert(tk(toks@, p2 as int) == Tok::Kw(Keyword::In));
    }
    let rhs = wrap_params(d.params, d.body);
    Ok((Expr::Let { is_rec, name: d.name, rhs: Box::new(rhs), body: Box::new(rest) }, p4))
}

/// `name params [: type] = body` after `let [rec]`
fn parse_let_tail(toks: &Vec<Token>, pos: usize, is_rec: bool) -> (r: PResult<(Def, usize)>)
    requires
        parsable(toks@),
        pos < toks.len(),
    ensures
        r matches Ok((d, p)) ==> pos < p < toks.len() && d.is_rec == is_rec && def_rel(toks@, pos as int, p as int, d),
        simple_def_at(toks@, pos as int) ==> (r matches Ok((d, p)) && p == pos + 3 && toks@[pos as int].tok == Tok::Ident(d.name)
            && d.params@.len() == 0 && d.ann is None && d.body == simple_atom_expr(toks@[pos + 2].tok)),
    decreases toks.len() - pos, 28nat,
{
    let (name, p0) = parse_ident(toks, pos)?;
    let mut params: Vec<Pattern> = Vec::new();
    let mut p = p0;
    while starts_param(toks, p)
        invariant
            parsable(toks@),
            pos < p0 <= p < toks.len(),
            pat_atoms(toks@, p0 as int, p as int, params@),
            p0 == pos + 1,
            simple_def_at(toks@, pos as int) ==> p == p0 && params@.len() == 0,
        decreases toks.len() - p,
    {
        let (pp, p2) = parse_pat_atom(toks, p)?;
        let ghost before = params@;
        params.push(pp);
        proof {
            assert(params@.drop_last() == before);
            assert(!(tk(toks@, p as int) is Eof));
        }
        p = p2;
    }
    let (ann, p3) = match eat_sym(toks, p, Symbol::Colon) {
        Some(q) => {
            let (t, q2) = parse_type(toks, q)?;
            (Some(t), q2)
        }
        None => (None, p),
    };
    let p4 = expect_sym(toks, p3, Symbol::Eq)?;
    let (body, p5) = parse_expr_at(toks, p4)?;
    let d = Def { name, params, ann, body, is_rec };
    proof {
        assert(!(tk(toks@, p as int) is Eof));
        assert(tk(toks@, p3 as int) == Tok::Sym(Symbol::Eq));
        assert(tk(toks@, pos as int) == Tok::Ident(d.name));
    }
    Ok((d, p5))
}

fn parse_seq(toks: &Vec<Token>, pos: usize) -> (r: PResult<(Expr, usize)>)
    requires
        parsable(toks@),
        pos < toks.len(),
    ensures
        r matches Ok((x, p)) ==> pos < p < toks.len() && seq_expr(toks@, pos as int, p as int, x),
        short_phrase(toks@, pos as int) matches Some((x, q)) ==> r == Ok::<(Expr, usize), String>((x, q as usize)),
    decreases toks.len() - pos, 27nat,
{
    let (l, p) = parse_ann(toks, pos)?;
    match eat_sym(toks, p, Symbol::Semi) {
        Some(p2) => {
            let (rt, p3) = parse_expr_at(toks, p2)?;
            proof {
                assert(tk(toks@, p as int) == Tok::Sym(Symbol::Semi));
            }
            Ok((Expr::Sequence(Box::new(l), Box::new(rt)), p3))
        }
        None => Ok((l, p)),
    }
}

fn parse_ann(toks: &Vec<Token>, pos: usize) -> (r: PResult<(Expr, usize)>)
    requires
        parsable(toks@),
        pos < toks.len(),
    ensures
        r matches Ok((x, p)) ==> pos < p < toks.len() && ann_expr(toks@, pos as int, p as int, x),
        short_phrase(toks@, pos as int) matches Some((x, q)) ==> r == Ok::<(Expr, usize), String>((x, q as usize)),
    decreases toks.len() - pos, 26nat,
{
    let (l, p) = parse_or(toks, pos)?;
    match eat_sym(toks, p, Symbol::Colon) {
        Some(p2) => {
            let (t, p3) = parse_type(toks, p2)?;
            proof {
                assert(tk(toks@, p as int) == Tok::Sym(Symbol::Colon));
            }
            Ok((Expr::Ann(Box::new(l), t), p3))
        }
        None => Ok((l, p)),
    }
}

fn parse_or(toks: &Vec<Token>, pos: usize) -> (r: PResult<(Expr, usize)>)
    requires
        parsable(toks@),
        pos < toks.len(),
    ensures
        r matches Ok((x, p)) ==> pos < p < toks.len() && or_expr(toks@, pos as int, p as int, x),
        short_phrase(toks@, pos as int) matches Some((x, q)) ==> r == Ok::<(Expr, usize), String>((x, q as usize)),
    decreases toks.len() - pos, 25nat,
{
    let (first, p0) = parse_and(toks, pos)?;
    let mut l = first;
    let mut p = p0;
    while at_sym(toks, p, Symbol::OrOr)
        invariant
            parsable(toks@),
            pos < p < toks.len(),
            or_expr(toks@, pos as int, p as int, l),
            short_phrase(toks@, pos as int) matches Some((x, q)) ==> p == q && l == x,
        decreases toks.len() - p,
    {
        let p1 = adv(toks, p);
        let (rt, p2) = parse_and(toks, p1)?;
        l = Expr::Bin(BinOp::Or, Box::new(l), Box::new(rt));
        proof {
            assert(tk(toks@, p as int) == Tok::Sym(Symbol::OrOr));
        }
        p = p2;
    }
    Ok((l, p))
}

fn parse_and(toks: &Vec<Token>, pos: usize) -> (r: PResult<(Expr, usize)>)
    requires
        parsable(toks@),
        pos < toks.len(),
    ensures
        r matches Ok((x, p)) ==> pos < p < toks.len() && and_expr(toks@, pos as int, p as int, x),
        short_phrase(toks@, pos as int) matches Some((x, q)) ==> r == Ok::<(Expr, usize), String>((x, q as usize)),
    decreases toks.len() - pos, 24nat,
{
    let (first, p0) = parse_compare(toks, pos)?;
    let mut l = first;
    let mut p = p0;
    while at_sym(toks, p, Symbol::AndAnd)
        invariant
            parsable(toks@),
            pos < p < toks.len(),
            and_expr(toks@, pos as int, p as int, l),
            short_phrase(toks@, pos as int) matches Some((x, q)) ==> p == q && l == x,
        decreases toks.len() - p,
    {
        let p1 = adv(toks, p);
        let (rt, p2) = parse_compare(toks, p1)?;
        l = Expr::Bin(BinOp::And, Box::new(l), Box::new(rt));
        proof {
            assert(tk(toks@, p as int) == Tok::Sym(Symbol::AndAnd));
        }
        p = p2;
    }
    Ok((l, p))
}

fn compare_op(toks: &Vec<Token>, pos: usize) -> (r: Option<BinOp>)
    requires
        pos < toks.len(),
    ensures
        r matches Some(op) ==> is_compare_op(op) && toks@[pos as int].tok == Tok::Sym(binop_symbol(op)),
        r is None ==> forall|op: BinOp| is_compare_op(op) ==> toks@[pos as int].tok != Tok::Sym(binop_symbol(op)),
{
    match &toks[pos].tok {
        Tok::Sym(Symbol::EqEq) => Some(BinOp::Eq),
        Tok::Sym(Symbol::NotEq) => Some(BinOp::Neq),
        Tok::Sym(Symbol::Lt) => Some(BinOp::Lt),
        Tok::Sym(Symbol::Gt) => Some(BinOp::Gt),
        Tok::Sym(Symbol::Le) => Some(BinOp::Le),
        Tok::Sym(Symbol::Ge) => Some(BinOp::Ge),
        _ => None,
    }
}

fn parse_compare(toks: &Vec<Token>, pos: usize) -> (r: PResult<(Expr, usize)>)
    requires
        parsable(toks@),
        pos < toks.len(),
    ensures
        r matches Ok((x, p)) ==> pos < p < toks.len() && compare_expr(toks@, pos as int, p as int, x),
        short_phrase(toks@, pos as int) matches Some((x, q)) ==> r == Ok::<(Expr, usize), String>((x, q as usize)),
    decreases toks.len() - pos, 23nat,
{
    let (l, p) = parse_cons(toks, pos)?;
    match compare_op(toks, p) {
        Some(op) => {
            let p1 = adv(toks, p);
            let (rt, p2) = parse_cons(toks, p1)?;
            proof {
                assert(tk(toks@, p as int) == Tok::Sym(binop_symbol(op)));
            }
            Ok((Expr::Bin(op, Box::new(l), Box::new(rt)), p2))
        }
        None => Ok((l, p)),
    }
}

/// `::` and `++`: right associative
fn parse_cons(toks: &Vec<Token>, pos: usize) -> (r: PResult<(Expr, usize)>)
    requires
        parsable(toks@),
        pos < toks.len(),
    ensures
        r matches Ok((x, p)) ==> pos < p < toks.len() && cons_expr(toks@, pos as int, p as int, x),
        short_phrase(toks@, pos as int) matches Some((x, q)) ==> r == Ok::<(Expr, usize), String>((x, q as usize)),
    decreases toks.len() - pos, 22nat,
{
    let (l, p) = parse_add(toks, pos)?;
    let op = if at_sym(toks, p, Symbol::ColonColon) {
        Some(BinOp::Cons)
    } else if at_sym(toks, p, Symbol::PlusPlus) {
        Some(BinOp::Concat)
    } else {
        None
    };
    match op {
        Some(o) => {
            let p1 = adv(toks, p);
            let (rt, p2) = parse_cons(toks, p1)?;
            proof {
                assert(tk(toks@, p as int) == Tok::Sym(binop_symbol(o)));
            }
            Ok((Expr::Bin(o, Box::new(l), Box::new(rt)), p2))
        }
        None => Ok((l, p)),
    }
}

fn parse_add(toks: &Vec<Token>, pos: usize) -> (r: PResult<(Expr, usize)>)
    requires
        parsable(toks@),
        pos < toks.len(),
    ensures
        r matches Ok((x, p)) ==> pos < p < toks.len() && add_expr(toks@, pos as int, p as int, x),
        short_phrase(toks@, pos as int) matches Some((x, q)) ==> r == Ok::<(Expr, usize), String>((x, q as usize)),
    decreases toks.len() - pos, 21nat,
{
    let (first, p0) = parse_mul(toks, pos)?;
    let mut l = first;
    let mut p = p0;
    loop
        invariant
            parsable(toks@),
            pos < p < toks.len(),
            add_expr(toks@, pos as int, p as int, l),
            short_phrase(toks@, pos as int) matches Some((x, q)) ==> p == q && l == x,
        decreases toks.len() - p,
    {
        let op = if at_sym(toks, p, Symbol::Plus) {
            BinOp::Add
        } else if at_sym(toks, p, Symbol::Minus) {
            BinOp::Sub
        } else {
            break;
        };
        let p1 = adv(toks, p);
        let (rt, p2) = parse_mul(toks, p1)?;
        proof {
            assert(tk(toks@, p as int) == Tok::Sym(binop_symbol(op)));
        }
        l = Expr::Bin(op, Box::new(l), Box::new(rt));
        p = p2;
    }
    Ok((l, p))
}

fn parse_mul(toks: &Vec<Token>, pos: usize) -> (r: PResult<(Expr, usize)>)
    requires
        parsable(toks@),
        pos < toks.len(),
    ensures
        r matches Ok((x, p)) ==> pos < p < toks.len() && mul_expr(toks@, pos as int, p as int, x),
        short_phrase(toks@, pos as int) matches Some((x, q)) ==> r == Ok::<(Expr, usize), String>((x, q as usize)),
    decreases toks.len() - pos, 20nat,
{
    let (first, p0) = parse_app(toks, pos)?;
    let mut l = first;
    let mut p = p0;
    loop
        invariant
            parsable(toks@),
            pos < p < toks.len(),
            mul_expr(toks@, pos as int, p as int, l),
            short_phrase(toks@, pos as int) matches Some((x, q)) ==> p == q && l == x,
        decreases toks.len() - p,
    {
        let op = if at_sym(toks, p, Symbol::Star) {
            BinOp::Mul
        } else if at_sym(toks, p, Symbol::Slash) {
            BinOp::Div
        } else if at_sym(toks, p, Symbol::Percent) {
            BinOp::Mod
        } else {
            break;
        };
        let p1 = adv(toks, p);
        let (rt, p2) = parse_app(toks, p1)?;
        proof {
            assert(tk(toks@, p as int) == Tok::Sym(binop_symbol(op)));
        }
        l = Expr::Bin(op, Box::new(l), Box::new(rt));
        p = p2;
    }
    Ok((l, p))
}

/// function application: juxtaposition of atoms
fn parse_app(toks: &Vec<Token>, pos: usize) -> (r: PResult<(Expr, usize)>)
    requires
        parsable(toks@),
        pos < toks.len(),
    ensures
        r matches Ok((x, p)) ==> pos < p < toks.len() && app_expr(toks@, pos as int, p as int, x),
        short_phrase(toks@, pos as int) matches Some((x, q)) ==> r == Ok::<(Expr, usize), String>((x, q as usize)),
    decreases toks.len() - pos, 19nat,
{
    let (first, p0) = parse_atom(toks, pos)?;
    let mut e = first;
    let mut p = p0;
    while starts_atom(toks, p)
        invariant
            parsable(toks@),
            pos < p < toks.len(),
            app_expr(toks@, pos as int, p as int, e),
            lone_atom(toks@, pos as int) ==> p == pos + 1 && e == simple_atom_expr(toks@[pos as int].tok),
            simple_app(toks@, pos as int) ==> (p == pos + 1 && e == simple_atom_expr(toks@[pos as int].tok)) || (p == pos + 2
                && e == Expr::App(Box::new(simple_atom_expr(toks@[pos as int].tok)), Box::new(simple_atom_expr(toks@[pos + 1].tok)))),
        decreases toks.len() - p,
    {
        let (arg, p2) = parse_atom(toks, p)?;
        proof {
            assert(tk(toks@, p as int) == tk(toks@, p as int));
        }
        e = Expr::App(Box::new(e), Box::new(arg));
        p = p2;
    }
    Ok((e, p))
}

fn parse_atom(toks: &Vec<Token>, pos: usize) -> (r: PResult<(Expr, usize)>)
    requires
        parsable(toks@),
        pos < toks.len(),
    ensures
        r matches Ok((x, p)) ==> pos < p < toks.len() && atom_expr(toks@, pos as int, p as int, x),
        0 <= pos && pos + 1 < toks.len() && simple_atom_tok(toks@[pos as int].tok) ==> r == Ok::<(Expr, usize), String>((simple_atom_expr(toks@[pos as int].tok), (pos + 1) as usize)),
        forall|n: nat| #[trigger] atom_list_at(toks@, pos as int, n) ==> (r matches Ok((x, q)) && q == pos + 2 * n + (if n
            == 0 { 2int } else { 1int }) && crate::grammar::is_expr_list(x, list_atoms(toks@, pos as int, n))),
    decreases toks.len() - pos, 18nat,
{
    match &toks[pos].tok {
        Tok::Int(n) => Ok((Expr::Lit(Lit::Int(*n)), adv(toks, pos))),
        Tok::Str(s) => Ok((Expr::Lit(Lit::Str(s.clone())), adv(toks, pos))),
        Tok::Kw(Keyword::True) => Ok((Expr::Lit(Lit::Bool(true)), adv(toks, pos))),
        Tok::Kw(Keyword::False) => Ok((Expr::Lit(Lit::Bool(false)), adv(toks, pos))),
        Tok::Sym(Symbol::Minus) => {
            // negative integer literal (atom position only)
            let p = adv(toks, pos);
            match &toks[p].tok {
                Tok::Int(n) => Ok((Expr::Lit(Lit::Int(0i64.wrapping_sub(*n))), adv(toks, p))),
                _ => Err(err_at(toks, pos, "expected expression")),
            }
        }
        Tok::Ident(name) => Ok((Expr::Var(name.clone()), adv(toks, pos))),
        Tok::Upper(name) => Ok((Expr::Ctor(name.clone()), adv(toks, pos))),
        Tok::Sym(Symbol::LParen) => {
            let p = adv(toks, pos);
            if let Some(p2) = eat_sym(toks, p, Symbol::RParen) {
                return Ok((Expr::Lit(Lit::Unit), p2));
            }
            let (e, p3) = parse_seq_in_parens(toks, p)?;
            if let Some(p4) = eat_sym(toks, p3, Symbol::Comma) {
                let mut elems: Vec<Expr> = Vec::new();
                elems.push(e);
                let mut q = p4;
                proof {
                    assert(expr_commas(toks@, p as int, p3 as int, elems@));
                }
                loop
                    invariant_except_break
                        p < q - 1,
                        expr_commas(toks@, p as int, q - 1, elems@),
                        tk(toks@, q - 1) == Tok::Sym(Symbol::Comma),
                    invariant
                        parsable(toks@),
                        pos < p < q < toks.len(),
                        !simple_atom_tok(toks@[pos as int].tok),
                        toks@[pos as int].tok != Tok::Sym(Symbol::LBracket),
                        elems@.len() >= 1,
                    ensures
                        elems@.len() >= 2,
                        expr_commas(toks@, p as int, q as int, elems@),
                    decreases toks.len() - q,
                {
                    let (x, q2) = parse_seq_in_parens(toks, q)?;
                    let ghost before = elems@;
                    elems.push(x);
                    proof {
                        assert(elems@.drop_last() == before);
                        assert(tk(toks@, q - 1) == Tok::Sym(Symbol::Comma));
                    }
                    match eat_sym(toks, q2, Symbol::Comma) {
                        Some(q3) => {
                            q = q3;
                        }
                        None => {
                            q = q2;
                            break;
                        }
                    }
                }
                let q5 = expect_sym(toks, q, Symbol::RParen)?;
                Ok((Expr::Tuple(elems), q5))
            } else {
                let p5 = expect_sym(toks, p3, Symbol::RParen)?;
                Ok((e, p5))
            }
        }
        Tok::Sym(Symbol::LBracket) => {
            let ghost has = exists|n: nat| atom_list_at(toks@, pos as int, n);
            let ghost ln: nat = choose|n: nat| atom_list_at(toks@, pos as int, n);
            proof {
                assert forall|n: nat| #[trigger] atom_list_at(toks@, pos as int, n) implies n == ln by {
                    lemma_atom_list_unique(toks@, pos as int, n, ln);
                }
            }
            let p = adv(toks, pos);
            if let Some(p2) = eat_sym(toks, p, Symbol::RBracket) {
                proof {
                    if has && ln > 0 {
                        assert(simple_atom_tok(toks@[pos + 1 + 2 * 0].tok));
                    }
                    assert(list_atoms(toks@, pos as int, 0) =~= Seq::<Expr>::empty());
                }
                return Ok((nil(), p2));
            }
            let mut elems: Vec<Expr> = Vec::new();
            proof {
                if has {
                    assert(ln > 0);
                    assert(simple_atom_tok(toks@[pos + 1 + 2 * 0].tok));
                    if ln > 1 {
                        assert(toks@[pos + 2 + 2 * 0].tok == Tok::Sym(Symbol::Comma));
                    }
                    assert(lone_atom(toks@, p as int));
                }
            }
            let (first, p3) = parse_seq_in_parens(toks, p)?;
            elems.push(first);
            let mut q = p3;
            proof {
                if has {
                    assert(elems@ =~= list_atoms(toks@, pos as int, ln).take(1));
                }
            }
            while at_sym(toks, q, Symbol::Comma)
                invariant
                    parsable(toks@),
                    pos < p < q < toks.len(),
                    expr_commas(toks@, p as int, q as int, elems@),
                    !simple_atom_tok(toks@[pos as int].tok),
                    has == (exists|n: nat| atom_list_at(toks@, pos as int, n)),
                    forall|n: nat| #[trigger] atom_list_at(toks@, pos as int, n) ==> n == ln,
                    has ==> atom_list_at(toks@, pos as int, ln) && 1 <= elems@.len() <= ln && q == pos + 2 * elems@.len()
                        && elems@ == list_atoms(toks@, pos as int, ln).take(elems@.len() as int),
                decreases toks.len() - q,
            {
                let q2 = adv(toks, q);
                proof {
                    if has {
                        let k = elems@.len() as int;
                        if k == ln {
                            assert(toks@[pos + 2 * ln].tok == Tok::Sym(Symbol::RBracket));
                        }
                        assert(k < ln);
                        assert(simple_atom_tok(toks@[pos + 1 + 2 * k].tok));
                        if k < ln - 1 {
                            assert(toks@[pos + 2 + 2 * k].tok == Tok::Sym(Symbol::Comma));
                        }
                        assert(lone_atom(toks@, q2 as int));
                    }
                }
                let (x, q3) = parse_seq_in_parens(toks, q2)?;
                let ghost before = elems@;
                elems.push(x);
                proof {
                    assert(elems@.drop_last() == before);
                    assert(tk(toks@, q as int) == Tok::Sym(Symbol::Comma));
                    assert(expr(toks@, q2 as int, q3 as int, elems@.last()));
                    if has {
                        assert(elems@ =~= list_atoms(toks@, pos as int, ln).take(elems@.len() as int));
                    }
                }
                q = q3;
            }
            proof {
                if has {
                    let k = elems@.len() as int;
                    if k < ln {
                        assert(toks@[pos + 2 + 2 * (k - 1)].tok == Tok::Sym(Symbol::Comma));
                    }
                    assert(k == ln);
                    assert(elems@ =~= list_atoms(toks@, pos as int, ln));
                }
            }
            let q4 = expect_sym(toks, q, Symbol::RBracket)?;
            let ghost all = elems@;
            let mut acc = nil();
            while elems.len() > 0
                invariant
                    all.len() >= elems@.len(),
                    elems@ == all.subrange(0, elems@.len() as int),
                    is_expr_list(acc, all.subrange(elems@.len() as int, all.len() as int)),
                decreases elems.len(),
            {
                let x = elems.pop().unwrap();
                acc = cons(x, acc);
                proof {
                    let n = elems@.len() as int;
                    assert(all.subrange(n, all.len() as int).drop_first() =~= all.subrange(n + 1, all.len() as int));
                    assert(elems@ =~= all.subrange(0, n));
                }
            }
            proof {
                assert(all.subrange(0, all.len() as int) =~= all);
            }
            Ok((acc, q4))
        }
        _ => Err(err_at(toks, pos, "expected expression")),
    }
}

/// expression inside parens/list: allows all expression forms
fn parse_seq_in_parens(toks: &Vec<Token>, pos: usize) -> (r: PResult<(Expr, usize)>)
    requires
        parsable(toks@),
        pos < toks.len(),
    ensures
        r matches Ok((x, p)) ==> pos < p < toks.len() && expr(toks@, pos as int, p as int, x),
        short_phrase(toks@, pos as int) matches Some((x, q)) ==> r == Ok::<(Expr, usize), String>((x, q as usize)),
    decreases toks.len() - pos, 31nat,
{
    parse_expr_at(toks, pos)
}

// ---------- items ----------

fn parse_item(toks: &Vec<Token>, pos: usize) -> (r: PResult<(Item, usize)>)
    requires
        parsable(toks@),
        pos < toks.len(),
    ensures
        r matches Ok((x, p)) ==> pos < p < toks.len() && item(toks@, pos as int, p as int, x),
        toks@[pos as int].tok == Tok::Kw(Keyword::Let) && simple_def_at(toks@, pos + 1) ==> (r matches Ok((x, p))
            && p == pos + 4 && (x matches Item::Def(d) && !d.is_rec && toks@[pos + 1].tok == Tok::Ident(d.name)
            && d.params@.len() == 0 && d.ann is None && d.body == simple_atom_expr(toks@[pos + 3].tok))),
        simple_tydef_at(toks@, pos as int) ==> (r matches Ok((x, p)) && p == pos + 4 && (x matches Item::Ty(decl)
            && toks@[pos + 1].tok == Tok::Upper(decl.name) && decl.params@.len() == 0 && decl.ctors@.len() == 1
            && toks@[pos + 3].tok == Tok::Upper(decl.ctors@[0].name) && decl.ctors@[0].fields@.len() == 0)),
{
    match &toks[pos].tok {
        Tok::Kw(Keyword::Let) => {
            let p = adv(toks, pos);
            let (is_rec, p1) = match eat_kw(toks, p, Keyword::Rec) {
                Some(q) => (true, q),
                None => (false, p),
            };
            let (first, p2) = parse_let_tail(toks, p1, is_rec)?;
            if is_rec && at_kw(toks, p2, Keyword::And) {
                let mut group: Vec<Def> = Vec::new();
                group.push(first);
                let mut q = p2;
                proof {
                    assert(def_group(toks@, p1 as int, p2 as int, group@));
                }
                while at_kw(toks, q, Keyword::And)
                    invariant
                        parsable(toks@),
                        pos < p1 < p2 <= q < toks.len(),
                        p1 == pos + 2,
                        tk(toks@, pos as int) == Tok::Kw(Keyword::Let),
                        tk(toks@, pos + 1) == Tok::Kw(Keyword::Rec),
                        toks@[p2 as int].tok == Tok::Kw(Keyword::And),
                        group@.len() >= 1,
                        group@.len() == 1 ==> q == p2,
                        forall|m: int| 0 <= m < group@.len() ==> (#[trigger] group@[m]).is_rec,
                        def_group(toks@, p1 as int, q as int, group@),
                    decreases toks.len() - q,
                {
                    let q1 = adv(toks, q);
                    let (d, q2) = parse_let_tail(toks, q1, true)?;
                    let ghost before = group@;
                    group.push(d);
                    proof {
                        assert(group@.drop_last() == before);
                        assert(tk(toks@, q as int) == Tok::Kw(Keyword::And));
                    }
                    q = q2;
                }
                Ok((Item::RecGroup(group), q))
            } else if at_kw(toks, p2, Keyword::And) {
                Err(err_at(toks, p2, "`and` is only allowed after `let rec`"))
            } else {
                Ok((Item::Def(first), p2))
            }
        }
        Tok::Kw(Keyword::Type) => parse_tydef(toks, pos),
        _ => Err(err_at(toks, pos, "expected item (`let` or `type`)")),
    }
}

fn parse_tydef(toks: &Vec<Token>, pos: usize) -> (r: PResult<(Item, usize)>)
    requires
        parsable(toks@),
        pos < toks.len(),
    ensures
        r matches Ok((x, p)) ==> pos < p < toks.len() && item(toks@, pos as int, p as int, x) && x is Ty,
        simple_tydef_at(toks@, pos as int) ==> (r matches Ok((x, p)) && p == pos + 4 && (x matches Item::Ty(decl)
            && toks@[pos + 1].tok == Tok::Upper(decl.name) && decl.params@.len() == 0 && decl.ctors@.len() == 1
            && toks@[pos + 3].tok == Tok::Upper(decl.ctors@[0].name) && decl.ctors@[0].fields@.len() == 0)),
{
    let p0 = expect_kw(toks, pos, Keyword::Type)?;
    let (name, p1) = parse_upper(toks, p0)?;
    let mut params: Vec<String> = Vec::new();
    let mut p = p1;
    loop
        invariant
            parsable(toks@),
            pos < p1 <= p < toks.len(),
            idents(toks@, p1 as int, p as int, params@),
            simple_tydef_at(toks@, pos as int) ==> p == p1 && p1 == pos + 2 && params@.len() == 0,
        decreases toks.len() - p,
    {
        match &toks[p].tok {
            Tok::Ident(_) => {
                let (v, p2) = parse_ident(toks, p)?;
                let ghost before = params@;
                params.push(v);
                proof {
                    assert forall|m: int| 0 <= m < params@.len() implies #[trigger] tk(toks@, p1 + m) == Tok::Ident(
                        params@[m],
                    ) by {
                        if m < before.len() {
                            assert(params@[m] == before[m]);
                            assert(tk(toks@, p1 + m) == Tok::Ident(before[m]));
                        }
                    }
                }
                p = p2;
            }
            _ => break,
        }
    }
    let p3 = expect_sym(toks, p, Symbol::Eq)?;
    let q0 = match eat_sym(toks, p3, Symbol::Bar) {
        Some(p4) => p4,
        None => p3,
    };
    let mut q = q0;
    let mut ctors: Vec<CtorDecl> = Vec::new();
    loop
        invariant_except_break
            ctors@.len() == 0 ==> q == q0,
            simple_tydef_at(toks@, pos as int) ==> q == pos + 3 && ctors@.len() == 0,
            ctors@.len() > 0 ==> q0 < q - 1 && tk(toks@, q - 1) == Tok::Sym(Symbol::Bar) && ctor_decls(
                toks@,
                q0 as int,
                q - 1,
                ctors@,
            ),
        invariant
            parsable(toks@),
            pos < p < q0 <= q < toks.len(),
            q0 == p + 1 || q0 == p + 2 && tk(toks@, p + 1) == Tok::Sym(Symbol::Bar),
        ensures
            ctors@.len() >= 1,
            q0 < q,
            ctor_decls(toks@, q0 as int, q as int, ctors@),
            simple_tydef_at(toks@, pos as int) ==> q == pos + 4 && ctors@.len() == 1 && toks@[pos + 3].tok == Tok::Upper(
                ctors@[0].name,
            ) && ctors@[0].fields@.len() == 0,
        decreases toks.len() - q,
    {
        let (cname, q1) = parse_upper(toks, q)?;
        let mut fields: Vec<TyAst> = Vec::new();
        let mut f = q1;
        while starts_type_atom(toks, f)
            invariant
                parsable(toks@),
                q < q1 <= f < toks.len(),
                atom_tys(toks@, q1 as int, f as int, fields@),
                q1 == q + 1,
                simple_tydef_at(toks@, pos as int) ==> q == pos + 3 && f == q1 && fields@.len() == 0,
            decreases toks.len() - f,
        {
            let (t, f2) = parse_atomty(toks, f)?;
            let ghost before = fields@;
            fields.push(t);
            proof {
                assert(fields@.drop_last() == before);
                assert(!(tk(toks@, f as int) is Eof));
            }
            f = f2;
        }
        let c = CtorDecl { name: cname, fields };
        proof {
            assert(tk(toks@, q as int) == Tok::Upper(c.name));
            assert(ctor_decl(toks@, q as int, f as int, c));
        }
        let ghost before = ctors@;
        ctors.push(c);
        proof {
            assert(ctors@.drop_last() == before);
        }
        match eat_sym(toks, f, Symbol::Bar) {
            Some(f3) => {
                q = f3;
            }
            None => {
                q = f;
                break;
            }
        }
    }
    let x = Item::Ty(TyDecl { name, params, ctors });
    proof {
        assert(tk(toks@, p as int) == Tok::Sym(Symbol::Eq));
        assert(tk(toks@, p0 as int) == Tok::Upper(name));
    }
    Ok((x, q))
}

/// Parses a whole program: items until `Eof`.
pub fn parse(toks: Vec<Token>) -> (r: PResult<Program>)
    requires
        parsable(toks@),
    ensures
        r matches Ok(prog) ==> program(toks@, prog.items@),
        toks@[0].tok is Eof ==> (r matches Ok(prog) && prog.items@.len() == 0),
{
    let mut items: Vec<Item> = Vec::new();
    let mut p: usize = 0;
    loop
        invariant
            parsable(toks@),
            p < toks.len(),
            crate::grammar::items(toks@, 0, p as int, items@),
            toks@[0].tok is Eof ==> p == 0 && items@.len() == 0,
        ensures
            toks@[p as int].tok is Eof,
        decreases toks.len() - p,
    {
        match &toks[p].tok {
            Tok::Eof => break,
            _ => {
                let (it, p2) = parse_item(&toks, p)?;
                let ghost before = items@;
                items.push(it);
                proof {
                    assert(items@.drop_last() == before);
                    assert(!(tk(toks@, p as int) is Eof));
                }
                p = p2;
            }
        }
    }
    proof {
        assert(tk(toks@, p as int) is Eof);
    }
    Ok(Program { items })
}

impl Parser {
    /// The tokens being parsed.
    pub closed spec fn tokens(&self) -> Seq<Token> {
        self.toks@
    }

    /// The index of the next token.
    pub closed spec fn position(&self) -> int {
        self.pos as int
    }

    /// A parser at the start of `toks`.
    pub fn new(toks: Vec<Token>) -> (p: Parser)
        requires
            parsable(toks@),
        ensures
            p.tokens() == toks@,
            p.position() == 0,
    {
        Parser { toks, pos: 0 }
    }

    /// Parses one expression at the current position and moves past it.
    pub fn parse_expr(&mut self) -> (r: PResult<Expr>)
        requires
            parsable(old(self).tokens()),
            0 <= old(self).position() < old(self).tokens().len(),
        ensures
            final(self).tokens() == old(self).tokens(),
            final(self).position() < final(self).tokens().len(),
            r is Ok ==> final(self).position() > old(self).position(),
            r matches Ok(e) ==> expr(old(self).tokens(), old(self).position(), final(self).position(), e),
            short_phrase(old(self).tokens(), old(self).position()) matches Some((x, q)) ==> r == Ok::<Expr, String>(x)
                && final(self).position() == q,
            r is Err ==> final(self).position() == old(self).position(),
    {
        match parse_expr_at(&self.toks, self.pos) {
            Ok((e, p)) => {
                self.pos = p;
                Ok(e)
            }
            Err(m) => Err(m),
        }
    }
}

} // verus!
