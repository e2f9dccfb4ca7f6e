//! Tokenizer for dacelo source text.
use vstd::prelude::*;
use crate::text::{chars_of, string_of, u64_to_decimal, concat, concat3};

verus! {

/// Reserved words.
#[derive(Debug, Clone, Copy, PartialEq, Eq, Structural)]
pub enum Keyword {
    Let,
    Rec,
    And,
    In,
    If,
    Then,
    Else,
    Case,
    Of,
    Fun,
    True,
    False,
    Type,
}

/// Punctuation and operators.
#[derive(Debug, Clone, Copy, PartialEq, Eq, Structural)]
pub enum Symbol {
    Arrow,
    EqEq,
    NotEq,
    Le,
    Ge,
    AndAnd,
    OrOr,
    PlusPlus,
    ColonColon,
    LParen,
    RParen,
    LBracket,
    RBracket,
    Comma,
    Semi,
    Colon,
    Bar,
    Underscore,
    Lt,
    Gt,
    Eq,
    Plus,
    Minus,
    Star,
    Slash,
    Percent,
}

/// Token kinds.
#[derive(Debug)]
pub enum Tok {
    Int(i64),
    Str(String),
    Ident(String),
    Upper(String),
    Kw(Keyword),
    Sym(Symbol),
    Eof,
}

/// A token with its 1-based source position.
#[derive(Debug)]
pub struct Token {
    pub tok: Tok,
    pub line: u32,
    pub col: u32,
}

/// Copy of a token kind.
pub fn clone_tok(t: &Tok) -> (r: Tok)
    ensures
        r == *t,
{
    match t {
        Tok::Int(n) => Tok::Int(*n),
        Tok::Str(s) => Tok::Str(s.clone()),
        Tok::Ident(s) => Tok::Ident(s.clone()),
        Tok::Upper(s) => Tok::Upper(s.clone()),
        Tok::Kw(k) => Tok::Kw(*k),
        Tok::Sym(s) => Tok::Sym(*s),
        Tok::Eof => Tok::Eof,
    }
}

impl Clone for Tok {
    fn clone(&self) -> (r: Self)
        ensures
            r == *self,
    {
        clone_tok(self)
    }
}

impl Clone for Token {
    fn clone(&self) -> (r: Self)
        ensures
            r == *self,
    {
        Token { tok: clone_tok(&self.tok), line: self.line, col: self.col }
    }
}

/// The source spelling of a keyword.
pub open spec fn keyword_text(k: Keyword) -> Seq<char> {
    match k {
        Keyword::Let => "let"@,
        Keyword::Rec => "rec"@,
        Keyword::And => "and"@,
        Keyword::In => "in"@,
        Keyword::If => "if"@,
        Keyword::Then => "then"@,
        Keyword::Else => "else"@,
        Keyword::Case => "case"@,
        Keyword::Of => "of"@,
        Keyword::Fun => "fun"@,
        Keyword::True => "true"@,
        Keyword::False => "false"@,
        Keyword::Type => "type"@,
    }
}

impl Keyword {
    /// The source spelling of the keyword.
    pub fn text(&self) -> (s: &'static str)
        ensures
            s@ == keyword_text(*self),
    {
        match self {
            Keyword::Let => "let",
            Keyword::Rec => "rec",
            Keyword::And => "and",
            Keyword::In => "in",
            Keyword::If => "if",
            Keyword::Then => "then",
            Keyword::Else => "else",
            Keyword::Case => "case",
            Keyword::Of => "of",
            Keyword::Fun => "fun",
            Keyword::True => "true",
            Keyword::False => "false",
            Keyword::Type => "type",
        }
    }
}

/// The source spelling of a symbol.
pub open spec fn symbol_text(s: Symbol) -> Seq<char> {
    match s {
        Symbol::Arrow => "->"@,
        Symbol::EqEq => "=="@,
        Symbol::NotEq => "!="@,
        Symbol::Le => "<="@,
        Symbol::Ge => ">="@,
        Symbol::AndAnd => "&&"@,
        Symbol::OrOr => "||"@,
        Symbol::PlusPlus => "++"@,
        Symbol::ColonColon => "::"@,
        Symbol::LParen => "("@,
        Symbol::RParen => ")"@,
        Symbol::LBracket => "["@,
        Symbol::RBracket => "]"@,
        Symbol::Comma => ","@,
        Symbol::Semi => ";"@,
        Symbol::Colon => ":"@,
        Symbol::Bar => "|"@,
        Symbol::Underscore => "_"@,
        Symbol::Lt => "<"@,
        Symbol::Gt => ">"@,
        Symbol::Eq => "="@,
        Symbol::Plus => "+"@,
        Symbol::Minus => "-"@,
        Symbol::Star => "*"@,
        Symbol::Slash => "/"@,
        Symbol::Percent => "%"@,
    }
}

impl Symbol {
    /// The source spelling of the symbol.
    pub fn text(&self) -> (s: &'static str)
        ensures
            s@ == symbol_text(*self),
    {
        match self {
            Symbol::Arrow => "->",
            Symbol::EqEq => "==",
            Symbol::NotEq => "!=",
            Symbol::Le => "<=",
            Symbol::Ge => ">=",
            Symbol::AndAnd => "&&",
            Symbol::OrOr => "||",
            Symbol::PlusPlus => "++",
            Symbol::ColonColon => "::",
            Symbol::LParen => "(",
            Symbol::RParen => ")",
            Symbol::LBracket => "[",
            Symbol::RBracket => "]",
            Symbol::Comma => ",",
            Symbol::Semi => ";",
            Symbol::Colon => ":",
            Symbol::Bar => "|",
            Symbol::Underscore => "_",
            Symbol::Lt => "<",
            Symbol::Gt => ">",
            Symbol::Eq => "=",
            Symbol::Plus => "+",
            Symbol::Minus => "-",
            Symbol::Star => "*",
            Symbol::Slash => "/",
            Symbol::Percent => "%",
        }
    }
}

// ---------- character classes ----------

/// Unicode `White_Space` characters.
pub open spec fn is_white_space(c: char) -> bool {
    let u = c as u32;
    (0x09 <= u && u <= 0x0d) || u == 0x20 || u == 0x85 || u == 0xa0 || u == 0x1680
        || (0x2000 <= u && u <= 0x200a) || u == 0x2028 || u == 0x2029 || u == 0x202f
        || u == 0x205f || u == 0x3000
}

pub fn is_whitespace_char(c: char) -> (b: bool)
    ensures
        b == is_white_space(c),
{
    let u = c as u32;
    (0x09 <= u && u <= 0x0d) || u == 0x20 || u == 0x85 || u == 0xa0 || u == 0x1680
        || (0x2000 <= u && u <= 0x200a) || u == 0x2028 || u == 0x2029 || u == 0x202f
        || u == 0x205f || u == 0x3000
}

pub open spec fn is_digit(c: char) -> bool {
    '0' <= c && c <= '9'
}

pub open spec fn is_upper(c: char) -> bool {
    'A' <= c && c <= 'Z'
}

pub open spec fn is_alpha(c: char) -> bool {
    ('a' <= c && c <= 'z') || is_upper(c)
}

/// Characters that may continue an identifier.
pub open spec fn is_ident_char(c: char) -> bool {
    is_alpha(c) || is_digit(c) || c == '_' || c == '\''
}

/// Characters that may start an identifier.
pub open spec fn is_ident_start(c: char) -> bool {
    is_alpha(c) || c == '_'
}

/// The keyword spelled by `s`, if any.
pub open spec fn keyword_of(s: Seq<char>) -> Option<Keyword> {
    if s == "let"@ { Some(Keyword::Let) }
    else if s == "rec"@ { Some(Keyword::Rec) }
    else if s == "and"@ { Some(Keyword::And) }
    else if s == "in"@ { Some(Keyword::In) }
    else if s == "if"@ { Some(Keyword::If) }
    else if s == "then"@ { Some(Keyword::Then) }
    else if s == "else"@ { Some(Keyword::Else) }
    else if s == "case"@ { Some(Keyword::Case) }
    else if s == "of"@ { Some(Keyword::Of) }
    else if s == "fun"@ { Some(Keyword::Fun) }
    else if s == "true"@ { Some(Keyword::True) }
    else if s == "false"@ { Some(Keyword::False) }
    else if s == "type"@ { Some(Keyword::Type) }
    else { None }
}

fn seq_eq_str(a: &Vec<char>, b: &str) -> (r: bool)
    ensures
        r == (a@ == b@),
{
    let bv = chars_of(b);
    assert(bv@ == b@);
    if a.len() != bv.len() {
        return false;
    }
    let mut i: usize = 0;
    while i < a.len()
        invariant
            a.len() == bv.len(),
            bv@ == b@,
            i <= a.len(),
            forall|j: int| 0 <= j < i ==> a@[j] == bv@[j],
        decreases a.len() - i,
    {
        if a[i] != bv[i] {
            assert(a@[i as int] != bv@[i as int]);
            assert(a@ != b@) by {
                if a@ == b@ {
                    assert(a@[i as int] == b@[i as int]);
                }
            }
            return false;
        }
        i = i + 1;
    }
    proof {
        assert(a@ =~= bv@);
    }
    true
}

/// Looks `s` up among the reserved words.
pub fn lookup_keyword(s: &Vec<char>) -> (k: Option<Keyword>)
    ensures
        k == keyword_of(s@),
{
    if seq_eq_str(s, "let") { Some(Keyword::Let) }
    else if seq_eq_str(s, "rec") { Some(Keyword::Rec) }
    else if seq_eq_str(s, "and") { Some(Keyword::And) }
    else if seq_eq_str(s, "in") { Some(Keyword::In) }
    else if seq_eq_str(s, "if") { Some(Keyword::If) }
    else if seq_eq_str(s, "then") { Some(Keyword::Then) }
    else if seq_eq_str(s, "else") { Some(Keyword::Else) }
    else if seq_eq_str(s, "case") { Some(Keyword::Case) }
    else if seq_eq_str(s, "of") { Some(Keyword::Of) }
    else if seq_eq_str(s, "fun") { Some(Keyword::Fun) }
    else if seq_eq_str(s, "true") { Some(Keyword::True) }
    else if seq_eq_str(s, "false") { Some(Keyword::False) }
    else if seq_eq_str(s, "type") { Some(Keyword::Type) }
    else { None }
}

/// Two-character operators.
pub open spec fn sym2_of(a: char, b: char) -> Option<Symbol> {
    if a == '-' && b == '>' { Some(Symbol::Arrow) }
    else if a == '=' && b == '=' { Some(Symbol::EqEq) }
    else if a == '!' && b == '=' { Some(Symbol::NotEq) }
    else if a == '<' && b == '=' { Some(Symbol::Le) }
    else if a == '>' && b == '=' { Some(Symbol::Ge) }
    else if a == '&' && b == '&' { Some(Symbol::AndAnd) }
    else if a == '|' && b == '|' { Some(Symbol::OrOr) }
    else if a == '+' && b == '+' { Some(Symbol::PlusPlus) }
    else if a == ':' && b == ':' { Some(Symbol::ColonColon) }
    else { None }
}

/// One-character punctuation.
pub open spec fn sym1_of(c: char) -> Option<Symbol> {
    if c == '(' { Some(Symbol::LParen) }
    else if c == ')' { Some(Symbol::RParen) }
    else if c == '[' { Some(Symbol::LBracket) }
    else if c == ']' { Some(Symbol::RBracket) }
    else if c == ',' { Some(Symbol::Comma) }
    else if c == ';' { Some(Symbol::Semi) }
    else if c == ':' { Some(Symbol::Colon) }
    else if c == '|' { Some(Symbol::Bar) }
    else if c == '_' { Some(Symbol::Underscore) }
    else if c == '<' { Some(Symbol::Lt) }
    else if c == '>' { Some(Symbol::Gt) }
    else if c == '=' { Some(Symbol::Eq) }
    else if c == '+' { Some(Symbol::Plus) }
    else if c == '-' { Some(Symbol::Minus) }
    else if c == '*' { Some(Symbol::Star) }
    else if c == '/' { Some(Symbol::Slash) }
    else if c == '%' { Some(Symbol::Percent) }
    else { None }
}

fn sym2(a: char, b: char) -> (r: Option<Symbol>)
    ensures
        r == sym2_of(a, b),
{
    if a == '-' && b == '>' { Some(Symbol::Arrow) }
    else if a == '=' && b == '=' { Some(Symbol::EqEq) }
    else if a == '!' && b == '=' { Some(Symbol::NotEq) }
    else if a == '<' && b == '=' { Some(Symbol::Le) }
    else if a == '>' && b == '=' { Some(Symbol::Ge) }
    else if a == '&' && b == '&' { Some(Symbol::AndAnd) }
    else if a == '|' && b == '|' { Some(Symbol::OrOr) }
    else if a == '+' && b == '+' { Some(Symbol::PlusPlus) }
    else if a == ':' && b == ':' { Some(Symbol::ColonColon) }
    else { None }
}

fn sym1(c: char) -> (r: Option<Symbol>)
    ensures
        r == sym1_of(c),
{
    if c == '(' { Some(Symbol::LParen) }
    else if c == ')' { Some(Symbol::RParen) }
    else if c == '[' { Some(Symbol::LBracket) }
    else if c == ']' { Some(Symbol::RBracket) }
    else if c == ',' { Some(Symbol::Comma) }
    else if c == ';' { Some(Symbol::Semi) }
    else if c == ':' { Some(Symbol::Colon) }
    else if c == '|' { Some(Symbol::Bar) }
    else if c == '_' { Some(Symbol::Underscore) }
    else if c == '<' { Some(Symbol::Lt) }
    else if c == '>' { Some(Symbol::Gt) }
    else if c == '=' { Some(Symbol::Eq) }
    else if c == '+' { Some(Symbol::Plus) }
    else if c == '-' { Some(Symbol::Minus) }
    else if c == '*' { Some(Symbol::Star) }
    else if c == '/' { Some(Symbol::Slash) }
    else if c == '%' { Some(Symbol::Percent) }
    else { None }
}

} // verus!

verus! {

/// `"l:c: "`, the position prefix of diagnostics.
pub fn pos_prefix(line: u32, col: u32) -> (s: String)
    ensures
        s@ == crate::text::nat_digits(line as nat) + ":"@ + crate::text::nat_digits(col as nat) + ": "@,
{
    let l = string_of(u64_to_decimal(line as u64).as_slice());
    let c = string_of(u64_to_decimal(col as u64).as_slice());
    let mut s = l;
    s.append(":");
    s.append(c.as_str());
    s.append(": ");
    s
}

/// Tokens produced by a successful lexing: the last token, and only the
/// last, is `Eof`; every position is 1-based.
pub open spec fn well_formed_tokens(toks: Seq<Token>) -> bool {
    &&& toks.len() >= 1
    &&& toks.last().tok is Eof
    &&& forall|j: int| 0 <= j < toks.len() - 1 ==> !(toks[j].tok is Eof)
    &&& forall|j: int| 0 <= j < toks.len() ==> toks[j].line >= 1 && toks[j].col >= 1
}

/// The 1-based line and column of `s[i]`: lines end at `\n`.
pub open spec fn pos_after(s: Seq<char>, i: int) -> (int, int)
    decreases i,
{
    if i <= 0 {
        (1, 1)
    } else {
        let p = pos_after(s, i - 1);
        if s[i - 1] == '\n' {
            (p.0 + 1, 1)
        } else {
            (p.0, p.1 + 1)
        }
    }
}

/// The end of the run of digits that starts at `s[i]`.
pub open spec fn digit_end(s: Seq<char>, i: int) -> int
    decreases s.len() - i,
{
    if 0 <= i < s.len() && is_digit(s[i]) {
        digit_end(s, i + 1)
    } else {
        i
    }
}

/// The end of the run of identifier characters that starts at `s[i]`.
pub open spec fn ident_end(s: Seq<char>, i: int) -> int
    decreases s.len() - i,
{
    if 0 <= i < s.len() && is_ident_char(s[i]) {
        ident_end(s, i + 1)
    } else {
        i
    }
}

/// The number that a run of decimal digits spells.
pub open spec fn digits_value(ds: Seq<char>) -> int
    decreases ds.len(),
{
    if ds.len() == 0 {
        0
    } else {
        digits_value(ds.drop_last()) * 10 + (ds.last() as int - '0' as int)
    }
}

/// The character that the escape `\e` of a string literal stands for.
pub open spec fn escape_char(e: char) -> Option<char> {
    if e == 'n' {
        Some('\n')
    } else if e == 't' {
        Some('\t')
    } else if e == 'r' {
        Some('\r')
    } else if e == '0' {
        Some('\0')
    } else if e == '\\' {
        Some('\\')
    } else if e == '"' {
        Some('"')
    } else {
        None
    }
}

/// The contents of a string literal whose body starts at `s[i]`, with the
/// index just past its closing quote; `None` if it is unterminated or has
/// an unknown escape.
pub open spec fn string_body(s: Seq<char>, i: int) -> Option<(Seq<char>, int)>
    decreases s.len() - i,
{
    if i < 0 || i >= s.len() {
        None
    } else if s[i] == '"' {
        Some((Seq::empty(), i + 1))
    } else if s[i] == '\\' {
        if i + 1 >= s.len() {
            None
        } else {
            match escape_char(s[i + 1]) {
                Some(c) => match string_body(s, i + 2) {
                    Some((t, e)) => Some((seq![c] + t, e)),
                    None => None,
                },
                None => None,
            }
        }
    } else {
        match string_body(s, i + 1) {
            Some((t, e)) => Some((seq![s[i]] + t, e)),
            None => None,
        }
    }
}

/// Reading a string literal whose body starts at `from` has reached `i`
/// with the contents `sofar`: what is left, read from `i`, completes it.
pub open spec fn string_progress(src: Seq<char>, from: int, i: int, sofar: Seq<char>) -> bool {
    match string_body(src, i) {
        Some((t, e)) => string_body(src, from) == Some((sofar + t, e)),
        None => string_body(src, from) is None,
    }
}

/// The word (identifier or keyword) that starts at `s[st]`.
pub open spec fn word_at(s: Seq<char>, st: int) -> Seq<char> {
    s.subrange(st, ident_end(s, st + 1))
}

/// What the token `tok` that starts at `src[st]` was read from: the
/// number that its digits spell, the contents of its string literal, its
/// word (a keyword, a capitalized name or an identifier), or its symbol
/// (two characters when they form one); `Eof` at the end.
pub open spec fn token_at(src: Seq<char>, st: int, tok: Tok) -> bool {
    match tok {
        Tok::Int(v) => 0 <= st < src.len() && is_digit(src[st])
            && v as int == digits_value(src.subrange(st, digit_end(src, st))),
        Tok::Str(s) => 0 <= st < src.len() && src[st] == '"'
            && (string_body(src, st + 1) matches Some((t, _)) && t == s@),
        Tok::Kw(k) => 0 <= st < src.len() && is_ident_start(src[st]) && keyword_of(word_at(src, st)) == Some(k),
        Tok::Upper(s) => 0 <= st < src.len() && is_ident_start(src[st]) && keyword_of(word_at(src, st)) is None
            && is_upper(src[st]) && s@ == word_at(src, st),
        Tok::Ident(s) => 0 <= st < src.len() && is_ident_start(src[st]) && keyword_of(word_at(src, st)) is None
            && !is_upper(src[st]) && s@ == word_at(src, st),
        Tok::Sym(sym) => 0 <= st < src.len() && if st + 1 < src.len() && sym2_of(src[st], src[st + 1]) is Some {
            sym2_of(src[st], src[st + 1]) == Some(sym)
        } else {
            sym1_of(src[st]) == Some(sym)
        },
        Tok::Eof => st == src.len(),
    }
}

/// Where the token `tok` that starts at `src[st]` ends.
pub open spec fn token_end(src: Seq<char>, st: int, tok: Tok) -> int {
    match tok {
        Tok::Int(_) => digit_end(src, st),
        Tok::Str(_) => match string_body(src, st + 1) {
            Some((_, e)) => e,
            None => st + 1,
        },
        Tok::Kw(_) | Tok::Upper(_) | Tok::Ident(_) => ident_end(src, st + 1),
        Tok::Sym(_) => if st + 1 < src.len() && sym2_of(src[st], src[st + 1]) is Some {
            st + 2
        } else {
            st + 1
        },
        Tok::Eof => st,
    }
}

/// The end of the line that `s[i]` is on (the index of its `\n`, or the
/// end of `s`).
pub open spec fn line_end(s: Seq<char>, i: int) -> int
    decreases s.len() - i,
{
    if 0 <= i < s.len() && s[i] != '\n' {
        line_end(s, i + 1)
    } else {
        i
    }
}

/// `s[a..b]` holds only white space and comments (`--` to the end of the
/// line).
pub open spec fn skippable(s: Seq<char>, a: int, b: int) -> bool
    decreases b - a,
{
    if a >= b {
        a == b
    } else if 0 <= a < s.len() && is_white_space(s[a]) {
        skippable(s, a + 1, b)
    } else if 0 <= a && a + 1 < s.len() && s[a] == '-' && s[a + 1] == '-' && a + 2 <= line_end(s, a + 2) <= b {
        skippable(s, line_end(s, a + 2), b)
    } else {
        false
    }
}

/// A comment (`--`) starts at `s[i]`.
pub open spec fn comment_at(s: Seq<char>, i: int) -> bool {
    0 <= i && i + 1 < s.len() && s[i] == '-' && s[i + 1] == '-'
}

/// Where the text before token `k` begins: the end of token `k - 1`, or 0.
pub open spec fn gap_before(src: Seq<char>, toks: Seq<Token>, starts: Seq<int>, k: int) -> int {
    if k <= 0 {
        0
    } else {
        token_end(src, starts[k - 1], toks[k - 1].tok)
    }
}

/// The tokens start at the source indices `starts`, in increasing order,
/// each carries the line and column of its start, each was read from the
/// text there (where no comment starts), and the text before each holds
/// only white space and comments.
pub open spec fn tokens_start_at(src: Seq<char>, toks: Seq<Token>, starts: Seq<int>) -> bool {
    &&& starts.len() == toks.len()
    &&& forall|j: int| 0 <= j < starts.len() ==> !comment_at(src, #[trigger] starts[j])
    &&& forall|k: int| 0 <= k < starts.len() ==> skippable(src, gap_before(src, toks, starts, k), #[trigger] starts[k])
    &&& forall|j: int| 0 <= j < starts.len() ==> token_at(src, #[trigger] starts[j], toks[j].tok)
    &&& forall|j: int| 0 <= j < starts.len() ==> 0 <= #[trigger] starts[j] <= src.len()
        && toks[j].line == pos_after(src, starts[j]).0 && toks[j].col == pos_after(src, starts[j]).1
    &&& forall|a: int, b: int| 0 <= a < b < starts.len() ==> #[trigger] starts[a] < #[trigger] starts[b]
}

proof fn lemma_pos_step(s: Seq<char>, i: int, line: u32, col: u32)
    requires
        0 <= i < s.len(),
        (line as int, col as int) == pos_after(s, i),
        line < u32::MAX,
        col < u32::MAX,
    ensures
        (step_pos(s[i], line, col).0 as int, step_pos(s[i], line, col).1 as int) == pos_after(s, i + 1),
{
}

/// Pushing a token that starts after all others, at `k`, keeps the
/// tokens' positions those of their starts.
proof fn lemma_tokens_push(src: Seq<char>, toks: Seq<Token>, starts: Seq<int>, k: int)
    requires
        toks.len() >= 1,
        tokens_start_at(src, toks.drop_last(), starts),
        skippable(src, gap_before(src, toks.drop_last(), starts, starts.len() as int), k),
        forall|j: int| 0 <= j < starts.len() ==> #[trigger] starts[j] < k,
        0 <= k <= src.len(),
        toks.last().line == pos_after(src, k).0,
        toks.last().col == pos_after(src, k).1,
        token_at(src, k, toks.last().tok),
        !comment_at(src, k),
    ensures
        tokens_start_at(src, toks, starts.push(k)),
{
    let s2 = starts.push(k);
    assert forall|j: int| 0 <= j < s2.len() implies !comment_at(src, #[trigger] s2[j]) by {
        if j < starts.len() {
            assert(s2[j] == starts[j]);
        }
    }
    assert forall|j: int| 0 <= j < s2.len() implies skippable(src, gap_before(src, toks, s2, j), #[trigger] s2[j]) by {
        if j < starts.len() {
            assert(s2[j] == starts[j]);
            if j > 0 {
                assert(s2[j - 1] == starts[j - 1] && toks[j - 1] == toks.drop_last()[j - 1]);
            }
            assert(gap_before(src, toks, s2, j) == gap_before(src, toks.drop_last(), starts, j));
        } else if j > 0 {
            assert(s2[j - 1] == starts[j - 1] && toks[j - 1] == toks.drop_last()[j - 1]);
        }
    }
    assert forall|j: int| 0 <= j < s2.len() implies 0 <= #[trigger] s2[j] <= src.len()
        && toks[j].line == pos_after(src, s2[j]).0 && toks[j].col == pos_after(src, s2[j]).1 by {
        if j < starts.len() {
            assert(s2[j] == starts[j]);
            assert(toks[j] == toks.drop_last()[j]);
        }
    }
    assert forall|a: int, b: int| 0 <= a < b < s2.len() implies #[trigger] s2[a] < #[trigger] s2[b] by {
        if b < starts.len() {
            assert(s2[a] == starts[a] && s2[b] == starts[b]);
        } else {
            assert(s2[a] == starts[a]);
        }
    }
}

proof fn lemma_line_end_ge(s: Seq<char>, i: int)
    ensures
        line_end(s, i) >= i,
    decreases s.len() - i,
{
    if 0 <= i < s.len() && s[i] != '\n' {
        lemma_line_end_ge(s, i + 1);
    }
}

/// White space after skippable text is skippable too.
proof fn lemma_skip_white(s: Seq<char>, a: int, b: int)
    requires
        skippable(s, a, b),
        0 <= b < s.len(),
        is_white_space(s[b]),
    ensures
        skippable(s, a, b + 1),
    decreases b - a,
{
    if a < b {
        if 0 <= a < s.len() && is_white_space(s[a]) {
            lemma_skip_white(s, a + 1, b);
        } else {
            lemma_skip_white(s, line_end(s, a + 2), b);
        }
    } else {
        assert(skippable(s, b + 1, b + 1));
    }
}

/// So is a comment after skippable text.
proof fn lemma_skip_comment(s: Seq<char>, a: int, b: int)
    requires
        skippable(s, a, b),
        0 <= b,
        b + 1 < s.len(),
        s[b] == '-' && s[b + 1] == '-',
    ensures
        skippable(s, a, line_end(s, b + 2)),
    decreases b - a,
{
    lemma_line_end_ge(s, b + 2);
    if a < b {
        if 0 <= a < s.len() && is_white_space(s[a]) {
            lemma_skip_comment(s, a + 1, b);
        } else {
            lemma_skip_comment(s, line_end(s, a + 2), b);
        }
    } else {
        assert(!is_white_space(s[b]));
        assert(skippable(s, line_end(s, b + 2), line_end(s, b + 2)));
    }
}

/// Position after consuming `c`.
pub open spec fn step_pos(c: char, line: u32, col: u32) -> (u32, u32) {
    if c == '\n' {
        ((line + 1) as u32, 1u32)
    } else {
        (line, (col + 1) as u32)
    }
}

fn bump(c: char, line: u32, col: u32) -> (r: (u32, u32))
    requires
        line < u32::MAX,
        col < u32::MAX,
    ensures
        r == step_pos(c, line, col),
{
    if c == '\n' {
        (line + 1, 1)
    } else {
        (line, col + 1)
    }
}

fn is_digit_exec(c: char) -> (b: bool)
    ensures
        b == is_digit(c),
{
    '0' <= c && c <= '9'
}

fn is_upper_exec(c: char) -> (b: bool)
    ensures
        b == is_upper(c),
{
    'A' <= c && c <= 'Z'
}

fn is_alpha_exec(c: char) -> (b: bool)
    ensures
        b == is_alpha(c),
{
    ('a' <= c && c <= 'z') || ('A' <= c && c <= 'Z')
}

fn one_char_string(c: char) -> (s: String)
    ensures
        s@ == seq![c],
{
    let mut v: Vec<char> = Vec::new();
    v.push(c);
    proof {
        assert(v@ =~= seq![c]);
    }
    string_of(v.as_slice())
}

/// `text` after the `line:col: ` of `src[k]`.
pub open spec fn located(src: Seq<char>, k: int, text: Seq<char>) -> Seq<char> {
    crate::text::nat_digits(pos_after(src, k).0 as nat) + ":"@ + crate::text::nat_digits(pos_after(src, k).1 as nat)
        + ": "@ + text
}

/// Where, and with what text, the string literal whose opening quote is
/// `s[q]` is refused, scanning its body from `s[i]`: at the quote when it
/// is unterminated, at the character after the backslash of an unknown
/// escape.
pub open spec fn string_error(s: Seq<char>, i: int, q: int) -> (int, Seq<char>)
    decreases s.len() - i,
{
    if i < 0 || i >= s.len() || s[i] == '"' {
        (q, "unterminated string literal"@)
    } else if s[i] == '\\' {
        if i + 1 >= s.len() {
            (q, "unterminated string literal"@)
        } else if escape_char(s[i + 1]) is None {
            (i + 1, "unknown escape `\\"@ + seq![s[i + 1]] + "` in string literal"@)
        } else {
            string_error(s, i + 2, q)
        }
    } else {
        string_error(s, i + 1, q)
    }
}

/// The message of the lexing error at `src[k]`, where no token starts:
/// an integer literal too large, a refused string literal, or a
/// character that starts no token.
pub open spec fn lex_error_message(src: Seq<char>, k: int) -> Seq<char> {
    if is_digit(src[k]) {
        located(src, k, "integer literal overflow `"@ + src.subrange(k, digit_end(src, k)) + "`"@)
    } else if src[k] == '"' {
        located(src, string_error(src, k + 1, k).0, string_error(src, k + 1, k).1)
    } else {
        located(src, k, "unexpected character `"@ + seq![src[k]] + "`"@)
    }
}

/// The message `m` starts with the `line:col: ` of `src[k]`.
pub open spec fn reported_at(src: Seq<char>, k: int, m: Seq<char>) -> bool {
    &&& 0 <= k <= src.len()
    &&& (crate::text::nat_digits(pos_after(src, k).0 as nat) + ":"@ + crate::text::nat_digits(
        pos_after(src, k).1 as nat) + ": "@).is_prefix_of(m)
}

/// The message `m` starts with the `line:col: ` of some character of
/// `src` (or of its end).
#[verifier::opaque]
pub open spec fn reported_in(src: Seq<char>, m: Seq<char>) -> bool {
    exists|k: int| #[trigger] reported_at(src, k, m)
}

proof fn lemma_reported(src: Seq<char>, k: int, m: Seq<char>)
    requires
        reported_at(src, k, m),
    ensures
        reported_in(src, m),
{
    reveal(reported_in);
}

/// `line:col: a b c`, for the position of `chars[k]`.
fn located_message(chars: &Vec<char>, k: usize, line: u32, col: u32, a: &str, b: &str, c: &str) -> (m: String)
    requires
        k <= chars.len(),
        (line as int, col as int) == pos_after(chars@, k as int),
    ensures
        reported_at(chars@, k as int, m@),
        m@ == located(chars@, k as int, a@ + b@ + c@),
{
    let mut m = pos_prefix(line, col);
    let ghost head = m@;
    m.append(a);
    m.append(b);
    m.append(c);
    proof {
        assert(m@.subrange(0, head.len() as int) =~= head);
        assert(m@ =~= located(chars@, k as int, a@ + b@ + c@));
    }
    m
}

/// Reads the run of digits that starts at `chars[i]`: its value, where it
/// ends, and the position there.
fn lex_number(chars: &Vec<char>, i: usize, line: u32, col: u32) -> (r: Result<(i64, usize, u32, u32), String>)
    requires
        chars.len() < u32::MAX,
        i < chars.len(),
        is_digit(chars@[i as int]),
        1 <= line <= i + 1,
        1 <= col <= i + 1,
        (line as int, col as int) == pos_after(chars@, i as int),
    ensures
        r matches Err(m) ==> reported_at(chars@, i as int, m@),
        r matches Err(m) ==> m@ == located(chars@, i as int, "integer literal overflow `"@ + chars@.subrange(
            i as int,
            digit_end(chars@, i as int),
        ) + "`"@),
        r is Err ==> digits_value(chars@.subrange(i as int, digit_end(chars@, i as int))) > i64::MAX,
        r matches Ok((v, e, l, c)) ==> {
            &&& e == digit_end(chars@, i as int)
            &&& i < e <= chars.len()
            &&& v as int == digits_value(chars@.subrange(i as int, e as int))
            &&& 1 <= l <= e + 1 && 1 <= c <= e + 1
            &&& (l as int, c as int) == pos_after(chars@, e as int)
        },
{
    let n = chars.len();
    let start = i;
    let mut i = i;
    let mut line = line;
    let mut col = col;
    let l0 = line;
    let c0 = col;
    let mut val: u64 = 0;
    let mut overflow = false;
    let mut digits: Vec<char> = Vec::new();
    while i < n && is_digit_exec(chars[i])
        invariant
            n == chars.len(),
            n < u32::MAX,
            start <= i <= n,
            start < n && is_digit(chars@[start as int]),
            1 <= line <= i + 1,
            1 <= col <= i + 1,
            (line as int, col as int) == pos_after(chars@, i as int),
            digit_end(chars@, start as int) == digit_end(chars@, i as int),
            !overflow ==> val as int == digits_value(chars@.subrange(start as int, i as int)),
            digits@ == chars@.subrange(start as int, i as int),
            overflow ==> digits_value(chars@.subrange(start as int, i as int)) > u64::MAX,
            digits_value(chars@.subrange(start as int, i as int)) >= 0,
        decreases n - i,
    {
        let d: u64 = (chars[i] as u32 - '0' as u32) as u64;
        proof {
            let pre = chars@.subrange(start as int, i + 1);
            assert(pre.drop_last() =~= chars@.subrange(start as int, i as int));
            assert(pre.last() == chars@[i as int]);
            assert(digits_value(pre) == digits_value(chars@.subrange(start as int, i as int)) * 10 + d);
        }
        if !overflow {
            if val > (u64::MAX - d) / 10 {
                proof {
                    let m = u64::MAX as int;
                    assert(val * 10 + d > m) by (nonlinear_arith)
                        requires
                            val > (m - d) / 10,
                            0 <= d <= 9,
                            m > 9,
                    ;
                }
                overflow = true;
            } else {
                val = val * 10 + d;
            }
        }
        digits.push(chars[i]);
        proof {
            lemma_pos_step(chars@, i as int, line, col);
            assert(digits@ =~= chars@.subrange(start as int, i + 1));
        }
        let (l2, c2) = bump(chars[i], line, col);
        line = l2;
        col = c2;
        i = i + 1;
    }
    if overflow || val > i64::MAX as u64 {
        proof {
            assert(digit_end(chars@, i as int) == i);
        }
        let ds = string_of(digits.as_slice());
        let m = located_message(chars, start, l0, c0, "integer literal overflow `", ds.as_str(), "`");
        proof {
            assert(reported_at(chars@, start as int, m@));
            assert(exists|k: int| #[trigger] reported_at(chars@, k, m@));
        }
        return Err(m);
    }
    Ok((val as i64, i, line, col))
}

/// Reads the string literal whose opening quote is `chars[i]`: its
/// contents, where it ends (past the closing quote), and the position
/// there.
#[verifier::spinoff_prover]
fn lex_string(chars: &Vec<char>, at: usize, line: u32, col: u32) -> (r: Result<(String, usize, u32, u32), (String, usize)>)
    requires
        chars.len() < u32::MAX,
        at < chars.len(),
        chars@[at as int] == '"',
        1 <= line <= at + 1,
        1 <= col <= at + 1,
        (line as int, col as int) == pos_after(chars@, at as int),
    ensures
        r matches Err((m, k)) ==> reported_at(chars@, k as int, m@),
        r matches Err((m, k)) ==> k == string_error(chars@, at + 1, at as int).0 && m@ == located(
            chars@,
            k as int,
            string_error(chars@, at + 1, at as int).1,
        ),
        r is Err ==> string_body(chars@, at + 1) is None,
        r matches Ok((s, e, l, c)) ==> {
            &&& string_body(chars@, at + 1) == Some((s@, e as int))
            &&& at < e <= chars.len()
            &&& 1 <= l <= e + 1 && 1 <= c <= e + 1
            &&& (l as int, c as int) == pos_after(chars@, e as int)
        },
{
    let n = chars.len();
    let i0 = at;
    let l0 = line;
    let c0 = col;
    let mut i = at;
    let mut line = line;
    let mut col = col;
    proof {
        lemma_pos_step(chars@, i as int, line, col);
    }
    let (l2, c2) = bump(chars[i], line, col);
    line = l2;
    col = c2;
    i = i + 1;
    let mut s: Vec<char> = Vec::new();
    proof {
        assert(s@ + Seq::<char>::empty() =~= s@);
    }
    loop
        invariant_except_break
            string_progress(chars@, i0 + 1, i as int, s@),
            string_error(chars@, i0 + 1, i0 as int) == string_error(chars@, i as int, i0 as int),
        invariant
            i0 < i <= n,
            (l0 as int, c0 as int) == pos_after(chars@, i0 as int),
            i0 == at,
            n == chars.len(),
            n < u32::MAX,
            1 <= line <= i + 1,
            1 <= col <= i + 1,
            (line as int, col as int) == pos_after(chars@, i as int),
        ensures
            string_body(chars@, i0 + 1) == Some((s@, i as int)),
        decreases n - i,
    {
        let ghost s1 = s@;
        if i >= n {
            proof {
                assert(string_body(chars@, i as int) is None);
                assert(string_progress(chars@, i0 + 1, i as int, s@));
                assert(string_body(chars@, i0 + 1) is None);
            }
            let msg = located_message(chars, i0, l0, c0, "unterminated string literal", "", "");
            proof {
                reveal_strlit("");
                assert(string_error(chars@, i as int, i0 as int) == (i0 as int, "unterminated string literal"@));
                assert("unterminated string literal"@ + ""@ + ""@ =~= "unterminated string literal"@);
            }
            return Err((msg, i0));
        }
        let ch = chars[i];
        if ch == '"' {
            proof {
                lemma_pos_step(chars@, i as int, line, col);
                assert(s@ + Seq::<char>::empty() =~= s@);
            }
            let (l2, c2) = bump(ch, line, col);
            line = l2;
            col = c2;
            i = i + 1;
            break;
        }
        if ch == '\\' {
            let ghost ib = i as int;
            proof {
                lemma_pos_step(chars@, i as int, line, col);
            }
            let (l2, c2) = bump(ch, line, col);
            line = l2;
            col = c2;
            i = i + 1;
            if i >= n {
                proof {
                    assert(string_body(chars@, ib) is None);
                    assert(string_progress(chars@, i0 + 1, ib, s1));
                    assert(string_body(chars@, i0 + 1) is None);
                }
                let msg = located_message(chars, i0, l0, c0, "unterminated string literal", "", "");
                proof {
                    reveal_strlit("");
                    assert(string_error(chars@, ib, i0 as int) == (i0 as int, "unterminated string literal"@));
                    assert("unterminated string literal"@ + ""@ + ""@ =~= "unterminated string literal"@);
                }
                return Err((msg, i0));
            }
            let e = chars[i];
            if e == 'n' {
                s.push('\n');
            } else if e == 't' {
                s.push('\t');
            } else if e == 'r' {
                s.push('\r');
            } else if e == '0' {
                s.push('\0');
            } else if e == '\\' {
                s.push('\\');
            } else if e == '"' {
                s.push('"');
            } else {
                proof {
                    assert(escape_char(e) is None);
                    assert(string_body(chars@, ib) is None);
                    assert(string_progress(chars@, i0 + 1, ib, s1));
                    assert(string_body(chars@, i0 + 1) is None);
                }
                let es = one_char_string(e);
                let msg = located_message(chars, i, line, col, "unknown escape `\\", es.as_str(), "` in string literal");
                return Err((msg, i));
            }
            proof {
                lemma_pos_step(chars@, i as int, line, col);
                assert(escape_char(e) == Some(s@.last()));
                assert(s@ =~= s1.push(s@.last()));
                match string_body(chars@, i + 1) {
                    Some((t, e2)) => {
                        assert(s1 + (seq![s@.last()] + t) =~= s@ + t);
                    }
                    None => {}
                }
            }
            let (l2, c2) = bump(e, line, col);
            line = l2;
            col = c2;
            i = i + 1;
            continue;
        }
        s.push(ch);
        proof {
            match string_body(chars@, i + 1) {
                Some((t, e2)) => {
                    assert(s1 + (seq![ch] + t) =~= s@ + t);
                }
                None => {}
            }
            lemma_pos_step(chars@, i as int, line, col);
        }
        let (l2, c2) = bump(ch, line, col);
        line = l2;
        col = c2;
        i = i + 1;
    }
    Ok((string_of(s.as_slice()), i, line, col))
}

/// Reads the word that starts at `chars[i]`: a keyword, a capitalized
/// name or an identifier, where it ends, and the position there.
fn lex_word(chars: &Vec<char>, i: usize, line: u32, col: u32) -> (r: (Tok, usize, u32, u32))
    requires
        chars.len() < u32::MAX,
        i < chars.len(),
        is_ident_start(chars@[i as int]),
        1 <= line <= i + 1,
        1 <= col <= i + 1,
        (line as int, col as int) == pos_after(chars@, i as int),
    ensures
        token_at(chars@, i as int, r.0),
        r.1 == ident_end(chars@, i + 1),
        i < r.1 <= chars.len(),
        1 <= r.2 <= r.1 + 1 && 1 <= r.3 <= r.1 + 1,
        (r.2 as int, r.3 as int) == pos_after(chars@, r.1 as int),
        r.0 is Kw || r.0 is Upper || r.0 is Ident,
{
    let n = chars.len();
    let i0 = i;
    let mut i = i;
    let mut line = line;
    let mut col = col;
    let mut word: Vec<char> = Vec::new();
    word.push(chars[i]);
    proof {
        lemma_pos_step(chars@, i as int, line, col);
        assert(word@ =~= chars@.subrange(i0 as int, i + 1));
    }
    let (l2, c2) = bump(chars[i], line, col);
    line = l2;
    col = c2;
    i = i + 1;
    while i < n && (is_alpha_exec(chars[i]) || is_digit_exec(chars[i]) || chars[i] == '_'
        || chars[i] == '\'')
        invariant
            n == chars.len(),
            n < u32::MAX,
            i0 + 1 <= i <= n,
            1 <= line <= i + 1,
            1 <= col <= i + 1,
            (line as int, col as int) == pos_after(chars@, i as int),
            word@ == chars@.subrange(i0 as int, i as int),
            ident_end(chars@, i0 + 1) == ident_end(chars@, i as int),
        decreases n - i,
    {
        proof {
            assert(chars@.subrange(i0 as int, i + 1) =~= chars@.subrange(i0 as int, i as int).push(chars@[i as int]));
            lemma_pos_step(chars@, i as int, line, col);
        }
        word.push(chars[i]);
        let (l2, c2) = bump(chars[i], line, col);
        line = l2;
        col = c2;
        i = i + 1;
    }
    let tok = match lookup_keyword(&word) {
        Some(k) => Tok::Kw(k),
        None => {
            if word.len() > 0 && is_upper_exec(word[0]) {
                Tok::Upper(string_of(word.as_slice()))
            } else {
                Tok::Ident(string_of(word.as_slice()))
            }
        }
    };
    (tok, i, line, col)
}

/// Reads the token that starts at `chars[i]` (not white space and not a
/// comment): the token, where it ends, and the position there; or the
/// error and the index it is reported at.
fn lex_token(chars: &Vec<char>, i: usize, line: u32, col: u32) -> (r: Result<(Tok, usize, u32, u32), (String, usize)>)
    requires
        chars.len() < u32::MAX,
        i < chars.len(),
        1 <= line <= i + 1,
        1 <= col <= i + 1,
        (line as int, col as int) == pos_after(chars@, i as int),
    ensures
        r matches Err((m, k)) ==> reported_at(chars@, k as int, m@),
        r matches Err((m, k)) ==> m@ == lex_error_message(chars@, i as int),
        r is Err ==> forall|tok: Tok| !#[trigger] token_at(chars@, i as int, tok),
        r matches Ok((tok, e, l, c)) ==> {
            &&& token_at(chars@, i as int, tok)
            &&& token_end(chars@, i as int, tok) == e
            &&& !(tok is Eof)
            &&& i < e <= chars.len()
            &&& 1 <= l <= e + 1 && 1 <= c <= e + 1
            &&& (l as int, c as int) == pos_after(chars@, e as int)
        },
{
    let n = chars.len();
    let c = chars[i];
    let ghost i0: int = i as int;
    if is_digit_exec(c) {
        match lex_number(chars, i, line, col) {
            Ok((v, e, l, cc)) => {
                proof {
                    assert(token_end(chars@, i0, Tok::Int(v)) == e);
                }
                Ok((Tok::Int(v), e, l, cc))
            }
            Err(m) => Err((m, i)),
        }
    } else if c == '"' {
        match lex_string(chars, i, line, col) {
            Err(e) => Err(e),
            Ok((s, e, l, cc)) => {
                proof {
                    assert(token_end(chars@, i0, Tok::Str(s)) == e);
                }
                Ok((Tok::Str(s), e, l, cc))
            }
        }
    } else if is_alpha_exec(c) || c == '_' {
        let w = lex_word(chars, i, line, col);
        proof {
            assert(token_end(chars@, i0, w.0) == w.1);
        }
        Ok(w)
    } else if i + 1 < n && sym2(c, chars[i + 1]).is_some() {
        let s2 = sym2(c, chars[i + 1]).unwrap();
        proof {
            lemma_pos_step(chars@, i as int, line, col);
        }
        let (l2, c2) = bump(c, line, col);
        proof {
            lemma_pos_step(chars@, i + 1, l2, c2);
        }
        let (l3, c3) = bump(chars[i + 1], l2, c2);
        proof {
            assert(token_end(chars@, i0, Tok::Sym(s2)) == i + 2);
        }
        Ok((Tok::Sym(s2), i + 2, l3, c3))
    } else {
        match sym1(c) {
            Some(s1) => {
                proof {
                    lemma_pos_step(chars@, i as int, line, col);
                }
                let (l2, c2) = bump(c, line, col);
                proof {
                    assert(token_end(chars@, i0, Tok::Sym(s1)) == i + 1);
                }
                Ok((Tok::Sym(s1), i + 1, l2, c2))
            }
            None => {
                let cs = one_char_string(c);
                let m = located_message(chars, i, line, col, "unexpected character `", cs.as_str(), "`");
                Err((m, i))
            }
        }
    }
}

/// A symbol token spells the source text it was read from: the characters
/// from its start to its end are the symbol's own spelling.
pub proof fn lemma_symbol_token_spells_source(src: Seq<char>, st: int, s: Symbol)
    requires
        token_at(src, st, Tok::Sym(s)),
    ensures
        src.subrange(st, token_end(src, st, Tok::Sym(s))) == symbol_text(s),
{
    reveal_strlit("->");
    reveal_strlit("==");
    reveal_strlit("!=");
    reveal_strlit("<=");
    reveal_strlit(">=");
    reveal_strlit("&&");
    reveal_strlit("||");
    reveal_strlit("++");
    reveal_strlit("::");
    reveal_strlit("(");
    reveal_strlit(")");
    reveal_strlit("[");
    reveal_strlit("]");
    reveal_strlit(",");
    reveal_strlit(";");
    reveal_strlit(":");
    reveal_strlit("|");
    reveal_strlit("_");
    reveal_strlit("<");
    reveal_strlit(">");
    reveal_strlit("=");
    reveal_strlit("+");
    reveal_strlit("-");
    reveal_strlit("*");
    reveal_strlit("/");
    reveal_strlit("%");
    let t = symbol_text(s);
    if st + 1 < src.len() && sym2_of(src[st], src[st + 1]) is Some {
        assert(t.len() == 2);
        assert(src.subrange(st, st + 2) =~= seq![src[st], src[st + 1]]);
        assert(t =~= seq![src[st], src[st + 1]]);
    } else {
        assert(t.len() == 1);
        assert(src.subrange(st, st + 1) =~= seq![src[st]]);
        assert(t =~= seq![src[st]]);
    }
}

/// Every symbol among the tokens read from `src` spells, at its start, the
/// symbol's own text.
pub proof fn lemma_read_symbols_spell_source(src: Seq<char>, toks: Seq<Token>, starts: Seq<int>, j: int)
    requires
        tokens_start_at(src, toks, starts),
        0 <= j < toks.len(),
        toks[j].tok is Sym,
    ensures
        starts[j] + symbol_text(toks[j].tok->Sym_0).len() <= src.len(),
        src.subrange(starts[j], starts[j] + symbol_text(toks[j].tok->Sym_0).len())
            == symbol_text(toks[j].tok->Sym_0),
{
    let s = toks[j].tok->Sym_0;
    assert(token_at(src, starts[j], toks[j].tok));
    assert(toks[j].tok == Tok::Sym(s));
    lemma_symbol_token_spells_source(src, starts[j], s);
}

/// Reading `src` stops at `src[k]`: the tokens `toks` were read from
/// `starts`, only white space and comments follow them up to `k`, and no
/// token can be read from `src[k]`, where no white space or comment starts.
pub open spec fn stuck_at(src: Seq<char>, toks: Seq<Token>, starts: Seq<int>, k: int) -> bool {
    &&& tokens_start_at(src, toks, starts)
    &&& skippable(src, gap_before(src, toks, starts, toks.len() as int), k)
    &&& 0 <= k < src.len()
    &&& !is_white_space(src[k])
    &&& !comment_at(src, k)
    &&& forall|tok: Tok| !#[trigger] token_at(src, k, tok)
}

/// `s` holds only white space.
pub open spec fn blank(s: Seq<char>) -> bool {
    forall|i: int| 0 <= i < s.len() ==> is_white_space(#[trigger] s[i])
}

/// Splits source text into tokens.  Errors carry the `line:col` of the
/// offending construct.
pub fn lex(src: &str) -> (r: Result<Vec<Token>, String>)
    requires
        src@.len() < u32::MAX,
    ensures
        r matches Ok(toks) ==> well_formed_tokens(toks@),
        r matches Ok(toks) ==> exists|starts: Seq<int>| tokens_start_at(src@, toks@, starts),
        r matches Err(m) ==> reported_in(src@, m@),
        r matches Err(m) ==> exists|toks: Seq<Token>, starts: Seq<int>, k: int| stuck_at(src@, toks, starts, k),
        r matches Err(m) ==> exists|toks: Seq<Token>, starts: Seq<int>, k: int| stuck_at(src@, toks, starts, k)
            && m@ == lex_error_message(src@, k),
        blank(src@) ==> (r matches Ok(toks) && toks@.len() == 1),
{
    let chars = chars_of(src);
    let n: usize = chars.len();
    let mut toks: Vec<Token> = Vec::new();
    let mut i: usize = 0;
    let mut line: u32 = 1;
    let mut col: u32 = 1;
    let ghost mut starts: Seq<int> = Seq::empty();
    while i < n
        invariant
            n == chars.len(),
            n < u32::MAX,
            i <= n,
            1 <= line <= i + 1,
            1 <= col <= i + 1,
            (line as int, col as int) == pos_after(chars@, i as int),
            forall|j: int| 0 <= j < toks.len() ==> !(toks@[j].tok is Eof),
            forall|j: int| 0 <= j < toks.len() ==> toks@[j].line >= 1 && toks@[j].col >= 1,
            chars@ == src@,
            tokens_start_at(chars@, toks@, starts),
            forall|j: int| 0 <= j < starts.len() ==> #[trigger] starts[j] < i,
            skippable(chars@, gap_before(chars@, toks@, starts, toks.len() as int), i as int),
            blank(src@) ==> toks@.len() == 0,
        decreases n - i,
    {
        let c = chars[i];
        if is_whitespace_char(c) {
            proof {
                lemma_pos_step(chars@, i as int, line, col);
                lemma_skip_white(chars@, gap_before(chars@, toks@, starts, toks.len() as int), i as int);
            }
            let (l2, c2) = bump(c, line, col);
            line = l2;
            col = c2;
            i = i + 1;
            continue;
        }
        // comment to end of line
        if c == '-' && i + 1 < n && chars[i + 1] == '-' {
            proof {
                lemma_pos_step(chars@, i as int, line, col);
                lemma_skip_comment(chars@, gap_before(chars@, toks@, starts, toks.len() as int), i as int);
            }
            let (l2, c2) = bump(c, line, col);
            proof {
                lemma_pos_step(chars@, i + 1, l2, c2);
            }
            let (l3, c3) = bump(chars[i + 1], l2, c2);
            line = l3;
            col = c3;
            i = i + 2;
            let mark = i;
            while i < n && chars[i] != '\n'
                invariant
                    mark <= i,
                    line_end(chars@, mark as int) == line_end(chars@, i as int),
                    n == chars.len(),
                    n < u32::MAX,
                    i <= n,
                    1 <= line <= i + 1,
                    1 <= col <= i + 1,
                    (line as int, col as int) == pos_after(chars@, i as int),
                decreases n - i,
            {
                proof {
                    lemma_pos_step(chars@, i as int, line, col);
                }
                let (l2, c2) = bump(chars[i], line, col);
                line = l2;
                col = c2;
                i = i + 1;
            }
            continue;
        }
        let l0 = line;
        let c0 = col;
        let ghost i0: int = i as int;
        let (tok, e, l, cc) = match lex_token(&chars, i, line, col) {
            Ok(t) => t,
            Err((m, k)) => {
                proof {
                    lemma_reported(src@, k as int, m@);
                    assert(stuck_at(src@, toks@, starts, i as int));
                    assert(m@ == lex_error_message(src@, i as int));
                }
                return Err(m);
            }
        };
        proof {
            assert(token_at(chars@, i0, tok));
            assert(token_end(chars@, i0, tok) == e);
        }
        toks.push(Token { tok, line: l0, col: c0 });
        proof {
            lemma_tokens_push(chars@, toks@, starts, i0);
            starts = starts.push(i0);
            assert(gap_before(chars@, toks@, starts, toks.len() as int) == e);
        }
        i = e;
        line = l;
        col = cc;
    }
    toks.push(Token { tok: Tok::Eof, line, col });
    proof {
        lemma_tokens_push(chars@, toks@, starts, n as int);
        starts = starts.push(n as int);
    }
    Ok(toks)
}

} // verus!
