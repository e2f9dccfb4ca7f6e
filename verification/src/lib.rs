//! dacelo: an ML-family language front end (lexer, parser, Hindley-Milner
//! inference, tree-walking evaluator) and an ARM64 / Mach-O back end.
use vstd::prelude::*;

pub mod ast;
pub mod codegen;
pub mod encoder;
pub mod eval;
pub mod grammar;
pub mod infer;
pub mod lexer;
pub mod macho;
pub mod parser;
pub mod strings;
pub mod text;

use crate::eval::{HostReply, HostRequest, Machine, OutSink, Stop};

verus! {

/// How a run of a program ended.
pub enum Outcome {
    /// the program ran to the end (or has no `main`)
    Finished,
    /// a lexing, parsing, typing or runtime error, with its message
    Failed(String),
    /// the program called `exit` with this status
    Exited(i64),
    /// the program needs the host to answer this request; the run is to be
    /// repeated with the answer added after the answers given so far
    NeedHost(HostRequest),
}

/// The end of a run and what the program printed before it.
pub struct Run {
    pub outcome: Outcome,
    pub output: Vec<u8>,
    /// how many of the given host answers were not used
    pub unused: usize,
    /// whether the program was lexed, parsed and typed without error (and
    /// so was run)
    pub checked: bool,
}

/// `src` splits into tokens that end with the end of input, and those
/// tokens form a program.
pub open spec fn well_formed_source(src: Seq<char>) -> bool {
    exists|toks: Seq<crate::lexer::Token>, starts: Seq<int>, items: Seq<crate::ast::Item>|
        crate::lexer::tokens_start_at(src, toks, starts) && crate::lexer::well_formed_tokens(toks)
            && crate::grammar::program(toks, items)
}

/// No sequence of tokens ending with the end of input covers `src`: some
/// character starts no token.
pub open spec fn lexically_invalid(src: Seq<char>) -> bool {
    forall|toks: Seq<crate::lexer::Token>, starts: Seq<int>|
        !(#[trigger] crate::lexer::tokens_start_at(src, toks, starts) && crate::lexer::well_formed_tokens(toks))
}

/// `m` is the lexer's message for the first character of `src` at which
/// no token starts.
pub open spec fn lexer_failure(src: Seq<char>, m: Seq<char>) -> bool {
    exists|toks: Seq<crate::lexer::Token>, starts: Seq<int>, k: int|
        crate::lexer::stuck_at(src, toks, starts, k) && m == crate::lexer::lex_error_message(src, k)
}

fn failed_run(m: String, unused: usize) -> (r: Run)
    ensures
        r.outcome == Outcome::Failed(m),
        r.output@.len() == 0,
        r.unused == unused,
        !r.checked,
{
    Run { outcome: Outcome::Failed(m), output: Vec::new(), unused, checked: false }
}

/// Lexes, parses, type checks and runs `src`, answering the program's host
/// requests from `replies` in order.  Nothing is printed unless the program
/// passed the checks, and a host request is made only once every given
/// answer has been used.
pub fn run_with_replies(src: &str, replies: Vec<HostReply>) -> (r: Run)
    ensures
        r.unused <= replies@.len(),
        r.outcome is NeedHost ==> r.unused == 0 && r.checked,
        !r.checked ==> r.outcome is Failed && r.output@.len() == 0 && r.unused == replies@.len(),
        src@.len() >= 0xffff_fffe ==> !r.checked,
        crate::lexer::blank(src@) && src@.len() < 0xffff_fffe ==> r.outcome is Finished && r.output@.len() == 0
            && r.checked && r.unused == replies@.len(),
        r.checked ==> well_formed_source(src@),
        src@.len() < 0xffff_fffe && lexically_invalid(src@) ==> !r.checked && (r.outcome matches Outcome::Failed(m)
            && lexer_failure(src@, m@)),
{
    let n = replies.len();
    if src.unicode_len() >= 0xffff_fffe {
        return failed_run(String::from_str("source text too long"), n);
    }
    let toks = match crate::lexer::lex(src) {
        Ok(t) => t,
        Err(m) => {
            return failed_run(m, n);
        }
    };
    let ghost tv = toks@;
    proof {
        let starts = choose|starts: Seq<int>| crate::lexer::tokens_start_at(src@, tv, starts);
        assert(crate::lexer::tokens_start_at(src@, tv, starts) && crate::lexer::well_formed_tokens(tv));
    }
    let prog = match crate::parser::parse(toks) {
        Ok(p) => p,
        Err(m) => {
            return failed_run(m, n);
        }
    };
    proof {
        let starts = choose|starts: Seq<int>| crate::lexer::tokens_start_at(src@, tv, starts);
        assert(crate::grammar::program(tv, prog.items@));
        assert(well_formed_source(src@));
    }
    let mut inf = crate::infer::Infer::new();
    match inf.check_program(&prog) {
        Ok(()) => {}
        Err(m) => {
            return failed_run(m, n);
        }
    }
    let ctors = inf.into_ctors();
    let mut machine = Machine::with_replies(OutSink::Buffer, ctors, replies);
    let res = machine.run_items(&prog);
    let unused = machine.replies.len();
    let outcome = match res {
        Ok(_) => Outcome::Finished,
        Err(Stop::Error(m)) => Outcome::Failed(m),
        Err(Stop::Exit(code)) => Outcome::Exited(code),
        Err(Stop::NeedHost(req)) => Outcome::NeedHost(req),
    };
    Run { outcome, output: machine.output, unused, checked: true }
}

/// The result a run without a host gives: the printed text when it
/// finished, otherwise an error message.
pub fn captured(run: Run) -> (r: Result<String, String>)
    ensures
        run.outcome is Finished && vstd::utf8::valid_utf8(run.output@) ==> (r matches Ok(s)
            && s@ == vstd::utf8::decode_utf8(run.output@)),
        run.outcome is Finished && !vstd::utf8::valid_utf8(run.output@) ==> r is Err,
        run.outcome matches Outcome::Failed(m) ==> r == Err::<String, String>(m),
        run.outcome matches Outcome::Exited(code) ==> (r matches Err(m)
            && m@ == "program exited with status "@ + crate::text::int_digits(code as int)),
        run.outcome is NeedHost ==> r is Err,
{
    match run.outcome {
        Outcome::Finished => match crate::strings::string_from_utf8(&run.output) {
            Some(s) => Ok(s),
            None => Err(String::from_str("output is not valid UTF-8")),
        },
        Outcome::Failed(m) => Err(m),
        Outcome::Exited(code) => {
            let digits = crate::text::i64_to_string(code);
            Err(crate::text::concat("program exited with status ", digits.as_str()))
        }
        Outcome::NeedHost(_) => Err(String::from_str("the program needs the host (files, arguments or the shell)")),
    }
}

/// Runs `src` and returns what it printed, or the error message.  The run
/// has no host: a program that reads files, arguments or the shell, or
/// that calls `exit`, ends with an error here.
pub fn run_source_captured(src: &str) -> (r: Result<String, String>)
    ensures
        src@.len() >= 0xffff_fffe ==> r is Err,
        crate::lexer::blank(src@) && src@.len() < 0xffff_fffe ==> (r matches Ok(s) && s@.len() == 0),
        r is Ok ==> well_formed_source(src@),
        src@.len() < 0xffff_fffe && lexically_invalid(src@) ==> (r matches Err(m) && lexer_failure(src@, m@)),
{
    let run = run_with_replies(src, Vec::new());
    proof {
        if crate::lexer::blank(src@) && src@.len() < 0xffff_fffe {
            assert(run.output@ =~= Seq::<u8>::empty());
            assert(vstd::utf8::valid_utf8(run.output@));
            assert(vstd::utf8::decode_utf8(run.output@) =~= Seq::<char>::empty());
        }
    }
    captured(run)
}


/// The names of the first `n` definitions of `ds`, separated by ` / `.
pub open spec fn joined_names(ds: Seq<crate::ast::Def>, n: nat) -> Seq<char>
    decreases n,
{
    if n == 0 {
        Seq::empty()
    } else if n == 1 {
        ds[0].name@
    } else {
        joined_names(ds, (n - 1) as nat) + " / "@ + ds[n - 1].name@
    }
}

/// How an item is named in a type error: `type T`, `let f` or
/// `let rec f / g`.
pub fn item_label(item: &crate::ast::Item) -> (s: String)
    ensures
        item matches crate::ast::Item::Def(d) ==> s@ == "let "@ + d.name@,
        item matches crate::ast::Item::Ty(t) ==> s@ == "type "@ + t.name@,
        item matches crate::ast::Item::RecGroup(ds) ==> s@ == "let rec "@ + joined_names(ds@, ds@.len()),
{
    match item {
        crate::ast::Item::Ty(t) => crate::text::concat("type ", t.name.as_str()),
        crate::ast::Item::Def(d) => crate::text::concat("let ", d.name.as_str()),
        crate::ast::Item::RecGroup(ds) => {
            let mut s = String::from_str("let rec ");
            let mut i: usize = 0;
            while i < ds.len()
                invariant
                    i <= ds.len(),
                    s@ == "let rec "@ + joined_names(ds@, i as nat),
                decreases ds.len() - i,
            {
                let ghost s0 = s@;
                if i > 0 {
                    s.append(" / ");
                }
                s.append(ds[i].name.as_str());
                proof {
                    if i == 0 {
                        assert(joined_names(ds@, 0) =~= Seq::<char>::empty());
                        assert(s@ =~= "let rec "@ + joined_names(ds@, 1));
                    } else {
                        assert(s@ =~= "let rec "@ + joined_names(ds@, (i + 1) as nat));
                    }
                }
                i = i + 1;
            }
            s
        }
    }
}

/// Why type checking stopped: the message and, when an item failed its
/// check, the inference state at that point and, for a `let rec` group,
/// the names of its members.
pub struct TypeFailure {
    pub message: String,
    pub state: Option<crate::infer::Infer>,
    pub group: Vec<String>,
}

/// The members of a `let rec` group; none for other items.
fn group_names(item: &crate::ast::Item) -> (r: Vec<String>)
    ensures
        !(item is RecGroup) ==> r.len() == 0,
        item matches crate::ast::Item::RecGroup(ds) ==> r@.len() == ds@.len() && forall|k: int| 0 <= k < ds@.len()
            ==> #[trigger] r@[k] == ds@[k].name,
{
    let mut out: Vec<String> = Vec::new();
    match item {
        crate::ast::Item::Ty(_) => {}
        crate::ast::Item::Def(_) => {}
        crate::ast::Item::RecGroup(ds) => {
            let mut i: usize = 0;
            while i < ds.len()
                invariant
                    i <= ds.len(),
                    out@.len() == i,
                    forall|k: int| 0 <= k < i ==> #[trigger] out@[k] == ds@[k].name,
                decreases ds.len() - i,
            {
                out.push(ds[i].name.clone());
                i = i + 1;
            }
        }
    }
    out
}

/// Type checks `src` item by item; the failure of an item is named after
/// it: `[item <index>: <label>] <message>`.
pub fn check_items(src: &str) -> (r: Result<(), TypeFailure>)
    ensures
        src@.len() >= 0xffff_fffe ==> r is Err,
        crate::lexer::blank(src@) && src@.len() < 0xffff_fffe ==> r is Ok,
        r matches Err(f) ==> (f.state is Some ==> "[item "@.is_prefix_of(f.message@) && f.state->0.wf()),
        r is Ok ==> well_formed_source(src@),
        src@.len() < 0xffff_fffe && lexically_invalid(src@) ==> (r matches Err(f) && f.state is None && lexer_failure(
            src@,
            f.message@,
        )),
{
    if src.unicode_len() >= 0xffff_fffe {
        return Err(TypeFailure { message: String::from_str("source text too long"), state: None, group: Vec::new() });
    }
    let toks = match crate::lexer::lex(src) {
        Ok(t) => t,
        Err(m) => {
            return Err(TypeFailure { message: m, state: None, group: Vec::new() });
        }
    };
    let ghost tv = toks@;
    proof {
        let starts = choose|starts: Seq<int>| crate::lexer::tokens_start_at(src@, tv, starts);
        assert(crate::lexer::tokens_start_at(src@, tv, starts) && crate::lexer::well_formed_tokens(tv));
    }
    let prog = match crate::parser::parse(toks) {
        Ok(p) => p,
        Err(m) => {
            return Err(TypeFailure { message: m, state: None, group: Vec::new() });
        }
    };
    proof {
        let starts = choose|starts: Seq<int>| crate::lexer::tokens_start_at(src@, tv, starts);
        assert(crate::grammar::program(tv, prog.items@));
        assert(well_formed_source(src@));
    }
    let mut inf = crate::infer::Infer::new();
    let mut i: usize = 0;
    while i < prog.items.len()
        invariant
            i <= prog.items.len(),
            inf.wf(),
            crate::lexer::blank(src@) ==> prog.items@.len() == 0,
            !lexically_invalid(src@),
        decreases prog.items.len() - i,
    {
        let label = item_label(&prog.items[i]);
        match inf.process_item(&prog.items[i]) {
            Ok(()) => {}
            Err(e) => {
                let mut m = String::from_str("[item ");
                let ghost head = m@;
                m.append(crate::text::u64_to_string(i as u64).as_str());
                m.append(": ");
                m.append(label.as_str());
                m.append("] ");
                m.append(e.as_str());
                proof {
                    reveal_strlit("[item ");
                    assert(m@.subrange(0, head.len() as int) =~= head);
                }
                let group = group_names(&prog.items[i]);
                return Err(TypeFailure { message: m, state: Some(inf), group });
            }
        }
        i = i + 1;
    }
    Ok(())
}

/// Type checks `src` item by item; the error names the item that failed:
/// `[item <index>: <label>] <message>`.
pub fn print_types(src: &str) -> (r: Result<(), String>)
    ensures
        src@.len() >= 0xffff_fffe ==> r is Err,
        crate::lexer::blank(src@) && src@.len() < 0xffff_fffe ==> r is Ok,
        r is Ok ==> well_formed_source(src@),
        src@.len() < 0xffff_fffe && lexically_invalid(src@) ==> (r matches Err(m) && lexer_failure(src@, m@)),
{
    match check_items(src) {
        Ok(()) => Ok(()),
        Err(f) => Err(f.message),
    }
}

/// The constructors ordered by tag, each with its arity.
pub open spec fn sorted_by_tag(v: Seq<(u32, String, usize)>) -> bool {
    forall|i: int, j: int| 0 <= i < j < v.len() ==> v[i].0 <= v[j].0
}

/// A constructor table entry `(name, (tag, arity))` as `(tag, name, arity)`.
pub open spec fn tag_entry(c: (String, (u32, usize))) -> (u32, String, usize) {
    (c.1.0, c.0, c.1.1)
}

/// The constructor table `(name, (tag, arity))` as `(tag, name, arity)`
/// in order of tag (insertion sort, keeping equal tags in table order).
pub fn ctors_by_tag(ctors: &Vec<(String, (u32, usize))>) -> (r: Vec<(u32, String, usize)>)
    ensures
        sorted_by_tag(r@),
        r@.to_multiset() == ctors@.map_values(|c: (String, (u32, usize))| tag_entry(c)).to_multiset(),
{
    let mut out: Vec<(u32, String, usize)> = Vec::new();
    let mut i: usize = 0;
    proof {
        assert(ctors@.subrange(0, 0).map_values(|c: (String, (u32, usize))| tag_entry(c)) =~= Seq::empty());
        broadcast use vstd::seq_lib::group_to_multiset_ensures;
        assert(out@.to_multiset().len() == 0);
    }
    while i < ctors.len()
        invariant
            i <= ctors@.len(),
            sorted_by_tag(out@),
            out@.to_multiset() == ctors@.subrange(0, i as int).map_values(|c: (String, (u32, usize))| tag_entry(c)).to_multiset(),
        decreases ctors@.len() - i,
    {
        let x = (ctors[i].1.0, ctors[i].0.clone(), ctors[i].1.1);
        // insert after every entry whose tag is not larger
        let mut pos: usize = out.len();
        while pos > 0 && out[pos - 1].0 > x.0
            invariant
                pos <= out@.len(),
                forall|j: int| pos <= j < out@.len() ==> out@[j].0 > x.0,
            decreases pos,
        {
            pos = pos - 1;
        }
        let ghost before = out@;
        out.insert(pos, x);
        proof {
            assert(out@ == before.insert(pos as int, x));
            assert forall|a: int, b: int| 0 <= a < b < out@.len() implies out@[a].0 <= out@[b].0 by {
                if b < pos {
                } else if b == pos {
                    if a < pos && pos > 0 {
                        assert(before[pos - 1].0 <= x.0);
                        if a < pos - 1 {
                            assert(before[a].0 <= before[pos - 1].0);
                        }
                    }
                } else if a == pos {
                    assert(before[b - 1].0 > x.0);
                } else if a < pos {
                    assert(before[a].0 <= before[b - 1].0);
                } else {
                    assert(before[a - 1].0 <= before[b - 1].0);
                }
            }
            vstd::seq_lib::to_multiset_insert(before, pos as int, x);
            let f = |c: (String, (u32, usize))| tag_entry(c);
            assert(ctors@.subrange(0, i + 1).map_values(f) =~= ctors@.subrange(0, i as int).map_values(f).push(x));
            ctors@.subrange(0, i as int).map_values(f).to_multiset_ensures();
        }
        i = i + 1;
    }
    proof {
        assert(ctors@.subrange(0, ctors@.len() as int) =~= ctors@);
    }
    out
}

/// Compiles `src` to a Mach-O object for arm64: lexing, parsing, type
/// checking, constructor table by tag, code generation and object layout.
pub fn compile_source(src: &str) -> (r: Result<Vec<u8>, String>)
    ensures
        src@.len() >= 0xffff_fffe ==> r is Err,
        r matches Ok(bytes) ==> exists|obj: crate::macho::ObjectBuilder| crate::macho::object_image(obj) == Some(
            bytes@) && obj.text@.len() % 4 == 0 && crate::codegen::got_load_pairs(obj.relocs_text@, obj.text@.len()),
        r is Ok ==> well_formed_source(src@),
        src@.len() < 0xffff_fffe && lexically_invalid(src@) ==> (r matches Err(m) && lexer_failure(src@, m@)),
{
    if src.unicode_len() >= 0xffff_fffe {
        return Err(String::from_str("source text too long"));
    }
    let toks = crate::lexer::lex(src)?;
    let ghost tv = toks@;
    proof {
        let starts = choose|starts: Seq<int>| crate::lexer::tokens_start_at(src@, tv, starts);
        assert(crate::lexer::tokens_start_at(src@, tv, starts) && crate::lexer::well_formed_tokens(tv));
    }
    let prog = crate::parser::parse(toks)?;
    proof {
        let starts = choose|starts: Seq<int>| crate::lexer::tokens_start_at(src@, tv, starts);
        assert(crate::grammar::program(tv, prog.items@));
        assert(well_formed_source(src@));
    }
    let mut inf = crate::infer::Infer::new();
    match inf.check_program(&prog) {
        Ok(()) => {}
        Err(e) => {
            return Err(crate::text::concat("type error: ", e.as_str()));
        }
    }
    let table = ctors_by_tag(&inf.into_ctors());
    let mut entries: Vec<(String, usize)> = Vec::new();
    let mut i: usize = 0;
    while i < table.len()
        invariant
            i <= table.len(),
        decreases table.len() - i,
    {
        entries.push((table[i].1.clone(), table[i].2));
        i = i + 1;
    }
    let g = crate::codegen::Codegen::new(&entries)?;
    let obj = g.compile_program(&prog)?;
    obj.finish()
}

} // verus!
