//! Code generation from the AST to AArch64 machine code in a Mach-O object.
//!
//! Values are machine words: an `Int` n is `n << 2 | 1`, `true` is 7 and
//! `false` 3; everything else is a pointer to a heap block
//! `[header: size << 8 | tag][payload]` (strings, tuples, constructor
//! values, closures).  Every function takes one argument: the closure in
//! x0 and the argument in x1.  Locals live in frame slots at `[sp, #8k]`.
use vstd::prelude::*;
use crate::ast::{BinOp, Def, Expr, Item, Lit, Pattern, Program, clone_expr, clone_pattern, clone_patterns, pat_same,
    expr_same};
use crate::encoder::{CodeBuf, Cond, Insn, LitTarget, R9, R10, R11, RSP, XZR, insn_words, load_const_words,
    run_insns, run_movs, words_bytes, le_bytes, lemma_load_const_sets_register, lemma_words_bytes_push, orr_word, adrp_word,
    ldr_word, blr_word, movz_word, add_sp_x9_word, ldp_fp_lr_word, ret_word, str_word, stp_fp_lr_word,
    add_imm_word, R29_FP, FixKind, taken_after_compare, branch_placeholder};
use crate::macho::{ObjectBuilder, Reloc, RelocKind, Section, push_le64, push_zeros, le64};
use crate::parser::wrap_params;
use crate::text::{concat, u64_to_string, nat_digits};
use vstd::utf8::encode_utf8;
use crate::infer::{binds, keys_unique};
use crate::eval::{Value, int_binop};

verus! {

// value encoding constants, shared with the runtime
pub const TAG_STRING: u64 = 1;
pub const TAG_TUPLE: u64 = 2;
pub const TAG_ADT: u64 = 3;
pub const TAG_CLOSURE: u64 = 4;

/// A heap block header: the size in words above the tag byte.
pub open spec fn header_word(tag: u64, size_words: u64) -> u64 {
    (size_words << 8u64) | tag
}

/// The header of a heap block.
pub fn hdr(tag: u64, size_words: u64) -> (h: u64)
    ensures
        h == header_word(tag, size_words),
{
    (size_words << 8) | tag
}

/// The header keeps the tag in its low byte and the size above it.
pub proof fn lemma_header_fields(tag: u64, size_words: u64)
    requires
        tag < 256,
        size_words < 0x100_0000_0000_0000,
    ensures
        header_word(tag, size_words) & 0xFF == tag,
        header_word(tag, size_words) >> 8u64 == size_words,
{
    assert(((size_words << 8u64) | tag) & 0xFF == tag) by (bit_vector)
        requires tag < 256;
    assert(((size_words << 8u64) | tag) >> 8u64 == size_words) by (bit_vector)
        requires tag < 256, size_words < 0x100_0000_0000_0000;
}

/// The machine word of the integer `n`: `n << 2 | 1` (wrapping).
pub open spec fn int_word(n: i64) -> i64 {
    n.wrapping_shl(2) | 1
}

/// The machine word of the integer `n`.
pub fn int_word_of(n: i64) -> (w: i64)
    ensures
        w == int_word(n),
{
    n.wrapping_shl(2) | 1
}

/// Integer words are immediates: their low two bits are `01`, so a word
/// never looks like an (8-aligned) heap pointer, and an arithmetic shift
/// right by two gives the integer back whenever it fits in 62 bits.
pub proof fn lemma_int_word_tagged(n: i64)
    ensures
        int_word(n) & 3 == 1,
        -0x2000_0000_0000_0000 <= n < 0x2000_0000_0000_0000 ==> int_word(n) >> 2u64 == n,
{
    assert(int_word(n) == (n << 2u32) | 1);
    assert(((n << 2u32) | 1) & 3 == 1) by (bit_vector);
    assert(-0x2000_0000_0000_0000 <= n < 0x2000_0000_0000_0000 ==> ((n << 2u32) | 1) >> 2u64 == n)
        by (bit_vector);
}

/// The instructions an integer or boolean literal compiles to: the loads
/// of its word into x0.
pub open spec fn literal_code(l: Lit) -> Seq<u32> {
    match l {
        Lit::Int(n) => load_const_words(0, int_word(n) as u64),
        Lit::Bool(b) => load_const_words(0, bool_word(b) as u64),
        _ => Seq::empty(),
    }
}

/// Running the code of an integer or boolean literal leaves the literal's
/// word in x0, whatever x0 held before.
pub proof fn lemma_literal_code_loads_word(n: i64, b: bool, x: u64)
    ensures
        run_movs(literal_code(Lit::Int(n)), 0, x) == int_word(n) as u64,
        run_movs(literal_code(Lit::Bool(b)), 0, x) == bool_word(b) as u64,
{
    lemma_load_const_sets_register(0, int_word(n) as u64, x);
    lemma_load_const_sets_register(0, bool_word(b) as u64, x);
}

/// The instructions that the integer operators compile to, for operands
/// in the frame slots `la` and `rb`; `None` for the operators that call
/// the runtime (division and remainder) and the others.
pub open spec fn arith_insns(op: BinOp, la: u32, rb: u32) -> Option<Seq<Insn>> {
    match op {
        BinOp::Add => Some(seq![Insn::LdrSlot(0, la), Insn::LdrSlot(1, rb), Insn::AddReg(0, 0, 1, 0), Insn::SubImm(0, 0, 1)]),
        BinOp::Sub => Some(seq![Insn::LdrSlot(0, la), Insn::LdrSlot(1, rb), Insn::SubReg(0, 0, 1), Insn::AddImm(0, 0, 1)]),
        BinOp::Mul => Some(seq![Insn::LdrSlot(0, la), Insn::AsrImm(0, 0, 2), Insn::LdrSlot(1, rb), Insn::AsrImm(1, 1, 2),
            Insn::Mul(0, 0, 1), Insn::AddReg(0, 31, 0, 2), Insn::AddImm(0, 0, 1)]),
        BinOp::Lt | BinOp::Gt | BinOp::Le | BinOp::Ge => Some(seq![Insn::LdrSlot(0, la), Insn::AsrImm(0, 0, 2),
            Insn::LdrSlot(9, rb), Insn::AsrImm(9, 9, 2), Insn::CmpReg(0, 9), Insn::Cset(0, compare_cond(op)),
            Insn::AddReg(0, 31, 0, 2), Insn::AddImm(0, 0, 3)]),
        _ => None,
    }
}

/// The condition a comparison operator tests.
pub open spec fn compare_cond(op: BinOp) -> Cond {
    match op {
        BinOp::Lt => Cond::Lt,
        BinOp::Gt => Cond::Gt,
        BinOp::Le => Cond::Le,
        _ => Cond::Ge,
    }
}

/// The machine word of an integer or boolean value.
pub open spec fn immediate_word(v: Value) -> i64 {
    match v {
        Value::Int(k) => int_word(k),
        Value::Bool(b) => bool_word(b),
        _ => 0,
    }
}

/// Compiled code computes what the interpreter computes: run on the words
/// of two integers `m` and `n` in their frame slots, the instructions of
/// `+`, `-` and `*` leave in x0 the word of the interpreter's (wrapping)
/// result, and those of `<`, `>`, `<=`, `>=` the word of its boolean when
/// both integers fit in 62 bits (an integer word keeps 62 bits).
pub proof fn lemma_compiled_arith_agrees(
    op: BinOp,
    la: u32,
    rb: u32,
    m: i64,
    n: i64,
    x: Seq<i64>,
    f: (i64, i64),
    frame: spec_fn(int) -> i64,
)
    requires
        arith_insns(op, la, rb) is Some,
        x.len() == 31,
        frame(la as int) == int_word(m),
        frame(rb as int) == int_word(n),
        !(op == BinOp::Add || op == BinOp::Sub || op == BinOp::Mul) ==> (-0x2000_0000_0000_0000 <= m
            < 0x2000_0000_0000_0000 && -0x2000_0000_0000_0000 <= n < 0x2000_0000_0000_0000),
    ensures
        int_binop(op, m, n) matches Ok(v) && run_insns(arith_insns(op, la, rb)->0, x, f, frame).0[0]
            == immediate_word(v),
{
    reveal_with_fuel(run_insns, 9);
    let is = arith_insns(op, la, rb)->0;
    let wm = int_word(m);
    let wn = int_word(n);
    assert(wm == (m << 2u32) | 1 && wn == (n << 2u32) | 1);
    if op == BinOp::Add {
        lemma_tagged_add(m, n);
        assert(run_insns(is, x, f, frame).0[0] == wm.wrapping_add(wn.wrapping_shl(0)).wrapping_sub(1));
    } else if op == BinOp::Sub {
        lemma_tagged_sub(m, n);
        assert(run_insns(is, x, f, frame).0[0] == wm.wrapping_sub(wn).wrapping_add(1));
    } else if op == BinOp::Mul {
        lemma_tagged_mul(m, n);
        assert(run_insns(is, x, f, frame).0[0] == (0i64).wrapping_add(((wm >> 2u32).wrapping_mul(wn >> 2u32))
            .wrapping_shl(2)).wrapping_add(1));
    } else {
        lemma_untag(m);
        lemma_untag(n);
        let c: i64 = if crate::encoder::cond_holds(compare_cond(op), m, n) { 1 } else { 0 };
        lemma_tagged_flag(c);
        assert(run_insns(is, x, f, frame).0[0] == (0i64).wrapping_add(c.wrapping_shl(2)).wrapping_add(3));
    }
}

proof fn lemma_tagged_add(m: i64, n: i64)
    ensures
        int_word(m).wrapping_add(int_word(n).wrapping_shl(0)).wrapping_sub(1) == int_word(m.wrapping_add(n)),
{
    assert(((m << 2u32) | 1).wrapping_add(((n << 2u32) | 1).wrapping_shl(0)).wrapping_sub(1)
        == (m.wrapping_add(n) << 2u32) | 1) by (bit_vector);
}

proof fn lemma_tagged_sub(m: i64, n: i64)
    ensures
        int_word(m).wrapping_sub(int_word(n)).wrapping_add(1) == int_word(m.wrapping_sub(n)),
{
    assert(((m << 2u32) | 1).wrapping_sub((n << 2u32) | 1).wrapping_add(1) == (m.wrapping_sub(n) << 2u32) | 1)
        by (bit_vector);
}

proof fn lemma_tagged_mul(m: i64, n: i64)
    ensures
        (0i64).wrapping_add(((int_word(m) >> 2u32).wrapping_mul(int_word(n) >> 2u32)).wrapping_shl(2)).wrapping_add(1)
            == int_word(m.wrapping_mul(n)),
{
    assert((0i64).wrapping_add(((((m << 2u32) | 1) >> 2u32).wrapping_mul(((n << 2u32) | 1) >> 2u32)).wrapping_shl(2))
        .wrapping_add(1) == (m.wrapping_mul(n) << 2u32) | 1) by (bit_vector);
}

proof fn lemma_untag(m: i64)
    requires
        -0x2000_0000_0000_0000 <= m < 0x2000_0000_0000_0000,
    ensures
        int_word(m) >> 2u32 == m,
{
    assert(((m << 2u32) | 1) >> 2u32 == m) by (bit_vector)
        requires -0x2000_0000_0000_0000 <= m < 0x2000_0000_0000_0000;
}

proof fn lemma_tagged_flag(c: i64)
    requires
        c == 0 || c == 1,
    ensures
        (0i64).wrapping_add(c.wrapping_shl(2)).wrapping_add(3) == if c == 1 { 7i64 } else { 3i64 },
{
    assert((0i64).wrapping_add(c.wrapping_shl(2)).wrapping_add(3) == if c == 1 { 7i64 } else { 3i64 }) by (bit_vector)
        requires c == 0 || c == 1;
}

proof fn lemma_emit(c0: Seq<u8>, em: Seq<u32>, now: Seq<u8>, w: u32) -> (em2: Seq<u32>)
    requires
        now == c0 + words_bytes(em) + le_bytes(w),
    ensures
        em2 == em.push(w),
        now == c0 + words_bytes(em2),
{
    lemma_words_bytes_push(em, w);
    assert(now =~= c0 + words_bytes(em.push(w)));
    em.push(w)
}

/// Boolean words are immediates too: odd, and distinct from each other.
pub proof fn lemma_bool_word_tagged(b: bool)
    ensures
        bool_word(b) & 3 == 3,
        bool_word(true) != bool_word(false),
{
    assert(7i64 & 3 == 3) by (bit_vector);
    assert(3i64 & 3 == 3) by (bit_vector);
}

/// The machine word of a boolean.
pub open spec fn bool_word(b: bool) -> i64 {
    if b { 7 } else { 3 }
}

/// `relocs[i]` and `relocs[i + 1]` load a GOT entry: an ADRP page
/// relocation at some offset and the LDR page-offset relocation four bytes
/// later, for the same symbol, both words inside the text section.
pub open spec fn got_load_pair_at(relocs: Seq<Reloc>, i: int, text_len: nat) -> bool {
    &&& i + 1 < relocs.len()
    &&& relocs[i].kind is GotLoadPage21
    &&& relocs[i + 1].kind is GotLoadPageOff12
    &&& relocs[i + 1].offset == relocs[i].offset + 4
    &&& relocs[i + 1].sym_name@ == relocs[i].sym_name@
    &&& relocs[i].offset + 8 <= text_len
}

/// The text relocations are ADRP + LDR pairs, one after the other.
pub open spec fn got_load_pairs(relocs: Seq<Reloc>, text_len: nat) -> bool {
    &&& relocs.len() % 2 == 0
    &&& forall|i: int| 0 <= i < relocs.len() && i % 2 == 0 ==> #[trigger] got_load_pair_at(relocs, i, text_len)
}

/// The builtins, in the runtime's order.
pub fn builtin_names() -> (v: Vec<&'static str>)
    ensures
        v@ == seq!["print_int", "print_string", "int_to_string", "bool_to_string", "string_length",
            "str_concat", "read_file", "write_file", "exit", "chr", "ord", "string_get", "substring",
            "string_to_int", "error", "show", "argv", "system"],
{
    vec![
        "print_int",
        "print_string",
        "int_to_string",
        "bool_to_string",
        "string_length",
        "str_concat",
        "read_file",
        "write_file",
        "exit",
        "chr",
        "ord",
        "string_get",
        "substring",
        "string_to_int",
        "error",
        "show",
        "argv",
        "system",
    ]
}

pub const X0: u32 = 0;
pub const X1: u32 = 1;

/// Locals of the function being compiled: the frame slots used so far and
/// the names in scope with their slots (innermost last).
struct FnState {
    nslots: u32,
    scope: Vec<(String, u32)>,
}

impl FnState {
    fn fresh() -> (f: FnState)
        ensures
            f.nslots == 0,
            f.scope@.len() == 0,
    {
        FnState { nslots: 0, scope: Vec::new() }
    }
}

fn pat_name(p: &Pattern) -> (r: Option<String>)
    ensures
        match *p {
            Pattern::Var(n) => r == Some(n),
            _ => r is None,
        },
{
    match p {
        Pattern::Var(n) => Some(n.clone()),
        _ => None,
    }
}

/// A function whose machine code is emitted after the top-level
/// definitions: one label per curried parameter.
struct PendingFn {
    labels: Vec<u32>,
    syms: Vec<String>,
    captured_names: Vec<String>,
    params: Vec<Pattern>,
    body: Expr,
}

type CResult = Result<(), String>;

fn fail<T>(msg: &str) -> (r: Result<T, String>)
    ensures
        r matches Err(m) && m@ == msg@,
{
    Err(String::from_str(msg))
}

fn clone_scope(s: &Vec<(String, u32)>) -> (r: Vec<(String, u32)>)
    ensures
        r@ == s@,
{
    let mut out: Vec<(String, u32)> = Vec::new();
    let mut i: usize = 0;
    while i < s.len()
        invariant
            i <= s.len(),
            out@ == s@.subrange(0, i as int),
        decreases s.len() - i,
    {
        out.push((s[i].0.clone(), s[i].1));
        proof {
            assert(out@ =~= s@.subrange(0, i + 1));
        }
        i = i + 1;
    }
    proof {
        assert(s@.subrange(0, s.len() as int) =~= s@);
    }
    out
}

fn clone_strings(s: &Vec<String>) -> (r: Vec<String>)
    ensures
        r@ == s@,
{
    let mut out: Vec<String> = Vec::new();
    let mut i: usize = 0;
    while i < s.len()
        invariant
            i <= s.len(),
            out@ == s@.subrange(0, i as int),
        decreases s.len() - i,
    {
        out.push(s[i].clone());
        proof {
            assert(out@ =~= s@.subrange(0, i + 1));
        }
        i = i + 1;
    }
    proof {
        assert(s@.subrange(0, s.len() as int) =~= s@);
    }
    out
}

/// Compiler state.
pub struct Codegen {
    buf: CodeBuf,
    /// constructor name -> (id, arity)
    ctors: Vec<(String, (u32, usize))>,
    ctor_names: Vec<String>,
    /// name -> global table index
    globals: Vec<(String, u32)>,
    n_globals: u32,
    data: Vec<u8>,
    data_syms: Vec<(String, u64)>,
    data_relocs: Vec<Reloc>,
    /// label id -> (symbol name, exported)
    label_syms: Vec<(u32, (String, bool))>,
    pending: Vec<PendingFn>,
    frame_patches: Vec<usize>,
    externs: Vec<String>,
    str_consts: Vec<(String, String)>,
    lam_counter: u32,
}

} // verus!

verus! {

/// The names of the builtins, in slot order.
pub open spec fn builtin_layout() -> Seq<Seq<char>> {
    seq!["print_int"@, "print_string"@, "int_to_string"@, "bool_to_string"@, "string_length"@,
        "str_concat"@, "read_file"@, "write_file"@, "exit"@, "chr"@, "ord"@, "string_get"@, "substring"@,
        "string_to_int"@, "error"@, "show"@, "argv"@, "system"@]
}

/// The names of the constructors that take arguments, in order.
pub open spec fn ctor_layout(ctors: Seq<(String, usize)>) -> Seq<Seq<char>>
    decreases ctors.len(),
{
    if ctors.len() == 0 {
        Seq::empty()
    } else {
        ctor_layout(ctors.drop_last()) + if ctors.last().1 > 0 {
            seq![ctors.last().0@]
        } else {
            Seq::empty()
        }
    }
}

proof fn lemma_ctor_layout_mono(ctors: Seq<(String, usize)>, k: int)
    requires
        0 <= k <= ctors.len(),
    ensures
        ctor_layout(ctors.subrange(0, k)).len() <= ctor_layout(ctors).len(),
    decreases ctors.len(),
{
    if k < ctors.len() {
        lemma_ctor_layout_mono(ctors.drop_last(), k);
        assert(ctors.drop_last().subrange(0, k) =~= ctors.subrange(0, k));
    } else {
        assert(ctors.subrange(0, k) =~= ctors);
    }
}

/// Giving the next slot to `name` extends the layout by `name`.
proof fn lemma_slots_extend(before: Seq<(String, u32)>, after: Seq<(String, u32)>, names: Seq<Seq<char>>, name: Seq<char>)
    requires
        slots_for(before, names),
        names.len() < u32::MAX,
        keys_unique(before) ==> keys_unique(after),
        binds(after, name, names.len() as u32),
        keys_unique(before) ==> forall|v: u32| binds(after, name, v) ==> v == names.len() as u32,
        forall|k: Seq<char>, v: u32| k != name ==> (binds(after, k, v) <==> binds(before, k, v)),
    ensures
        slots_for(after, names.push(name)),
{
    let ns = names.push(name);
    assert forall|i: int| 0 <= i < ns.len() && (forall|j: int| i < j < ns.len() ==> ns[j] != ns[i])
        implies #[trigger] binds(after, ns[i], i as u32) by {
        if i < names.len() {
            assert(ns[names.len() as int] == name);
            assert(ns[i] != name);
            assert forall|j: int| i < j < names.len() implies names[j] != names[i] by {
                assert(ns[j] == names[j]);
            }
            assert(binds(before, names[i], i as u32));
        }
    }
    assert forall|k: Seq<char>, v: u32| #[trigger] binds(after, k, v) implies 0 <= v < ns.len() && ns[v as int] == k by {
        if k == name {
            assert(v == names.len() as u32);
        } else {
            assert(binds(before, k, v));
        }
    }
}

/// The global slots given out in the order of `names`: each name is bound
/// to the slot of its last occurrence, and no other name is bound.
pub open spec fn slots_for(globals: Seq<(String, u32)>, names: Seq<Seq<char>>) -> bool {
    &&& keys_unique(globals)
    &&& forall|i: int| 0 <= i < names.len() && (forall|j: int| i < j < names.len() ==> names[j] != names[i])
        ==> #[trigger] binds(globals, names[i], i as u32)
    &&& forall|k: Seq<char>, v: u32| #[trigger] binds(globals, k, v) ==> 0 <= v < names.len() && names[v as int] == k
}

impl Codegen {
    /// The code buffer is well formed.
    pub closed spec fn wf(&self) -> bool {
        self.buf.wf()
    }

    /// The code emitted so far.
    pub closed spec fn code(&self) -> Seq<u8> {
        self.buf.bytes()
    }

    /// `other` has the constructor table, constructor names and global
    /// table of `self`.
    pub closed spec fn keeps_names(self, other: Codegen) -> bool {
        &&& other.ctors == self.ctors
        &&& other.globals == self.globals
        &&& other.ctor_names == self.ctor_names
    }

    /// `other` is `self` with the bytes `b` appended to its code, its labels
    /// and branch fixups unchanged.
    pub closed spec fn code_appended(self, other: Codegen, b: Seq<u8>) -> bool {
        &&& other.buf.wf()
        &&& other.buf.bytes() == self.buf.bytes() + b
        &&& other.buf.label_count() == self.buf.label_count()
        &&& forall|k: int| 0 <= k < self.buf.label_count() ==> other.buf.label(k) == self.buf.label(k)
        &&& other.buf.fixups() == self.buf.fixups()
    }

    /// The global table: name and slot.
    pub closed spec fn global_slots(&self) -> Seq<(String, u32)> {
        self.globals@
    }

    /// The constructor table: name, id and arity.
    pub closed spec fn ctor_ids(&self) -> Seq<(String, (u32, usize))> {
        self.ctors@
    }

    /// A compiler for a program whose constructors are `ctors` (name and
    /// arity), in id order: builtins take the first global slots, then the
    /// constructors that take arguments.
    pub fn new(ctors: &Vec<(String, usize)>) -> (r: Result<Codegen, String>)
        ensures
            r is Ok <==> ctors.len() <= 0xFFFF_FFFF && 18 + ctor_layout(ctors@).len() <= 0xFFFF_FFFF,
            r matches Ok(g) ==> {
                &&& g.wf()
                &&& slots_for(g.global_slots(), builtin_layout() + ctor_layout(ctors@))
                &&& g.ctor_ids().len() == ctors.len()
                &&& forall|i: int| 0 <= i < ctors.len() ==> #[trigger] g.ctor_ids()[i] == (ctors@[i].0, (
                    i as u32, ctors@[i].1))
            },
    {
        let mut table: Vec<(String, (u32, usize))> = Vec::new();
        let mut names: Vec<String> = Vec::new();
        let mut i: usize = 0;
        while i < ctors.len()
            invariant
                i <= ctors.len(),
                i <= 0xFFFF_FFFF,
                table.len() == i,
                forall|j: int| 0 <= j < i ==> #[trigger] table@[j] == (ctors@[j].0, (j as u32, ctors@[j].1)),
            decreases ctors.len() - i,
        {
            if i >= 0xFFFF_FFFF {
                return fail("too many constructors");
            }
            table.push((ctors[i].0.clone(), (i as u32, ctors[i].1)));
            names.push(ctors[i].0.clone());
            i = i + 1;
        }
        let mut g = Codegen {
            buf: CodeBuf::new(),
            ctors: table,
            ctor_names: names,
            globals: Vec::new(),
            n_globals: 0,
            data: Vec::new(),
            data_syms: Vec::new(),
            data_relocs: Vec::new(),
            label_syms: Vec::new(),
            pending: Vec::new(),
            frame_patches: Vec::new(),
            externs: Vec::new(),
            str_consts: Vec::new(),
            lam_counter: 0,
        };
        let bs = builtin_names();
        let ghost lay: Seq<Seq<char>> = builtin_layout();
        proof {
            reveal_strlit("print_int");
            assert forall|k: int| 0 <= k < bs.len() implies #[trigger] bs@[k]@ == lay[k] by {}
        }
        let mut b: usize = 0;
        while b < bs.len()
            invariant
                b <= bs.len(),
                bs.len() == 18,
                lay == builtin_layout(),
                forall|k: int| 0 <= k < bs.len() ==> #[trigger] bs@[k]@ == lay[k],
                g.wf(),
                g.n_globals == b,
                g.ctors@ == table@,
                slots_for(g.globals@, lay.subrange(0, b as int)),
            decreases bs.len() - b,
        {
            let ghost before = g.globals@;
            g.alloc_global(bs[b])?;
            proof {
                lemma_slots_extend(before, g.globals@, lay.subrange(0, b as int), lay[b as int]);
                assert(lay.subrange(0, b as int).push(lay[b as int]) =~= lay.subrange(0, b + 1));
            }
            b = b + 1;
        }
        proof {
            assert(lay.subrange(0, 18) =~= lay + ctor_layout(ctors@.subrange(0, 0)));
        }
        let mut c: usize = 0;
        while c < ctors.len()
            invariant
                c <= ctors.len(),
                lay == builtin_layout(),
                g.wf(),
                g.n_globals == 18 + ctor_layout(ctors@.subrange(0, c as int)).len(),
                g.ctors@ == table@,
                slots_for(g.globals@, lay + ctor_layout(ctors@.subrange(0, c as int))),
                18 + ctor_layout(ctors@).len() <= 0xFFFF_FFFF ==> 18 + ctor_layout(ctors@.subrange(0, c as int)).len() <= 0xFFFF_FFFF,
            decreases ctors.len() - c,
        {
            let ghost names_before = lay + ctor_layout(ctors@.subrange(0, c as int));
            proof {
                assert(ctors@.subrange(0, c + 1).drop_last() =~= ctors@.subrange(0, c as int));
            }
            proof {
                lemma_ctor_layout_mono(ctors@, c + 1);
            }
            if ctors[c].1 > 0 {
                let ghost before = g.globals@;
                g.alloc_global(ctors[c].0.as_str())?;
                proof {
                    lemma_slots_extend(before, g.globals@, names_before, ctors@[c as int].0@);
                    assert(names_before.push(ctors@[c as int].0@) =~= lay + ctor_layout(ctors@.subrange(0, c + 1)));
                }
            } else {
                proof {
                    assert(names_before =~= lay + ctor_layout(ctors@.subrange(0, c + 1)));
                }
            }
            c = c + 1;
        }
        proof {
            assert(ctors@.subrange(0, ctors.len() as int) =~= ctors@);
        }
        Ok(g)
    }

    fn global_index(&self, name: &str) -> (r: Option<u32>)
        ensures
            r == first_entry(self.globals@, name@),
    {
        let key = String::from_str(name);
        let mut i: usize = 0;
        proof {
            assert(self.globals@.subrange(0, self.globals.len() as int) =~= self.globals@);
        }
        while i < self.globals.len()
            invariant
                i <= self.globals.len(),
                key@ == name@,
                first_entry(self.globals@, name@) == first_entry(self.globals@.subrange(i as int, self.globals.len() as int), name@),
            decreases self.globals.len() - i,
        {
            proof {
                assert(self.globals@.subrange(i as int, self.globals.len() as int).drop_first() =~= self.globals@.subrange(i + 1, self.globals.len() as int));
            }
            if self.globals[i].0 == key {
                return Some(self.globals[i].1);
            }
            i = i + 1;
        }
        None
    }

    /// Gives `name` the next global slot (a later definition of a name
    /// takes over the name).
    fn alloc_global(&mut self, name: &str) -> (r: Result<u32, String>)
        ensures
            final(self).buf == old(self).buf,
            final(self).ctors == old(self).ctors,
            r is Ok <==> old(self).n_globals < u32::MAX,
            r is Err ==> final(self).globals == old(self).globals && final(self).n_globals == old(self).n_globals,
            r matches Ok(idx) ==> {
                &&& idx == old(self).n_globals
                &&& final(self).n_globals == idx + 1
                &&& keys_unique(old(self).globals@) ==> keys_unique(final(self).globals@)
                &&& binds(final(self).globals@, name@, idx)
                &&& keys_unique(old(self).globals@) ==> forall|v: u32| binds(final(self).globals@, name@, v) ==> v == idx
                &&& forall|k: Seq<char>, v: u32| k != name@ ==> (binds(final(self).globals@, k, v) <==> binds(
                    old(self).globals@, k, v))
            },
    {
        if self.n_globals == u32::MAX {
            return fail("too many globals");
        }
        let idx = self.n_globals;
        let ghost g0 = self.globals@;
        let ghost key = name@;
        match self.global_pos(name) {
            Some(k) => {
                let same = self.globals[k].0.clone();
                self.globals.set(k, (same, idx));
                proof {
                    let g1 = self.globals@;
                    assert(g1[k as int].0@ == key && g1[k as int].1 == idx);
                    assert forall|a: int| 0 <= a < g1.len() implies #[trigger] g1[a].0@ == g0[a].0@ by {}
                    assert forall|kk: Seq<char>, v: u32| kk != key implies (binds(g1, kk, v) <==> binds(g0, kk, v)) by {
                        if binds(g1, kk, v) {
                            let j = choose|j: int| #![trigger g1[j]] 0 <= j < g1.len() && g1[j].0@ == kk && g1[j].1 == v;
                            assert(g0[j] == g1[j]);
                        }
                        if binds(g0, kk, v) {
                            let j = choose|j: int| #![trigger g0[j]] 0 <= j < g0.len() && g0[j].0@ == kk && g0[j].1 == v;
                            assert(g0[j] == g1[j]);
                        }
                    }
                    if keys_unique(g0) {
                        assert forall|v: u32| binds(g1, key, v) implies v == idx by {
                            let j = choose|j: int| #![trigger g1[j]] 0 <= j < g1.len() && g1[j].0@ == key && g1[j].1 == v;
                            if j != k {
                                assert(g0[j].0@ == g0[k as int].0@);
                            }
                        }
                    }
                }
            }
            None => {
                self.globals.push((String::from_str(name), idx));
                proof {
                    let g1 = self.globals@;
                    let n = g0.len() as int;
                    assert(g1[n].0@ == key && g1[n].1 == idx);
                    assert forall|kk: Seq<char>, v: u32| kk != key implies (binds(g1, kk, v) <==> binds(g0, kk, v)) by {
                        if binds(g1, kk, v) {
                            let j = choose|j: int| #![trigger g1[j]] 0 <= j < g1.len() && g1[j].0@ == kk && g1[j].1 == v;
                            assert(g0[j] == g1[j]);
                        }
                        if binds(g0, kk, v) {
                            let j = choose|j: int| #![trigger g0[j]] 0 <= j < g0.len() && g0[j].0@ == kk && g0[j].1 == v;
                            assert(g0[j] == g1[j]);
                        }
                    }
                    assert forall|v: u32| binds(g1, key, v) implies v == idx by {
                        let j = choose|j: int| #![trigger g1[j]] 0 <= j < g1.len() && g1[j].0@ == key && g1[j].1 == v;
                        if j < n {
                            assert(g0[j].0@ != key);
                        }
                    }
                    if keys_unique(g0) {
                        assert forall|a: int, b: int| #![trigger g1[a], g1[b]] 0 <= a < b < g1.len()
                            implies g1[a].0@ != g1[b].0@ by {
                            if b == n {
                                assert(g0[a].0@ != key);
                            } else {
                                assert(g0[a] == g1[a] && g0[b] == g1[b]);
                            }
                        }
                    }
                }
            }
        }
        self.n_globals = idx + 1;
        Ok(idx)
    }

    /// Index of the entry for `name` in the global table.
    fn global_pos(&self, name: &str) -> (r: Option<usize>)
        ensures
            r matches Some(k) ==> k < self.globals.len() && self.globals@[k as int].0@ == name@,
            r is None ==> forall|j: int| 0 <= j < self.globals.len() ==> #[trigger] self.globals@[j].0@ != name@,
    {
        let key = String::from_str(name);
        let mut i: usize = 0;
        while i < self.globals.len()
            invariant
                i <= self.globals.len(),
                key@ == name@,
                forall|j: int| 0 <= j < i ==> #[trigger] self.globals@[j].0@ != name@,
            decreases self.globals.len() - i,
        {
            if self.globals[i].0 == key {
                return Some(i);
            }
            i = i + 1;
        }
        None
    }

    fn use_extern(&mut self, name: &str)
        ensures
            old(self).keeps_names(*final(self)),
            final(self).buf == old(self).buf,
            final(self).frame_patches == old(self).frame_patches,
            final(self).label_syms == old(self).label_syms,
            (exists|j: int| 0 <= j < old(self).externs@.len() && #[trigger] old(self).externs@[j]@ == name@)
                ==> final(self).externs@ == old(self).externs@,
            (forall|j: int| 0 <= j < old(self).externs@.len() ==> #[trigger] old(self).externs@[j]@ != name@)
                ==> (final(self).externs@.drop_last() == old(self).externs@ && final(self).externs@.last()@ == name@),
            exists|j: int| 0 <= j < final(self).externs@.len() && #[trigger] final(self).externs@[j]@ == name@,
    {
        let key = String::from_str(name);
        let mut i: usize = 0;
        while i < self.externs.len()
            invariant
                i <= self.externs.len(),
                key@ == name@,
                self.externs@ == old(self).externs@,
                self.buf == old(self).buf,
                self.frame_patches == old(self).frame_patches,
                self.label_syms == old(self).label_syms,
                old(self).keeps_names(*self),
                forall|j: int| 0 <= j < i ==> #[trigger] self.externs@[j]@ != name@,
            decreases self.externs.len() - i,
        {
            if self.externs[i] == key {
                return;
            }
            i = i + 1;
        }
        self.externs.push(key);
        proof {
            assert(self.externs@.drop_last() =~= old(self).externs@);
            assert(self.externs@[self.externs@.len() - 1]@ == name@);
        }
    }

    fn fresh_label(&mut self) -> (r: Result<u32, String>)
        requires
            old(self).wf(),
        ensures
            old(self).buf.grows(final(self).buf),
            old(self).keeps_names(*final(self)),
            final(self).wf(),
            r is Ok <==> old(self).buf.label_count() < 0xFFFF_FFFF,
            r is Err ==> *final(self) == *old(self),
            r matches Ok(l) ==> {
                &&& l == old(self).buf.label_count()
                &&& final(self).buf.label_count() == old(self).buf.label_count() + 1
                &&& final(self).buf.label(l as int) is None
                &&& forall|k: int| 0 <= k < old(self).buf.label_count() ==> final(self).buf.label(k) == old(self).buf.label(k)
                &&& final(self).buf.bytes() == old(self).buf.bytes()
                &&& final(self).buf.fixups() == old(self).buf.fixups()
                &&& final(self).label_syms == old(self).label_syms
                &&& final(self).frame_patches == old(self).frame_patches
            },
    {
        if self.buf.num_labels() >= 0xFFFF_FFFF {
            return fail("too many labels");
        }
        Ok(self.buf.new_label())
    }

    /// Places label `l` here; placing a label twice is an error.
    fn place(&mut self, l: u32) -> (r: CResult)
        requires
            old(self).wf(),
        ensures
            old(self).buf.grows(final(self).buf),
            old(self).keeps_names(*final(self)),
            final(self).wf(),
            r is Ok <==> (l as int) < old(self).buf.label_count() && old(self).buf.label(l as int) is None,
            r is Err ==> *final(self) == *old(self),
            r is Ok ==> {
                &&& final(self).label_syms == old(self).label_syms
                &&& final(self).frame_patches == old(self).frame_patches
                &&& final(self).buf.label(l as int) == Some(old(self).buf.bytes().len() as usize)
                &&& final(self).buf.label_count() == old(self).buf.label_count()
                &&& forall|k: int| 0 <= k < old(self).buf.label_count() && k != l ==> final(self).buf.label(k) == old(self).buf.label(k)
                &&& final(self).buf.bytes() == old(self).buf.bytes()
                &&& final(self).buf.fixups() == old(self).buf.fixups()
            },
    {
        if l as usize >= self.buf.num_labels() || self.buf.is_placed(l) {
            return fail("label rebound");
        }
        self.buf.bind_label(l);
        Ok(())
    }

    fn new_fn_label(&mut self, sym: String, exported: bool) -> (r: Result<u32, String>)
        requires
            old(self).wf(),
        ensures
            old(self).buf.grows(final(self).buf),
            old(self).keeps_names(*final(self)),
            final(self).wf(),
            r is Ok <==> old(self).buf.label_count() < 0xFFFF_FFFF,
            r matches Ok(l) ==> {
                &&& l == old(self).buf.label_count()
                &&& final(self).buf.label_count() == old(self).buf.label_count() + 1
                &&& final(self).buf.label(l as int) is None
                &&& final(self).buf.bytes() == old(self).buf.bytes()
                &&& final(self).label_syms@ == old(self).label_syms@.push((l, (sym, exported)))
            },
    {
        let l = self.fresh_label()?;
        self.label_syms.push((l, (sym, exported)));
        Ok(l)
    }

    // ---------------- runtime calls ----------------

    fn call_rt(&mut self, unmangled: &str)
        requires
            old(self).wf(),
        ensures
            old(self).buf.grows(final(self).buf),
            old(self).keeps_names(*final(self)),
            final(self).wf(),
            final(self).frame_patches == old(self).frame_patches,
            final(self).label_syms == old(self).label_syms,
            old(self).code_appended(*final(self), rt_call_bytes()),
            final(self).buf.got_keys()[final(self).buf.adrp_refs().last().slot as int] matches LitTarget::Extern(n)
                && n@ == "_"@ + unmangled@,
            exists|j: int| 0 <= j < final(self).externs@.len() && #[trigger] final(self).externs@[j]@ == "_"@ + unmangled@,
    {
        let sym = concat("_", unmangled);
        self.use_extern(sym.as_str());
        let ghost j = choose|j: int| 0 <= j < self.externs@.len() && #[trigger] self.externs@[j]@ == sym@;
        self.buf.ldr_lit_extern(R9, sym.as_str());
        let ghost mid = self.buf;
        self.buf.blr(R9);
        proof {
            self.buf.lemma_same_tables(mid);
            assert(self.buf.bytes() =~= old(self).buf.bytes() + rt_call_bytes());
            assert(sym@ == "_"@ + unmangled@);
            assert(self.externs@[j]@ == "_"@ + unmangled@);
        }
    }

    /// Loads global slot `g` into x0.
    fn emit_gget(&mut self, g: u32)
        requires
            old(self).wf(),
        ensures
            old(self).buf.grows(final(self).buf),
            old(self).keeps_names(*final(self)),
            final(self).wf(),
            final(self).frame_patches == old(self).frame_patches,
            final(self).label_syms == old(self).label_syms,
            old(self).code_appended(*final(self), words_bytes(load_const_words(X0, g as u64)) + rt_call_bytes()),
            final(self).buf.got_keys()[final(self).buf.adrp_refs().last().slot as int] matches LitTarget::Extern(n)
                && n@ == "_dc_gget"@,
    {
        self.buf.load_const_u64(X0, g as u64);
        proof {
            self.buf.lemma_same_tables(old(self).buf);
            reveal_strlit("_");
            reveal_strlit("dc_gget");
            reveal_strlit("_dc_gget");
        }
        self.call_rt("dc_gget");
        proof {
            assert(self.buf.bytes() =~= old(self).buf.bytes() + (words_bytes(load_const_words(X0, g as u64)) + rt_call_bytes()));
            assert("_"@ + "dc_gget"@ =~= "_dc_gget"@);
        }
    }

    /// Stores x0 into global slot `g`.
    fn fill_global(&mut self, g: u32)
        requires
            old(self).wf(),
        ensures
            old(self).buf.grows(final(self).buf),
            final(self).frame_patches == old(self).frame_patches,
            final(self).label_syms == old(self).label_syms,
            old(self).keeps_names(*final(self)),
            final(self).wf(),
            old(self).code_appended(*final(self), le_bytes(orr_word(X1, XZR, X0)) + words_bytes(load_const_words(X0, g as u64))
                + rt_call_bytes()),
            final(self).buf.got_keys()[final(self).buf.adrp_refs().last().slot as int] matches LitTarget::Extern(n)
                && n@ == "_dc_gset"@,
    {
        self.buf.mov(X1, X0);
        let ghost m1 = self.buf;
        self.buf.load_const_u64(X0, g as u64);
        proof {
            m1.lemma_same_tables(old(self).buf);
            self.buf.lemma_same_tables(m1);
            reveal_strlit("_");
            reveal_strlit("dc_gset");
            reveal_strlit("_dc_gset");
        }
        self.call_rt("dc_gset");
        proof {
            assert(self.buf.bytes() =~= old(self).buf.bytes() + (le_bytes(orr_word(X1, XZR, X0)) + words_bytes(
                load_const_words(X0, g as u64),
            ) + rt_call_bytes()));
            assert("_"@ + "dc_gset"@ =~= "_dc_gset"@);
        }
    }

    fn load_unit(&mut self, reg: u32)
        requires
            old(self).wf(),
        ensures
            old(self).buf.grows(final(self).buf),
            old(self).keeps_names(*final(self)),
            final(self).wf(),
            final(self).frame_patches == old(self).frame_patches,
            final(self).label_syms == old(self).label_syms,
            old(self).code_appended(*final(self), le_bytes(adrp_word(reg)) + le_bytes(ldr_word(reg, reg, 0))),
            final(self).buf.got_keys()[final(self).buf.adrp_refs().last().slot as int] matches LitTarget::Extern(n)
                && n@ == "_dc_unit_block"@,
    {
        self.use_extern("_dc_unit_block");
        self.buf.ldr_lit_extern(reg, "_dc_unit_block");
        proof {
            assert(self.buf.bytes() =~= old(self).buf.bytes() + (le_bytes(adrp_word(reg)) + le_bytes(ldr_word(reg, reg, 0))));
        }
    }
}

} // verus!

verus! {

/// The value of the first entry of `s` whose name is `n`.
pub open spec fn first_entry<V>(s: Seq<(String, V)>, n: Seq<char>) -> Option<V>
    decreases s.len(),
{
    if s.len() == 0 {
        None
    } else if s[0].0@ == n {
        Some(s[0].1)
    } else {
        first_entry(s.drop_first(), n)
    }
}

/// The value of the last entry of `s` whose name is `n`.
pub open spec fn last_entry<V>(s: Seq<(String, V)>, n: Seq<char>) -> Option<V>
    decreases s.len(),
{
    if s.len() == 0 {
        None
    } else if s.last().0@ == n {
        Some(s.last().1)
    } else {
        last_entry(s.drop_last(), n)
    }
}

fn ctor_entry(ctors: &Vec<(String, (u32, usize))>, name: &str) -> (r: Option<(u32, usize)>)
    ensures
        r == first_entry(ctors@, name@),
{
    let key = String::from_str(name);
    let mut i: usize = 0;
    proof {
        assert(ctors@.subrange(0, ctors.len() as int) =~= ctors@);
    }
    while i < ctors.len()
        invariant
            i <= ctors.len(),
            key@ == name@,
            first_entry(ctors@, name@) == first_entry(ctors@.subrange(i as int, ctors.len() as int), name@),
        decreases ctors.len() - i,
    {
        proof {
            assert(ctors@.subrange(i as int, ctors.len() as int).drop_first() =~= ctors@.subrange(i + 1, ctors.len() as int));
        }
        if ctors[i].0 == key {
            return Some(ctors[i].1);
        }
        i = i + 1;
    }
    None
}

fn ctor_of(ctors: &Vec<(String, (u32, usize))>, name: &str) -> (r: Result<(u32, usize), String>)
    ensures
        r matches Ok(e) ==> first_entry(ctors@, name@) == Some(e),
        r matches Err(m) ==> first_entry(ctors@, name@) is None && m@ == "codegen: unknown constructor "@ + name@,
{
    match ctor_entry(ctors, name) {
        Some(e) => Ok(e),
        None => Err(concat("codegen: unknown constructor ", name)),
    }
}

/// Pads `data` with zeros to a multiple of 8 bytes.
#[verifier::spinoff_prover]
fn pad8(data: &mut Vec<u8>)
    ensures
        final(data)@.len() % 8 == 0,
        final(data)@.len() < old(data)@.len() + 8,
        final(data)@.len() >= old(data)@.len(),
        final(data)@.subrange(0, old(data)@.len() as int) == old(data)@,
{
    let r = data.len() % 8;
    if r != 0 {
        push_zeros(data, 8 - r);
        proof {
            assert(data@.subrange(0, old(data)@.len() as int) =~= old(data)@);
        }
    } else {
        proof {
            assert(data@.subrange(0, old(data)@.len() as int) =~= old(data)@);
        }
    }
}

fn slot_of(i: usize) -> (r: Result<u32, String>)
    ensures
        r matches Ok(s) ==> s == i && 8 * s < 32760,
        r is Ok <==> i < 4095,
{
    if i >= 4095 {
        return fail("frame too deep");
    }
    Ok(i as u32)
}

/// The byte offset `base + 8 * i` of a word of a heap block, if it can be
/// addressed by `ldr` / `str`.
fn word_off(base: i64, i: usize) -> (r: Result<i64, String>)
    requires
        0 <= base < 32760,
        base % 8 == 0,
    ensures
        r matches Ok(o) ==> o == base + 8 * i && o % 8 == 0 && 0 <= o < 32760,
        r is Ok <==> i < 4095 && base + 8 * i < 32760,
{
    if i >= 4095 {
        return fail("heap block too large");
    }
    let o = base + 8 * (i as i64);
    if o >= 32760 {
        return fail("heap block too large");
    }
    Ok(o)
}

impl Codegen {
    // ---------------- static data ----------------

    /// The data symbol of the string constant `s`, laid out once as
    /// `[header][byte length][bytes, zero padded to a word]`.
    fn intern_str(&mut self, s: &str) -> (r: Result<String, String>)
        ensures
            old(self).buf.grows(final(self).buf),
            final(self).buf == old(self).buf,
            first_entry(old(self).str_consts@, s@) matches Some(sym0) ==> r == Ok::<String, String>(sym0)
                && *final(self) == *old(self),
            first_entry(old(self).str_consts@, s@) is None ==> {
                &&& r is Ok <==> encode_utf8(s@).len() < 0x1000_0000_0000
                &&& r matches Ok(sym) ==> {
                    &&& sym@ == "_str"@ + nat_digits(old(self).str_consts@.len())
                    &&& final(self).str_consts@.len() == old(self).str_consts@.len() + 1
                    &&& final(self).str_consts@.drop_last() == old(self).str_consts@
                    &&& final(self).str_consts@.last().0@ == s@ && final(self).str_consts@.last().1 == sym
                    &&& final(self).data_syms@ == old(self).data_syms@.push((sym, old(self).data@.len() as u64))
                    &&& final(self).data@.subrange(0, (old(self).data@.len() + 16 + encode_utf8(s@).len()) as int)
                        == old(self).data@ + le64(header_word(TAG_STRING, (2 + (encode_utf8(s@).len() + 7) / 8) as u64))
                        + le64(encode_utf8(s@).len() as u64) + encode_utf8(s@)
                    &&& final(self).data@.len() % 8 == 0
                }
            },
    {
        let key = String::from_str(s);
        let mut i: usize = 0;
        proof {
            assert(self.str_consts@.subrange(0, self.str_consts.len() as int) =~= self.str_consts@);
        }
        while i < self.str_consts.len()
            invariant
                old(self).buf.grows(self.buf),
                i <= self.str_consts.len(),
                key@ == s@,
                first_entry(self.str_consts@, s@) == first_entry(self.str_consts@.subrange(i as int, self.str_consts.len() as int), s@),
            decreases self.str_consts.len() - i,
        {
            proof {
                assert(self.str_consts@.subrange(i as int, self.str_consts.len() as int).drop_first() =~= self.str_consts@.subrange(i + 1, self.str_consts.len() as int));
            }
            if self.str_consts[i].0 == key {
                return Ok(self.str_consts[i].1.clone());
            }
            i = i + 1;
        }
        let sym = concat("_str", u64_to_string(self.str_consts.len() as u64).as_str());
        let ghost sc0 = self.str_consts@;
        self.str_consts.push((key, sym.clone()));
        proof {
            assert(self.str_consts@.drop_last() =~= sc0);
        }
        let bytes = crate::strings::utf8_of(s);
        let n = bytes.len();
        if n as u64 >= 0x1000_0000_0000u64 {
            return fail("string constant too long");
        }
        let words = 2 + (n as u64 + 7) / 8;
        let off = self.data.len() as u64;
        let ghost d0 = self.data@;
        push_le64(&mut self.data, hdr(TAG_STRING, words));
        push_le64(&mut self.data, n as u64);
        crate::strings::append_bytes(&mut self.data, &bytes);
        let ghost d1 = self.data@;
        pad8(&mut self.data);
        proof {
            assert(d1 =~= d0 + le64(header_word(TAG_STRING, words)) + le64(n as u64) + bytes@);
            assert(self.data@.subrange(0, d0.len() + 16 + n) =~= d1);
        }
        self.data_syms.push((sym.clone(), off));
        Ok(sym)
    }

    /// The data symbol of the value of a constructor without arguments.
    fn intern_nullary_ctor(&mut self, name: &str) -> (r: Result<String, String>)
        ensures
            old(self).buf.grows(final(self).buf),
            final(self).buf == old(self).buf,
            r matches Ok(sym) ==> sym@ == "_ctorinst_"@ + name@,
            (exists|j: int| 0 <= j < old(self).data_syms@.len() && #[trigger] old(self).data_syms@[j].0@ == "_ctorinst_"@
                + name@) ==> r is Ok && *final(self) == *old(self),
            (forall|j: int| 0 <= j < old(self).data_syms@.len() ==> #[trigger] old(self).data_syms@[j].0@ != "_ctorinst_"@
                + name@) ==> {
                &&& r is Ok <==> first_entry(old(self).ctors@, name@) is Some
                &&& r matches Ok(sym) ==> {
                    &&& final(self).data_syms@ == old(self).data_syms@.push((sym, old(self).data@.len() as u64))
                    &&& final(self).data@ == old(self).data@ + le64(header_word(TAG_ADT, 2))
                        + le64(first_entry(old(self).ctors@, name@).unwrap().0 as u64)
                }
            },
    {
        let probe = concat("_ctorinst_", name);
        let mut i: usize = 0;
        while i < self.data_syms.len()
            invariant
                old(self).buf.grows(self.buf),
                i <= self.data_syms.len(),
                probe@ == "_ctorinst_"@ + name@,
                *self == *old(self),
                forall|j: int| 0 <= j < i ==> #[trigger] self.data_syms@[j].0@ != probe@,
            decreases self.data_syms.len() - i,
        {
            if self.data_syms[i].0 == probe {
                return Ok(probe);
            }
            i = i + 1;
        }
        let (id, _) = ctor_of(&self.ctors, name)?;
        let off = self.data.len() as u64;
        push_le64(&mut self.data, hdr(TAG_ADT, 2));
        push_le64(&mut self.data, id as u64);
        self.data_syms.push((probe.clone(), off));
        Ok(probe)
    }

    /// The table of constructor names the runtime's `show` indexes:
    /// one pointer per constructor, then the NUL-terminated names.
    fn emit_ctor_names_table(&mut self) -> (r: CResult)
        ensures
            final(self).buf == old(self).buf,
            r is Ok <==> old(self).ctor_names@.len() == 0 || (old(self).ctor_names@.len() <= 0x1000_0000_0000
                && old(self).data@.len() < 0x1000_0000_0000_0000),
            r is Ok ==> {
                let off = old(self).data@.len();
                let count = old(self).ctor_names@.len();
                &&& final(self).data@.len() >= off + 8 * count
                &&& final(self).data@.subrange(0, off as int) == old(self).data@
                &&& forall|b: int| off <= b < off + 8 * count ==> final(self).data@[b] == 0
                &&& final(self).data_relocs@.len() == old(self).data_relocs@.len() + count
                &&& final(self).data_relocs@.subrange(0, old(self).data_relocs@.len() as int) == old(self).data_relocs@
                &&& forall|i: int| 0 <= i < count ==> (#[trigger] final(self).data_relocs@[old(self).data_relocs@.len() + i]).offset
                    == off + 8 * i && final(self).data_relocs@[old(self).data_relocs@.len() + i].sym_name@ == "_nm"@
                    + nat_digits(i as nat)
                &&& final(self).data_syms@.last().0@ == "_dc_ctor_names"@
                &&& final(self).data_syms@.last().1 == off
            },
    {
        let off = self.data.len() as u64;
        let count = self.ctor_names.len();
        let ghost d0 = self.data@;
        let ghost r0 = self.data_relocs@;
        let mut k: usize = 0;
        while k < count
            invariant
                k <= count,
                count == self.ctor_names.len(),
                self.buf == old(self).buf,
                self.ctor_names == old(self).ctor_names,
                self.data_relocs == old(self).data_relocs,
                d0 == old(self).data@,
                off == d0.len(),
                self.data@.len() == d0.len() + 8 * k,
                self.data@.subrange(0, d0.len() as int) == d0,
                forall|b: int| d0.len() <= b < d0.len() + 8 * k ==> self.data@[b] == 0,
            decreases count - k,
        {
            let ghost before = self.data@;
            push_zeros(&mut self.data, 8);
            proof {
                assert(self.data@.subrange(0, d0.len() as int) =~= before.subrange(0, d0.len() as int));
            }
            k = k + 1;
        }
        let mut i: usize = 0;
        while i < self.ctor_names.len()
            invariant
                i <= self.ctor_names.len(),
                count == self.ctor_names.len(),
                self.buf == old(self).buf,
                self.ctor_names == old(self).ctor_names,
                d0 == old(self).data@,
                r0 == old(self).data_relocs@,
                off == d0.len(),
                self.data@.len() >= d0.len() + 8 * count,
                self.data@.subrange(0, d0.len() as int) == d0,
                forall|b: int| d0.len() <= b < d0.len() + 8 * count ==> self.data@[b] == 0,
                i > 0 ==> off < 0x1000_0000_0000_0000 && i <= 0x1000_0000_0000,
                self.data_relocs@.len() == r0.len() + i,
                self.data_relocs@.subrange(0, r0.len() as int) == r0,
                forall|j: int| 0 <= j < i ==> (#[trigger] self.data_relocs@[r0.len() + j]).offset == off + 8 * j
                    && self.data_relocs@[r0.len() + j].sym_name@ == "_nm"@ + nat_digits(j as nat),
            decreases self.ctor_names.len() - i,
        {
            let nm_sym = concat("_nm", u64_to_string(i as u64).as_str());
            let noff = self.data.len() as u64;
            let ghost e0 = self.data@;
            let bytes = crate::strings::utf8_of(self.ctor_names[i].as_str());
            crate::strings::append_bytes(&mut self.data, &bytes);
            self.data.push(0u8);
            let ghost e1 = self.data@;
            pad8(&mut self.data);
            proof {
                assert(e1.subrange(0, e0.len() as int) =~= e0);
                assert(self.data@.subrange(0, e1.len() as int) == e1);
                assert forall|b: int| 0 <= b < e0.len() implies self.data@[b] == e0[b] by {
                    assert(self.data@.subrange(0, e1.len() as int)[b] == self.data@[b]);
                    assert(e1[b] == e0[b]);
                }
                assert(self.data@.subrange(0, d0.len() as int) =~= d0);
                assert forall|b: int| d0.len() <= b < d0.len() + 8 * count implies self.data@[b] == 0 by {
                    assert(self.data@[b] == e0[b]);
                }
            }
            self.data_syms.push((nm_sym.clone(), noff));
            if i as u64 >= 0x1000_0000_0000 || off >= 0x1000_0000_0000_0000 {
                return fail("constructor table too large");
            }
            let ghost rl = self.data_relocs@;
            self.data_relocs.push(Reloc { offset: off + 8 * (i as u64), sym_name: nm_sym, kind: RelocKind::Unsigned });
            proof {
                assert(self.data_relocs@.subrange(0, r0.len() as int) =~= rl.subrange(0, r0.len() as int));
                assert forall|j: int| 0 <= j < i + 1 implies (#[trigger] self.data_relocs@[r0.len() + j]).offset == off + 8 * j
                    && self.data_relocs@[r0.len() + j].sym_name@ == "_nm"@ + nat_digits(j as nat) by {
                    if j < i {
                        assert(self.data_relocs@[r0.len() + j] == rl[r0.len() + j]);
                    }
                }
            }
            i = i + 1;
        }
        self.data_syms.push((String::from_str("_dc_ctor_names"), off));
        Ok(())
    }

    // ---------------- frames ----------------

    /// Prologue: saves fp/lr, reserves a frame whose size is patched in by
    /// the epilogue (`movz x9, #size; sub sp, sp, x9`), zeroes it, and
    /// copies the `captured` environment words of the closure in x0 into
    /// the first slots.
    fn fn_prologue(&mut self, captured: usize) -> (r: CResult)
        requires
            old(self).wf(),
        ensures
            old(self).keeps_names(*final(self)),
            final(self).wf(),
            r is Ok <==> old(self).buf.label_count() + 2 <= 0xFFFF_FFFF && captured <= 4092,
            r is Ok ==> {
                &&& final(self).frame_patches@ == old(self).frame_patches@.push(usize_at(whole(old(self).buf.bytes().len()) + 8))
                &&& final(self).buf.bytes().len() >= old(self).buf.bytes().len() + 12
                &&& final(self).buf.bytes().subrange(0, whole(old(self).buf.bytes().len()) + 8) == old(self).buf.bytes()
                    + le_bytes(stp_fp_lr_word()) + le_bytes(add_imm_word(R29_FP, RSP, 0))
                &&& final(self).buf.label_count() == old(self).buf.label_count() + 2
                &&& forall|k: int| 0 <= k < old(self).buf.label_count() ==> final(self).buf.label(k) == old(self).buf.label(k)
                &&& final(self).label_syms == old(self).label_syms
            },
    {
        let ghost b0 = self.buf;
        self.buf.stp_fp_lr();
        let ghost b1 = self.buf;
        self.buf.mov_sp_fp();
        let ghost b2 = self.buf;
        let patch_pos = self.buf.code_len();
        self.buf.load_const_u64(R9, 0);
        let ghost b3 = self.buf;
        self.buf.sub_sp_reg();
        proof {
            b1.lemma_same_tables(b0);
            b2.lemma_same_tables(b1);
            b3.lemma_same_tables(b2);
            self.buf.lemma_same_tables(b3);
            reveal_with_fuel(words_bytes, 2);
            assert(load_const_words(R9, 0) == seq![movz_word(R9, 0u16, 0)]);
            assert(self.buf.bytes().subrange(0, whole(b0.bytes().len()) + 8) =~= b0.bytes() + le_bytes(stp_fp_lr_word())
                + le_bytes(add_imm_word(R29_FP, RSP, 0)));
        }
        self.frame_patches.push(patch_pos);
        // zero the reserved frame: x10 = cursor, x11 = end
        let zloop = self.fresh_label()?;
        let zdone = self.fresh_label()?;
        let ghost c0 = self.buf;
        self.buf.add_imm(R10, RSP, 0);
        let ghost c1 = self.buf;
        self.buf.add_reg(R11, R10, R9, 0);
        proof {
            c1.lemma_same_tables(c0);
            self.buf.lemma_same_tables(c1);
        }
        self.place(zloop)?;
        let ghost c2 = self.buf;
        self.buf.cmp_reg(R10, R11);
        proof {
            self.buf.lemma_same_tables(c2);
        }
        self.buf.b_cond(Cond::Hs, zdone);
        let ghost c3 = self.buf;
        self.buf.str_xzr_post8(R10);
        proof {
            self.buf.lemma_same_tables(c3);
        }
        self.buf.b(zloop);
        self.place(zdone)?;
        proof {
            assert(self.buf.bytes().subrange(0, whole(b0.bytes().len()) + 8) =~= b0.bytes() + le_bytes(stp_fp_lr_word())
                + le_bytes(add_imm_word(R29_FP, RSP, 0)));
        }
        // closure layout: [hdr@0][code@8][env_size@16][env words @24..]
        let ghost d0 = self.buf;
        let mut i: usize = 0;
        while i < captured
            invariant
                self.wf(),
                i <= captured,
                captured > 4092 ==> i <= 4092,
                self.frame_patches@ == old(self).frame_patches@.push(usize_at(whole(b0.bytes().len()) + 8)),
                self.label_syms == old(self).label_syms,
                old(self).keeps_names(*self),
                self.buf.label_count() == d0.label_count(),
                forall|k: int| 0 <= k < d0.label_count() ==> self.buf.label(k) == d0.label(k),
                self.buf.bytes().len() >= d0.bytes().len(),
                self.buf.bytes().subrange(0, whole(d0.bytes().len())) == d0.bytes(),
            decreases captured - i,
        {
            let ghost e0 = self.buf;
            let off = word_off(24, i)?;
            let s = slot_of(i)?;
            self.buf.ldr_off(R9, X0, off);
            let ghost e1 = self.buf;
            self.buf.str_slot(R9, s);
            proof {
                e1.lemma_same_tables(e0);
                self.buf.lemma_same_tables(e1);
                assert(self.buf.bytes().subrange(0, whole(d0.bytes().len())) =~= e0.bytes().subrange(0, whole(d0.bytes().len())));
            }
            i = i + 1;
        }
        proof {
            assert(self.buf.bytes().subrange(0, whole(b0.bytes().len()) + 8) =~= d0.bytes().subrange(0, whole(b0.bytes().len()) + 8));
        }
        Ok(())
    }

    /// Epilogue: patches the frame size for `max_slots` slots into the
    /// prologue, releases the frame and returns.
    fn fn_epilogue(&mut self, max_slots: u32) -> (r: CResult)
        requires
            old(self).wf(),
        ensures
            old(self).keeps_names(*final(self)),
            final(self).wf(),
            r is Ok <==> frame_bytes(max_slots) <= 0xFFF0 && old(self).frame_patches@.len() > 0
                && old(self).frame_patches@.last() + 4 <= old(self).buf.bytes().len(),
            r is Ok ==> {
                let pos = old(self).frame_patches@.last() as int;
                let code = old(self).buf.bytes();
                &&& final(self).frame_patches@ == old(self).frame_patches@.drop_last()
                &&& final(self).label_syms == old(self).label_syms
                &&& final(self).buf.bytes() == code.subrange(0, pos) + le_bytes(movz_word(R9, frame_bytes(max_slots) as u16, 0))
                    + code.subrange(pos + 4, code.len() as int) + words_bytes(load_const_words(R9, frame_bytes(max_slots)))
                    + le_bytes(add_sp_x9_word()) + le_bytes(ldp_fp_lr_word()) + le_bytes(ret_word())
                &&& final(self).buf.label_count() == old(self).buf.label_count()
                &&& forall|k: int| 0 <= k < old(self).buf.label_count() ==> final(self).buf.label(k) == old(self).buf.label(k)
                &&& final(self).buf.fixups() == old(self).buf.fixups()
            },
    {
        let bytes: u64 = ((max_slots as u64 + 8) * 8 + 15) & !15u64;
        if bytes > 0xFFF0 {
            return fail("function frame exceeds 64 KiB");
        }
        let pos = match self.frame_patches.pop() {
            Some(p) => p,
            None => {
                return fail("fn_epilogue without fn_prologue");
            }
        };
        if pos >= self.buf.code_len() || self.buf.code_len() - pos < 4 {
            return fail("fn_epilogue without fn_prologue");
        }
        let ghost b0 = self.buf;
        self.buf.patch_movz_imm16(pos, bytes as u16);
        let ghost b1 = self.buf;
        self.buf.load_const_u64(R9, bytes);
        let ghost b2 = self.buf;
        self.buf.add_sp_reg();
        let ghost b3 = self.buf;
        self.buf.ldp_fp_lr_ret();
        proof {
            b1.lemma_same_tables(b0);
            b2.lemma_same_tables(b1);
            b3.lemma_same_tables(b2);
            self.buf.lemma_same_tables(b3);
        }
        Ok(())
    }

    /// Allocates closure `{code = label, env = captured slots}` into x0.
    fn make_closure(&mut self, label: u32, captured: &Vec<(String, u32)>) -> (r: CResult)
        requires
            old(self).wf(),
        ensures
            old(self).buf.grows(final(self).buf),
            final(self).wf(),
            r is Ok <==> captured@.len() < 4092 && forall|j: int| 0 <= j < captured@.len() ==> 8 * (#[trigger] captured@[j]).1 < 32760,
            r is Ok ==> old(self).code_appended(*final(self), closure_bytes(captured@)),
    {
        let n = captured.len();
        if n >= 4092 {
            return fail("closure environment too large");
        }
        let words = 3 + n as u64;
        let ghost b0 = self.buf;
        self.buf.load_const_u64(X0, words * 8);
        let ghost b1 = self.buf;
        proof {
            b1.lemma_same_tables(b0);
        }
        self.call_rt("dacelo_alloc");
        let ghost b2 = self.buf;
        self.buf.load_const_u64(R9, hdr(TAG_CLOSURE, words));
        let ghost b3 = self.buf;
        self.buf.str_off(R9, X0, 0);
        let ghost b4 = self.buf;
        self.buf.ldr_lit_label(R9, label);
        let ghost b5 = self.buf;
        self.buf.str_off(R9, X0, 8);
        let ghost b6 = self.buf;
        self.buf.load_const_u64(R9, n as u64);
        let ghost b7 = self.buf;
        self.buf.str_off(R9, X0, 16);
        proof {
            b3.lemma_same_tables(b2);
            b4.lemma_same_tables(b3);
            b6.lemma_same_tables(b5);
            b7.lemma_same_tables(b6);
            self.buf.lemma_same_tables(b7);
            assert(self.buf.bytes() =~= b0.bytes() + closure_head_bytes(n as nat) + env_copy_bytes(captured@.subrange(0, 0), 0));
        }
        let mut j: usize = 0;
        while j < n
            invariant
                old(self).buf.grows(self.buf),
                n == captured.len(),
                n < 4092,
                self.wf(),
                j <= n,
                forall|k: int| 0 <= k < j ==> 8 * (#[trigger] captured@[k]).1 < 32760,
                self.buf.bytes() == b0.bytes() + closure_head_bytes(n as nat) + env_copy_bytes(captured@.subrange(0, j as int), 0),
                self.buf.label_count() == b0.label_count(),
                forall|k: int| 0 <= k < b0.label_count() ==> self.buf.label(k) == b0.label(k),
                self.buf.fixups() == b0.fixups(),
            decreases n - j,
        {
            let src = captured[j].1;
            if 8 * (src as u64) >= 32760 {
                return fail("frame too deep");
            }
            let ghost c0 = self.buf;
            self.buf.ldr_slot(R9, src);
            let off = word_off(24, j)?;
            let ghost c1 = self.buf;
            self.buf.str_off(R9, X0, off);
            proof {
                c1.lemma_same_tables(c0);
                self.buf.lemma_same_tables(c1);
                lemma_env_copy_push(captured@.subrange(0, j + 1), 0);
                assert(captured@.subrange(0, j + 1).drop_last() =~= captured@.subrange(0, j as int));
                assert(off / 8 == 3 + j);
            }
            j = j + 1;
        }
        proof {
            assert(captured@.subrange(0, n as int) =~= captured@);
            assert(self.buf.bytes() =~= old(self).buf.bytes() + closure_bytes(captured@));
        }
        Ok(())
    }

    // ---------------- variables / constructors ----------------

    /// Loads a variable into x0: a local slot, else a global; `false` if
    /// the name is bound nowhere.
    fn load_var(&mut self, f: &FnState, name: &str) -> (r: Result<bool, String>)
        requires
            old(self).wf(),
        ensures
            old(self).buf.grows(final(self).buf),
            final(self).wf(),
            match last_entry(f.scope@, name@) {
                Some(s) => (r is Ok <==> 8 * s < 32760) && (r is Ok ==> r == Ok::<bool, String>(true)
                    && old(self).code_appended(*final(self), le_bytes(ldr_word(X0, RSP, s)))) && (r is Err
                    ==> *final(self) == *old(self)),
                None => match first_entry(old(self).globals@, name@) {
                    Some(g) => r == Ok::<bool, String>(true) && old(self).code_appended(
                        *final(self),
                        words_bytes(load_const_words(X0, g as u64)) + rt_call_bytes(),
                    ),
                    None => r == Ok::<bool, String>(false) && *final(self) == *old(self),
                },
            },
    {
        match scope_find(f, name) {
            Some(s) => {
                if 8 * (s as u64) >= 32760 {
                    return fail("frame too deep");
                }
                self.buf.ldr_slot(X0, s);
                proof {
                    self.buf.lemma_same_tables(old(self).buf);
                }
                Ok(true)
            }
            None => match self.global_index(name) {
                Some(g) => {
                    self.emit_gget(g);
                    Ok(true)
                }
                None => Ok(false),
            },
        }
    }

    /// Loads a constructor value into x0: the static value of a constructor
    /// without arguments, else its curried constructor function.
    fn load_ctor_value(&mut self, name: &str) -> (r: CResult)
        requires
            old(self).wf(),
        ensures
            old(self).buf.grows(final(self).buf),
            final(self).wf(),
            match first_entry(old(self).ctors@, name@) {
                None => r is Err,
                Some(e) => if e.1 == 0 {
                    &&& r is Ok
                    &&& old(self).code_appended(*final(self), le_bytes(adrp_word(X0)) + le_bytes(ldr_word(X0, X0, 0)))
                    &&& final(self).buf.got_keys()[final(self).buf.adrp_refs().last().slot as int] matches LitTarget::Extern(n)
                        && n@ == "_ctorinst_"@ + name@
                } else {
                    match first_entry(old(self).globals@, name@) {
                        Some(g) => r is Ok && old(self).code_appended(
                            *final(self),
                            words_bytes(load_const_words(X0, g as u64)) + rt_call_bytes(),
                        ),
                        None => r is Err,
                    }
                },
            },
    {
        let (_, arity) = ctor_of(&self.ctors, name)?;
        if arity == 0 {
            let sym = self.intern_nullary_ctor(name)?;
            self.buf.ldr_lit_extern(X0, sym.as_str());
            proof {
                assert(self.buf.bytes() =~= old(self).buf.bytes() + (le_bytes(adrp_word(X0)) + le_bytes(ldr_word(X0, X0, 0))));
            }
        } else {
            match self.global_index(name) {
                Some(g) => self.emit_gget(g),
                None => {
                    return Err(concat("codegen: no global for constructor ", name));
                }
            }
        }
        Ok(())
    }

    /// Calls the closure in x0 with the argument in x1.
    fn emit_apply(&mut self)
        requires
            old(self).wf(),
        ensures
            old(self).buf.grows(final(self).buf),
            old(self).keeps_names(*final(self)),
            final(self).wf(),
            final(self).frame_patches == old(self).frame_patches,
            final(self).label_syms == old(self).label_syms,
            old(self).code_appended(*final(self), le_bytes(ldr_word(R9, X0, 1)) + le_bytes(blr_word(R9))),
    {
        self.buf.ldr_off(R9, X0, 8);
        let ghost m1 = self.buf;
        self.buf.blr(R9);
        proof {
            m1.lemma_same_tables(old(self).buf);
            self.buf.lemma_same_tables(m1);
            assert(self.buf.bytes() =~= old(self).buf.bytes() + (le_bytes(ldr_word(R9, X0, 1)) + le_bytes(blr_word(R9))));
        }
    }
}

/// Copying the captured slots `cs` into a new closure, the first into
/// environment word `first`: `ldr x9, [sp, #8 * slot]; str x9, [x0, #8 * (3 + k)]`
/// for each.
pub open spec fn env_copy_bytes(cs: Seq<(String, u32)>, first: int) -> Seq<u8>
    decreases cs.len(),
{
    if cs.len() == 0 {
        Seq::empty()
    } else {
        env_copy_bytes(cs.drop_last(), first) + le_bytes(ldr_word(R9, RSP, cs.last().1)) + le_bytes(
            str_word(R9, X0, (3 + first + cs.len() - 1) as u32),
        )
    }
}

/// The start of a closure allocation for `n` captured words: allocate
/// `3 + n` words, store the header, the code address and the count.
pub open spec fn closure_head_bytes(n: nat) -> Seq<u8> {
    words_bytes(load_const_words(X0, ((3 + n) * 8) as u64)) + rt_call_bytes() + words_bytes(
        load_const_words(R9, header_word(TAG_CLOSURE, (3 + n) as u64)),
    ) + le_bytes(str_word(R9, X0, 0)) + le_bytes(adrp_word(R9)) + le_bytes(ldr_word(R9, R9, 0)) + le_bytes(
        str_word(R9, X0, 1),
    ) + words_bytes(load_const_words(R9, n as u64)) + le_bytes(str_word(R9, X0, 2))
}

/// The code that allocates a closure of the captured slots `cs`.
pub open spec fn closure_bytes(cs: Seq<(String, u32)>) -> Seq<u8> {
    closure_head_bytes(cs.len()) + env_copy_bytes(cs, 0)
}

proof fn lemma_env_copy_push(cs: Seq<(String, u32)>, first: int)
    requires
        cs.len() > 0,
    ensures
        env_copy_bytes(cs, first) == env_copy_bytes(cs.drop_last(), first) + le_bytes(ldr_word(R9, RSP, cs.last().1))
            + le_bytes(str_word(R9, X0, (3 + first + cs.len() - 1) as u32)),
{
}

/// The frame size, in bytes, of a function with `max_slots` slots: eight
/// spare words more, rounded up to 16.
pub open spec fn frame_bytes(max_slots: u32) -> u64 {
    (((max_slots as u64 + 8) * 8 + 15) as u64) & !15u64
}

/// The code that loads global slot `g` into x0.
pub open spec fn global_load_code(g: u32) -> Seq<u8> {
    words_bytes(load_const_words(X0, g as u64)) + rt_call_bytes()
}

/// A call of a runtime function through `x9`: `adrp` + `ldr` of its
/// address from the GOT, then `blr x9`.
pub open spec fn rt_call_bytes() -> Seq<u8> {
    le_bytes(adrp_word(R9)) + le_bytes(ldr_word(R9, R9, 0)) + le_bytes(blr_word(R9))
}

/// An integer as an index.
spec fn usize_at(n: int) -> usize {
    n as usize
}

/// A natural number as an integer.
spec fn whole(n: nat) -> int {
    n as int
}

/// An index as a mathematical integer.
spec fn ix(i: usize) -> int {
    i as int
}

/// `n` widened to 64 bits.
fn wide(n: usize) -> (r: u64)
    ensures
        r == n,
{
    n as u64
}

/// `n` widened to 64 bits.
fn wide32(n: u32) -> (r: u64)
    ensures
        r == n,
{
    n as u64
}

fn spill_slot(f: &mut FnState) -> (r: Result<u32, String>)
    ensures
        r matches Ok(s) ==> s == old(f).nslots && final(f).nslots == old(f).nslots + 1 && s < 4094,
        final(f).scope == old(f).scope,
        r is Ok <==> old(f).nslots < 4094,
        r is Err ==> final(f).nslots == old(f).nslots,
{
    if f.nslots >= 4094 {
        return fail("frame too deep");
    }
    let s = f.nslots;
    f.nslots = s + 1;
    Ok(s)
}

/// The slot of the innermost local named `name`.
fn scope_find(f: &FnState, name: &str) -> (r: Option<u32>)
    ensures
        r == last_entry(f.scope@, name@),
{
    let key = String::from_str(name);
    let mut i: usize = f.scope.len();
    proof {
        assert(f.scope@.subrange(0, f.scope.len() as int) =~= f.scope@);
    }
    while i > 0
        invariant
            i <= f.scope.len(),
            key@ == name@,
            last_entry(f.scope@, name@) == last_entry(f.scope@.subrange(0, i as int), name@),
        decreases i,
    {
        proof {
            assert(f.scope@.subrange(0, i as int).drop_last() =~= f.scope@.subrange(0, i - 1));
        }
        i = i - 1;
        if f.scope[i].0 == key {
            return Some(f.scope[i].1);
        }
    }
    None
}

} // verus!

verus! {

impl Codegen {
    // ---------------- patterns ----------------

    /// Tests `pat` against the value in `reg`, jumping to `fail_l` on a
    /// mismatch and binding the pattern's variables to new slots.  Compound
    /// patterns work from a spill slot, since nested tests may call the
    /// runtime and clobber registers.
    fn match_pat(&mut self, f: &mut FnState, pat: &Pattern, reg: u32, fail_l: u32) -> (r: CResult)
        requires
            old(self).wf(),
        ensures
            old(self).buf.grows(final(self).buf),
            final(self).wf(),
            final(f).nslots >= old(f).nslots,
            *pat is Wildcard ==> r is Ok && *final(self) == *old(self) && *final(f) == *old(f),
            *pat matches Pattern::Var(n) ==> {
                &&& r is Ok <==> old(f).nslots < 4094
                &&& r is Ok ==> {
                    &&& final(f).scope@ == old(f).scope@.push((n, old(f).nslots))
                    &&& final(f).nslots == old(f).nslots + 1
                    &&& old(self).keeps_names(*final(self))
                    &&& old(self).code_appended(*final(self), le_bytes(str_word(reg, RSP, old(f).nslots)))
                }
            },
            *pat matches Pattern::PCtor(name, ps) ==> match first_entry(old(self).ctors@, name@) {
                None => (r matches Err(m) && m@ == "codegen: unknown constructor "@ + name@) && *final(self) == *old(self)
                    && *final(f) == *old(f),
                Some(entry) => {
                    &&& entry.1 == 0 && ps@.len() != 0 ==> (r matches Err(m) && m@ == "nullary ctor pattern with args"@)
                        && *final(self) == *old(self) && *final(f) == *old(f)
                    &&& entry.1 != 0 && ps@.len() != entry.1 ==> (r matches Err(m) && m@ == "ctor arity mismatch in pattern"@)
                        && *final(self) == *old(self) && *final(f) == *old(f)
                },
            },
        decreases pat,
    {
        let rr = R9;
        let t = R10;
        match pat {
            Pattern::Wildcard => Ok(()),
            Pattern::Var(n) => {
                let s = spill_slot(f)?;
                let ghost b0 = self.buf;
                self.buf.str_slot(reg, s);
                proof {
                    self.buf.lemma_same_tables(b0);
                }
                f.scope.push((n.clone(), s));
                Ok(())
            }
            Pattern::PLit(Lit::Int(k)) => {
                // the literal goes in x10 so that a nested test (reg == x9) works
                self.buf.load_const_i64(t, int_word_of(*k));
                self.buf.cmp_reg(reg, t);
                self.buf.b_cond(Cond::Ne, fail_l);
                Ok(())
            }
            Pattern::PLit(Lit::Bool(b)) => {
                self.buf.load_const_i64(t, if *b { 7 } else { 3 });
                self.buf.cmp_reg(reg, t);
                self.buf.b_cond(Cond::Ne, fail_l);
                Ok(())
            }
            Pattern::PLit(Lit::Str(s)) => {
                // compared by content: substrings are fresh objects
                let sym = self.intern_str(s.as_str())?;
                let sv = spill_slot(f)?;
                self.buf.str_slot(reg, sv);
                self.buf.ldr_lit_extern(X0, sym.as_str());
                self.buf.ldr_slot(X1, sv);
                self.call_rt("dc_val_eq");
                self.buf.cmp_imm(X0, 7);
                self.buf.b_cond(Cond::Ne, fail_l);
                Ok(())
            }
            Pattern::PLit(Lit::Unit) => {
                self.use_extern("_dc_unit_block");
                self.buf.ldr_lit_extern(t, "_dc_unit_block");
                self.buf.cmp_reg(reg, t);
                self.buf.b_cond(Cond::Ne, fail_l);
                Ok(())
            }
            Pattern::PTuple(ps) => {
                let sv = spill_slot(f)?;
                self.buf.str_slot(reg, sv);
                self.buf.ldr_slot(rr, sv);
                self.buf.ldr_off(rr, rr, 0);
                if ps.len() >= 4000 {
                    return fail("tuple pattern too large");
                }
                self.buf.load_const_u64(t, hdr(TAG_TUPLE, 1 + wide(ps.len())));
                self.buf.cmp_reg(rr, t);
                self.buf.b_cond(Cond::Ne, fail_l);
                let mut i: usize = 0;
                while i < ps.len()
                    invariant
                        old(self).buf.grows(self.buf),
                        f.nslots >= old(f).nslots,
                        self.wf(),
                        sv < 4094,
                        *pat matches Pattern::PTuple(q) && q@ == ps@,
                    decreases ps.len() - i,
                {
                    proof {
                        assert(decreases_to!(*pat => ps@[ix(i)]));
                    }
                    self.buf.ldr_slot(rr, sv);
                    let off = word_off(8, i)?;
                    self.buf.ldr_off(rr, rr, off);
                    self.match_pat(f, &ps[i], rr, fail_l)?;
                    i = i + 1;
                }
                Ok(())
            }
            Pattern::PCtor(name, ps) => {
                let (id, arity) = ctor_of(&self.ctors, name.as_str())?;
                if arity == 0 {
                    if ps.len() != 0 {
                        return fail("nullary ctor pattern with args");
                    }
                    let sym = self.intern_nullary_ctor(name.as_str())?;
                    // never clobber `reg`: from a parent pattern reg == x9
                    self.buf.ldr_lit_extern(t, sym.as_str());
                    self.buf.cmp_reg(reg, t);
                    self.buf.b_cond(Cond::Ne, fail_l);
                    Ok(())
                } else {
                    if ps.len() != arity {
                        return fail("ctor arity mismatch in pattern");
                    }
                    if arity >= 4000 {
                        return fail("constructor pattern too large");
                    }
                    let sv = spill_slot(f)?;
                    self.buf.str_slot(reg, sv);
                    self.buf.ldr_slot(rr, sv);
                    self.buf.ldr_off(rr, rr, 0);
                    self.buf.load_const_u64(t, hdr(TAG_ADT, 2 + wide(arity)));
                    self.buf.cmp_reg(rr, t);
                    self.buf.b_cond(Cond::Ne, fail_l);
                    self.buf.ldr_slot(rr, sv);
                    self.buf.ldr_off(rr, rr, 8);
                    self.buf.load_const_u64(t, wide32(id));
                    self.buf.cmp_reg(rr, t);
                    self.buf.b_cond(Cond::Ne, fail_l);
                    let mut i: usize = 0;
                    while i < ps.len()
                        invariant
                            old(self).buf.grows(self.buf),
                            f.nslots >= old(f).nslots,
                            self.wf(),
                            sv < 4094,
                            *pat matches Pattern::PCtor(nn, q) && q@ == ps@ && nn == *name,
                            first_entry(old(self).ctors@, name@) == Some((id, arity)),
                            ps@.len() == arity,
                            arity != 0,
                        decreases ps.len() - i,
                    {
                        proof {
                            assert(decreases_to!(*pat => ps@[ix(i)]));
                        }
                        self.buf.ldr_slot(rr, sv);
                        let off = word_off(16, i)?;
                        self.buf.ldr_off(rr, rr, off);
                        self.match_pat(f, &ps[i], rr, fail_l)?;
                        i = i + 1;
                    }
                    Ok(())
                }
            }
        }
    }
}

} // verus!

verus! {

/// Patterns and bodies of a `fun p1 p2 ... -> body` chain.
/// The parameters of the lambdas nested at the top of `e`, outermost first.
pub open spec fn lam_params(e: Expr) -> Seq<Pattern>
    decreases e,
{
    match e {
        Expr::Lam(p, b) => seq![p] + lam_params(*b),
        _ => Seq::empty(),
    }
}

/// What is left of `e` under the lambdas nested at its top.
pub open spec fn lam_body(e: Expr) -> Expr
    decreases e,
{
    match e {
        Expr::Lam(_, b) => lam_body(*b),
        _ => e,
    }
}

fn split_lambda(lam: &Expr) -> (r: (Vec<Pattern>, Expr))
    ensures
        r.0@.len() == lam_params(*lam).len(),
        forall|k: int| 0 <= k < r.0@.len() ==> pat_same(#[trigger] r.0@[k], lam_params(*lam)[k]),
        expr_same(r.1, lam_body(*lam)),
{
    let mut params: Vec<Pattern> = Vec::new();
    let mut cur: &Expr = lam;
    proof {
        assert(lam_params(*lam) =~= Seq::<Pattern>::empty() + lam_params(*cur));
    }
    loop
        invariant
            params@.len() + lam_params(*cur).len() == lam_params(*lam).len(),
            lam_params(*lam).subrange(params@.len() as int, lam_params(*lam).len() as int) == lam_params(*cur),
            forall|k: int| 0 <= k < params@.len() ==> pat_same(#[trigger] params@[k], lam_params(*lam)[k]),
            lam_body(*cur) == lam_body(*lam),
        ensures
            !(*cur is Lam),
        decreases cur,
    {
        match cur {
            Expr::Lam(p, inner) => {
                let ghost n = params@.len();
                let ghost all = lam_params(*lam);
                proof {
                    assert(lam_params(*cur) == seq![*p] + lam_params(**inner));
                    assert(all.subrange(n as int, all.len() as int)[0] == *p);
                    assert(all.subrange((n + 1) as int, all.len() as int) =~= all.subrange(n as int, all.len() as int).drop_first());
                    assert((seq![*p] + lam_params(**inner)).drop_first() =~= lam_params(**inner));
                }
                params.push(clone_pattern(p));
                cur = &**inner;
            }
            _ => {
                break;
            }
        }
    }
    (params, clone_expr(cur))
}

/// Symbol names of the code levels of lambda number `base`: `_L<base>`,
/// then `_L<base>__<k>`.
fn level_syms(base: u32, n: usize) -> (r: Vec<String>)
    ensures
        r@.len() == n,
{
    let b = u64_to_string(wide32(base));
    let mut out: Vec<String> = Vec::new();
    let mut k: usize = 0;
    while k < n
        invariant
            k <= n,
            out@.len() == k,
        decreases n - k,
    {
        let first = concat("_L", b.as_str());
        if k == 0 {
            out.push(first);
        } else {
            let rest = concat("__", u64_to_string(wide(k)).as_str());
            out.push(concat(first.as_str(), rest.as_str()));
        }
        k = k + 1;
    }
    out
}

impl Codegen {
    fn new_labels(&mut self, n: usize) -> (r: Result<Vec<u32>, String>)
        requires
            old(self).wf(),
        ensures
            old(self).buf.grows(final(self).buf),
            final(self).wf(),
            r matches Ok(v) ==> v@.len() == n,
            r is Ok <==> n == 0 || old(self).buf.label_count() + n <= 0xFFFF_FFFF,
            r matches Ok(v) ==> {
                &&& forall|k: int| 0 <= k < n ==> v@[k] == old(self).buf.label_count() + k
                &&& final(self).buf.label_count() == old(self).buf.label_count() + n
                &&& forall|k: int| old(self).buf.label_count() <= k < final(self).buf.label_count() ==> final(self).buf.label(k) is None
                &&& forall|k: int| 0 <= k < old(self).buf.label_count() ==> final(self).buf.label(k) == old(self).buf.label(k)
                &&& final(self).buf.bytes() == old(self).buf.bytes()
            },
    {
        let mut out: Vec<u32> = Vec::new();
        let mut k: usize = 0;
        while k < n
            invariant
                old(self).buf.grows(self.buf),
                k <= n,
                out@.len() == k,
                self.wf(),
                self.buf.label_count() == old(self).buf.label_count() + k,
                k > 0 ==> self.buf.label_count() <= 0xFFFF_FFFF,
                forall|m: int| 0 <= m < k ==> out@[m] == old(self).buf.label_count() + m,
                forall|m: int| old(self).buf.label_count() <= m < self.buf.label_count() ==> self.buf.label(m) is None,
                forall|m: int| 0 <= m < old(self).buf.label_count() ==> self.buf.label(m) == old(self).buf.label(m),
                self.buf.bytes() == old(self).buf.bytes(),
            decreases n - k,
        {
            let l = self.fresh_label()?;
            out.push(l);
            k = k + 1;
        }
        Ok(out)
    }

    fn next_lambda(&mut self) -> (r: Result<u32, String>)
        ensures
            old(self).buf.grows(final(self).buf),
            final(self).buf == old(self).buf,
            r is Ok <==> old(self).lam_counter < u32::MAX,
            r is Err ==> *final(self) == *old(self),
            r matches Ok(n) ==> n == old(self).lam_counter + 1 && final(self).lam_counter == n,
    {
        if self.lam_counter == u32::MAX {
            return fail("too many lambdas");
        }
        self.lam_counter = self.lam_counter + 1;
        Ok(self.lam_counter)
    }

    /// A lambda inside a body: allocates its closure now (capturing every
    /// local in scope) and defers its code.
    fn lambda(&mut self, f: &FnState, lam: &Expr) -> (r: CResult)
        requires
            old(self).wf(),
        ensures
            old(self).buf.grows(final(self).buf),
            final(self).wf(),
            lam_params(*lam).len() == 0 ==> (r matches Err(m) && m@ == "lambda without parameters"@) && *final(self)
                == *old(self),
            r is Ok ==> {
                let pf = final(self).pending@.last();
                &&& final(self).pending@.len() > 0
                &&& pf.params@.len() == lam_params(*lam).len()
                &&& forall|k: int| 0 <= k < pf.params@.len() ==> pat_same(#[trigger] pf.params@[k], lam_params(*lam)[k])
                &&& expr_same(pf.body, lam_body(*lam))
                &&& pf.labels@.len() == pf.params@.len()
                &&& pf.captured_names@.len() == f.scope@.len()
            },
    {
        let (params, body) = split_lambda(lam);
        if params.len() == 0 {
            return fail("lambda without parameters");
        }
        let captured_slots = clone_scope(&f.scope);
        let mut captured_names: Vec<String> = Vec::new();
        let mut i: usize = 0;
        while i < captured_slots.len()
            invariant
                old(self).buf.grows(self.buf),
                i <= captured_slots.len(),
                captured_names@.len() == i,
            decreases captured_slots.len() - i,
        {
            captured_names.push(captured_slots[i].0.clone());
            i = i + 1;
        }
        let base = self.next_lambda()?;
        let labels = self.new_labels(params.len())?;
        let syms = level_syms(base, params.len());
        let mut k: usize = 0;
        while k < labels.len()
            invariant
                old(self).buf.grows(self.buf),
                labels@.len() == syms@.len(),
                k <= labels.len(),
                self.wf(),
            decreases labels.len() - k,
        {
            self.label_syms.push((labels[k], (syms[k].clone(), false)));
            k = k + 1;
        }
        self.make_closure(labels[0], &captured_slots)?;
        self.pending.push(PendingFn { labels, syms, captured_names, params, body });
        Ok(())
    }

    /// A local single-function `let rec`: the closure captures the locals
    /// in scope and itself (patched in after allocation).
    fn local_rec_let(&mut self, f: &mut FnState, name: &String, rhs: &Expr, body: &Expr, Ghost(whole): Ghost<Expr>) -> (r: CResult)
        requires
            old(self).wf(),
            whole matches Expr::Let { body: b, .. } && *b == *body,
        ensures
            old(self).buf.grows(final(self).buf),
            final(self).wf(),
            final(f).nslots >= old(f).nslots,
            old(f).nslots >= 4094 ==> r is Err,
            lam_params(*rhs).len() == 0 ==> (r matches Err(m) && m@ == "`let rec` of a non-function"@) && *final(self)
                == *old(self) && *final(f) == *old(f),
            lam_params(*rhs).len() > 0 && old(f).scope@.len() >= 4091 ==> (r matches Err(m) && m@
                == "closure environment too large"@) && *final(self) == *old(self) && *final(f) == *old(f),
            (exists|j: int| 0 <= j < old(f).scope@.len() && #[trigger] old(f).scope@[j].0@ == name@) ==> r is Err,
        decreases whole, 0nat,
    {
        let (params, real_body) = split_lambda(rhs);
        if params.len() == 0 {
            return fail("`let rec` of a non-function");
        }
        // capture list = visible locals + the recursive name itself
        let captured = clone_scope(&f.scope);
        if captured.len() >= 4091 {
            return fail("closure environment too large");
        }
        let ncap = captured.len() + 1;
        let base = self.next_lambda()?;
        let labels = self.new_labels(params.len())?;
        let syms = level_syms(base, params.len());
        let mut k: usize = 0;
        while k < labels.len()
            invariant
                old(self).buf.grows(self.buf),
                f.nslots >= old(f).nslots,
                labels@.len() == syms@.len(),
                k <= labels.len(),
                self.wf(),
            decreases labels.len() - k,
        {
            self.label_syms.push((labels[k], (syms[k].clone(), false)));
            k = k + 1;
        }
        // allocate the closure by hand so that the self reference can be patched
        let words = 3 + wide(ncap);
        self.buf.load_const_u64(X0, words * 8);
        self.call_rt("dacelo_alloc");
        self.buf.load_const_u64(R9, hdr(TAG_CLOSURE, words));
        self.buf.str_off(R9, X0, 0);
        self.buf.ldr_lit_label(R9, labels[0]);
        self.buf.str_off(R9, X0, 8);
        self.buf.load_const_u64(R9, wide(ncap));
        self.buf.str_off(R9, X0, 16);
        // the recursive name is the last capture
        let self_idx = ncap - 1;
        let mut j: usize = 0;
        while j < captured.len()
            invariant
                old(self).buf.grows(self.buf),
                f.nslots >= old(f).nslots,
                self.wf(),
                ncap == captured.len() + 1,
                ncap < 4092,
                j <= captured.len(),
                captured@ == old(f).scope@,
                forall|jj: int| 0 <= jj < j ==> #[trigger] captured@[jj].0@ != name@,
                params@.len() == lam_params(*rhs).len(),
                params@.len() > 0,
                old(f).scope@.len() < 4091,
            decreases captured.len() - j,
        {
            if captured[j].0 == *name {
                return fail("`let rec` of a name already bound locally");
            }
            let src = captured[j].1;
            if 8 * wide32(src) >= 32760 {
                return fail("frame too deep");
            }
            self.buf.ldr_slot(R9, src);
            let off = word_off(24, j)?;
            self.buf.str_off(R9, X0, off);
            j = j + 1;
        }
        let self_off = word_off(24, self_idx)?;
        self.buf.str_off(X0, X0, self_off);
        // the closure value under its name for the code that follows
        let holder = spill_slot(f)?;
        self.buf.str_slot(X0, holder);
        f.scope.push((name.clone(), holder));
        let mut captured_names: Vec<String> = Vec::new();
        let mut c: usize = 0;
        while c < captured.len()
            invariant
                old(self).buf.grows(self.buf),
                f.nslots >= old(f).nslots,
                c <= captured.len(),
            decreases captured.len() - c,
        {
            captured_names.push(captured[c].0.clone());
            c = c + 1;
        }
        captured_names.push(name.clone());
        self.pending.push(PendingFn { labels, syms, captured_names, params, body: real_body });
        self.expr(f, body)
    }
}

} // verus!

verus! {

/// The bytes at `p` are the test of an `if`: `cmp x0, #7` (7 is the word
/// of `true`) and a conditional-branch placeholder.
pub open spec fn if_test_at(b: Seq<u8>, p: int) -> bool {
    &&& 0 <= p && p + 8 <= b.len()
    &&& b.subrange(p, p + 4) == le_bytes(crate::encoder::cmp_imm_word(X0, 7))
    &&& b.subrange(p + 4, p + 8) == le_bytes(0x54000000u32)
}

/// `b1` is `b0` followed by the test of an `if`.
pub open spec fn if_test_appended(b0: Seq<u8>, b1: Seq<u8>) -> bool {
    &&& b0.len() + 8 == b1.len()
    &&& b1.subrange(0, b0.len() as int) == b0
    &&& if_test_at(b1, b0.len() as int)
}

proof fn lemma_two_words_at_end(b0: Seq<u8>, w1: u32, w2: u32)
    ensures
        ({
            let b1 = b0 + le_bytes(w1) + le_bytes(w2);
            &&& b1.len() == b0.len() + 8
            &&& b1.subrange(0, b0.len() as int) == b0
            &&& b1.subrange(b0.len() as int, b0.len() as int + 4) == le_bytes(w1)
            &&& b1.subrange(b0.len() as int + 4, b0.len() as int + 8) == le_bytes(w2)
        }),
{
    let b1 = b0 + le_bytes(w1) + le_bytes(w2);
    assert(b1.subrange(0, b0.len() as int) =~= b0);
    assert(b1.subrange(b0.len() as int, b0.len() as int + 4) =~= le_bytes(w1));
    assert(b1.subrange(b0.len() as int + 4, b0.len() as int + 8) =~= le_bytes(w2));
}

/// The code of `if c then t else e` as `c1` holds it after `c0`: the
/// condition's code, then at `p` the test of x0 against `true`, whose
/// branch (fixup `i`) is taken exactly when x0 is not `true` and goes to
/// the label placed at `q`, where the else-part's code starts; between the
/// test and `q` the then-part's code, ending with a `b` (fixup `j`, at
/// `q - 4`) to the label placed at the end of the code.
pub open spec fn if_code(c0: CodeBuf, c1: CodeBuf, p: int, q: int, i: int, j: int) -> bool {
    &&& c0.bytes().len() <= p
    &&& p + 8 <= q - 4
    &&& q <= c1.bytes().len()
    &&& if_test_at(c1.bytes(), p)
    &&& 0 <= i < c1.fixups().len()
    &&& c1.fixups()[i].pos == p + 4
    &&& c1.fixups()[i].kind matches FixKind::BCond(c)
        && forall|x: u64| #[trigger] taken_after_compare(c, x, 7) <==> x != 7
    &&& c1.label(c1.fixups()[i].label as int) == Some(q as usize)
    &&& 0 <= j < c1.fixups().len()
    &&& c1.bytes().subrange(q - 4, q) == le_bytes(branch_placeholder(FixKind::B))
    &&& c1.fixups()[j].pos == q - 4
    &&& c1.fixups()[j].kind == FixKind::B
    &&& c1.label(c1.fixups()[j].label as int) == Some(c1.bytes().len() as usize)
}

impl Codegen {
    // ---------------- expressions ----------------

    /// Compiles `e`, leaving its value in x0.
    fn expr(&mut self, f: &mut FnState, e: &Expr) -> (r: CResult)
        requires
            old(self).wf(),
        ensures
            old(self).buf.grows(final(self).buf),
            final(self).wf(),
            final(f).nslots >= old(f).nslots,
            *e matches Expr::Lit(Lit::Int(n)) ==> r is Ok && final(self).code() == old(self).code()
                + words_bytes(literal_code(Lit::Int(n))),
            *e matches Expr::Lit(Lit::Bool(b)) ==> r is Ok && final(self).code() == old(self).code()
                + words_bytes(literal_code(Lit::Bool(b))),
            *e matches Expr::Var(n) ==> match last_entry(old(f).scope@, n@) {
                Some(s) => (r is Ok <==> 8 * s < 32760) && (r is Ok ==> old(self).code_appended(
                    *final(self),
                    le_bytes(ldr_word(X0, RSP, s)),
                )),
                None => match first_entry(old(self).globals@, n@) {
                    Some(g) => r is Ok && old(self).code_appended(*final(self), global_load_code(g)),
                    None => (r matches Err(m) && m@ == "codegen: unbound variable `"@ + n@ + "`"@) && *final(self) == *old(self),
                },
            },
            *e is If && r is Ok ==> exists|p: int, q: int, i: int, j: int|
                #[trigger] if_code(old(self).buf, final(self).buf, p, q, i, j),
        decreases e, 1nat,
    {
        match e {
            Expr::Lit(Lit::Int(n)) => {
                self.buf.load_const_i64(X0, int_word_of(*n));
                Ok(())
            }
            Expr::Lit(Lit::Bool(b)) => {
                self.buf.load_const_i64(X0, if *b { 7 } else { 3 });
                Ok(())
            }
            Expr::Lit(Lit::Str(s)) => {
                let sym = self.intern_str(s.as_str())?;
                self.buf.ldr_lit_extern(X0, sym.as_str());
                Ok(())
            }
            Expr::Lit(Lit::Unit) => {
                self.load_unit(X0);
                Ok(())
            }
            Expr::Var(n) => {
                if !self.load_var(f, n.as_str())? {
                    return Err(crate::text::concat3("codegen: unbound variable `", n.as_str(), "`"));
                }
                Ok(())
            }
            Expr::Ctor(name) => self.load_ctor_value(name.as_str()),
            Expr::App(fe, ae) => {
                self.expr(f, &**fe)?;
                let sf = spill_slot(f)?;
                self.buf.str_slot(X0, sf);
                self.expr(f, &**ae)?;
                self.buf.mov(X1, X0);
                self.buf.ldr_slot(X0, sf);
                self.emit_apply();
                Ok(())
            }
            Expr::Bin(op, l, r) => self.binop(f, *op, &**l, &**r, Ghost(*e)),
            Expr::If(c, t, el) => {
                self.expr(f, &**c)?;
                let else_l = self.fresh_label()?;
                let end_l = self.fresh_label()?;
                let ghost s2 = self.buf;
                self.branch_unless_true(else_l);
                let ghost s3 = self.buf;
                self.expr(f, &**t)?;
                let ghost s4 = self.buf;
                // the code length fits a `usize`, so the jump records its exact position
                let _here = self.buf.code_len();
                self.buf.b(end_l);
                let ghost s5 = self.buf;
                self.place(else_l)?;
                self.expr(f, &**el)?;
                let res = self.place(end_l);
                proof {
                    if res is Ok {
                        let p = s2.bytes().len() as int;
                        let q = s5.bytes().len() as int;
                        let i = s2.fixups().len() as int;
                        let j = s4.fixups().len() as int;
                        let c1 = self.buf;
                        assert(if_test_at(s3.bytes(), p));
                        assert(c1.bytes().subrange(p, p + 4) =~= s3.bytes().subrange(p, p + 4));
                        assert(c1.bytes().subrange(p + 4, p + 8) =~= s3.bytes().subrange(p + 4, p + 8));
                        assert(c1.bytes().subrange(q - 4, q) =~= s5.bytes().subrange(q - 4, q));
                        assert(s5.bytes().subrange(q - 4, q) =~= le_bytes(branch_placeholder(FixKind::B)));
                        assert(c1.fixups()[i] == s3.fixups()[i]);
                        assert(c1.fixups()[j] == s5.fixups()[j]);
                        assert(if_code(old(self).buf, c1, p, q, i, j));
                    }
                }
                res
            }
            Expr::Case(scrut, branches) => self.case_expr(f, &**scrut, branches, Ghost(*e)),
            Expr::Let { is_rec, name, rhs, body } => {
                if *is_rec {
                    self.local_rec_let(f, name, &**rhs, &**body, Ghost(*e))
                } else {
                    self.expr(f, &**rhs)?;
                    let s = spill_slot(f)?;
                    self.buf.str_slot(X0, s);
                    f.scope.push((name.clone(), s));
                    self.expr(f, &**body)
                }
            }
            Expr::Sequence(l, r) => {
                self.expr(f, &**l)?;
                self.expr(f, &**r)
            }
            Expr::Tuple(es) => {
                let mut slots: Vec<u32> = Vec::new();
                let mut i: usize = 0;
                while i < es.len()
                    invariant
                        old(self).buf.grows(self.buf),
                        f.nslots >= old(f).nslots,
                        self.wf(),
                        *e matches Expr::Tuple(q) && q@ == es@,
                        slots@.len() == i,
                        forall|k: int| 0 <= k < slots@.len() ==> slots@[k] < 4094,
                    decreases es.len() - i,
                {
                    proof {
                        assert(decreases_to!(*e => es@[ix(i)]));
                    }
                    self.expr(f, &es[i])?;
                    let s = spill_slot(f)?;
                    self.buf.str_slot(X0, s);
                    slots.push(s);
                    i = i + 1;
                }
                if es.len() >= 4000 {
                    return fail("tuple too large");
                }
                let words = 1 + wide(es.len());
                self.buf.load_const_u64(X0, words * 8);
                self.call_rt("dacelo_alloc");
                self.buf.load_const_u64(R9, hdr(TAG_TUPLE, words));
                self.buf.str_off(R9, X0, 0);
                let mut k: usize = 0;
                while k < slots.len()
                    invariant
                        old(self).buf.grows(self.buf),
                        f.nslots >= old(f).nslots,
                        self.wf(),
                        *e is Tuple,
                        forall|j: int| 0 <= j < slots@.len() ==> slots@[j] < 4094,
                    decreases slots.len() - k,
                {
                    self.buf.ldr_slot(R9, slots[k]);
                    let off = word_off(8, k)?;
                    self.buf.str_off(R9, X0, off);
                    k = k + 1;
                }
                Ok(())
            }
            Expr::Ann(inner, _) => self.expr(f, &**inner),
            Expr::Lam(_, _) => self.lambda(f, e),
        }
    }

    /// The test of `if`: `cmp x0, #7` (7 is the word of `true`) and a
    /// conditional branch to `else_l`, taken exactly when x0 does not hold
    /// the word of `true`; with `true` in x0 the code that follows runs.
    fn branch_unless_true(&mut self, else_l: u32)
        requires
            old(self).wf(),
        ensures
            old(self).buf.grows(final(self).buf),
            final(self).wf(),
            old(self).keeps_names(*final(self)),
            final(self).buf.bytes() == old(self).buf.bytes() + le_bytes(crate::encoder::cmp_imm_word(X0, 7))
                + le_bytes(0x54000000u32),
            if_test_appended(old(self).buf.bytes(), final(self).buf.bytes()),
            final(self).buf.label_count() == old(self).buf.label_count(),
            forall|k: int| 0 <= k < old(self).buf.label_count() ==> final(self).buf.label(k) == old(self).buf.label(k),
            final(self).buf.fixups().len() == old(self).buf.fixups().len() + 1,
            final(self).buf.fixups().drop_last() == old(self).buf.fixups(),
            final(self).buf.fixups().last().pos == old(self).buf.bytes().len() + 4,
            final(self).buf.fixups().last().label == else_l,
            final(self).buf.fixups().last().kind matches FixKind::BCond(c)
                && forall|x: u64| #[trigger] taken_after_compare(c, x, 7) <==> x != 7,
    {
        let ghost b0 = self.buf;
        self.buf.cmp_imm(X0, 7);
        proof {
            self.buf.lemma_same_tables(b0);
        }
        // the code length fits a `usize`, so the branch records its exact position
        let _here = self.buf.code_len();
        self.buf.b_cond(Cond::Ne, else_l);
        proof {
            lemma_two_words_at_end(old(self).buf.bytes(), crate::encoder::cmp_imm_word(X0, 7), 0x54000000u32);
        }
    }

    fn case_expr(&mut self, f: &mut FnState, scrut: &Expr, branches: &Vec<(Pattern, Expr)>, Ghost(whole): Ghost<Expr>) -> (r: CResult)
        requires
            old(self).wf(),
            whole matches Expr::Case(s, bs) && *s == *scrut && bs@ == branches@,
        ensures
            old(self).buf.grows(final(self).buf),
            final(self).wf(),
            final(f).nslots >= old(f).nslots,
            old(f).nslots >= 4094 ==> r is Err,
        decreases whole, 0nat,
    {
        self.expr(f, scrut)?;
        let sv = spill_slot(f)?;
        self.buf.str_slot(X0, sv);
        let end = self.fresh_label()?;
        let nexts = self.new_labels(branches.len())?;
        let mut i: usize = 0;
        while i < branches.len()
            invariant
                old(self).buf.grows(self.buf),
                f.nslots >= old(f).nslots,
                self.wf(),
                whole matches Expr::Case(s, bs) && bs@ == branches@,
                nexts@.len() == branches@.len(),
                sv < 4094,
            decreases branches.len() - i,
        {
            proof {
                let bs = whole->Case_1;
                assert(decreases_to!(whole => bs));
                assert(decreases_to!(bs => bs@));
                assert(decreases_to!(bs@ => bs@[ix(i)]));
                assert(decreases_to!(bs@[ix(i)] => bs@[ix(i)].1));
            }
            let saved_len = f.scope.len();
            self.buf.ldr_slot(X1, sv);
            self.match_pat(f, &branches[i].0, X1, nexts[i])?;
            self.expr(f, &branches[i].1)?;
            f.scope.truncate(saved_len);
            self.buf.b(end);
            // every alternative label is placed; the last one falls through
            // to the match failure below
            self.place(nexts[i])?;
            i = i + 1;
        }
        self.buf.ldr_slot(X0, sv);
        self.call_rt("dc_match_fail");
        self.place(end)
    }

    fn binop(&mut self, f: &mut FnState, op: BinOp, l: &Expr, r: &Expr, Ghost(whole): Ghost<Expr>) -> (res: CResult)
        requires
            old(self).wf(),
            whole matches Expr::Bin(_, a, b) && *a == *l && *b == *r,
        ensures
            old(self).buf.grows(final(self).buf),
            final(self).wf(),
            final(f).nslots >= old(f).nslots,
            op !is And && op !is Or && old(f).nslots >= 4094 ==> res is Err,
        decreases whole, 0nat,
    {
        match op {
            BinOp::And | BinOp::Or => {
                self.expr(f, l)?;
                let short = self.fresh_label()?;
                let end = self.fresh_label()?;
                self.buf.cmp_imm(X0, 7);
                if op == BinOp::And {
                    self.buf.b_cond(Cond::Ne, short);
                } else {
                    self.buf.b_cond(Cond::Eq, short);
                }
                self.expr(f, r)?;
                self.buf.b(end);
                self.place(short)?;
                self.buf.load_const_i64(X0, if op == BinOp::And { 3 } else { 7 });
                self.place(end)
            }
            BinOp::Eq | BinOp::Neq => {
                self.expr(f, l)?;
                let sa = spill_slot(f)?;
                self.buf.str_slot(X0, sa);
                self.expr(f, r)?;
                self.buf.mov(X1, X0);
                self.buf.ldr_slot(X0, sa);
                self.call_rt("dc_val_eq");
                if op == BinOp::Neq {
                    let t = self.fresh_label()?;
                    let e = self.fresh_label()?;
                    self.buf.cmp_imm(X0, 7);
                    self.buf.b_cond(Cond::Eq, t);
                    self.buf.load_const_i64(X0, 7);
                    self.buf.b(e);
                    self.place(t)?;
                    self.buf.load_const_i64(X0, 3);
                    self.place(e)?;
                }
                Ok(())
            }
            BinOp::Concat => {
                self.expr(f, l)?;
                let la = spill_slot(f)?;
                self.buf.str_slot(X0, la);
                self.expr(f, r)?;
                self.buf.mov(X1, X0);
                self.buf.ldr_slot(X0, la);
                self.call_rt("dc_bi_str_concat");
                Ok(())
            }
            BinOp::Cons => {
                // Cons cell: [hdr][ctor id][head][tail]
                let (cons_id, _) = ctor_of(&self.ctors, "Cons")?;
                let words: u64 = 4;
                self.expr(f, l)?;
                let la = spill_slot(f)?;
                self.buf.str_slot(X0, la);
                self.expr(f, r)?;
                let rb = spill_slot(f)?;
                self.buf.str_slot(X0, rb);
                self.buf.load_const_u64(X0, words * 8);
                self.call_rt("dacelo_alloc");
                self.buf.load_const_u64(R9, hdr(TAG_ADT, words));
                self.buf.str_off(R9, X0, 0);
                self.buf.load_const_u64(R9, wide32(cons_id));
                self.buf.str_off(R9, X0, 8);
                self.buf.ldr_slot(R9, la);
                self.buf.str_off(R9, X0, 16);
                self.buf.ldr_slot(R9, rb);
                self.buf.str_off(R9, X0, 24);
                Ok(())
            }
            _ => {
                self.expr(f, l)?;
                let la = spill_slot(f)?;
                self.buf.str_slot(X0, la);
                self.expr(f, r)?;
                let rb = spill_slot(f)?;
                self.buf.str_slot(X0, rb);
                self.int_arith(op, la, rb)
            }
        }
    }

    /// Integer arithmetic and comparisons on the tagged operands in slots
    /// `la` and `rb`; the result, tagged, in x0.
    #[verifier::spinoff_prover]
    fn int_arith(&mut self, op: BinOp, la: u32, rb: u32) -> (r: CResult)
        requires
            old(self).wf(),
            la < 4094,
            rb < 4094,
        ensures
            old(self).buf.grows(final(self).buf),
            final(self).wf(),
            arith_insns(op, la, rb) matches Some(is) ==> r is Ok && final(self).code() == old(self).code()
                + words_bytes(insn_words(is)),
    {
        let ghost c0 = self.code();
        let ghost mut em: Seq<u32> = Seq::empty();
        proof {
            assert(c0 + words_bytes(em) =~= c0);
        }
        match op {
            BinOp::Lt | BinOp::Gt | BinOp::Le | BinOp::Ge => {
                let cond = match op {
                    BinOp::Lt => Cond::Lt,
                    BinOp::Gt => Cond::Gt,
                    BinOp::Le => Cond::Le,
                    _ => Cond::Ge,
                };
                self.buf.ldr_slot(X0, la);
                proof {
                    em = lemma_emit(c0, em, self.code(), crate::encoder::ldr_word(X0, RSP, la));
                }
                self.buf.asr_imm(X0, X0, 2);
                proof {
                    em = lemma_emit(c0, em, self.code(), crate::encoder::asr_imm_word(X0, X0, 2));
                }
                self.buf.ldr_slot(R9, rb);
                proof {
                    em = lemma_emit(c0, em, self.code(), crate::encoder::ldr_word(R9, RSP, rb));
                }
                self.buf.asr_imm(R9, R9, 2);
                proof {
                    em = lemma_emit(c0, em, self.code(), crate::encoder::asr_imm_word(R9, R9, 2));
                }
                self.buf.cmp_reg(X0, R9);
                proof {
                    em = lemma_emit(c0, em, self.code(), crate::encoder::cmp_reg_word(X0, R9));
                }
                self.buf.cset(X0, cond);
                proof {
                    em = lemma_emit(c0, em, self.code(), crate::encoder::cset_word(X0, cond));
                }
                self.buf.add_reg(X0, XZR, X0, 2);
                proof {
                    em = lemma_emit(c0, em, self.code(), crate::encoder::add_reg_word(X0, XZR, X0, 2));
                }
                self.buf.add_imm(X0, X0, 3);
                proof {
                    em = lemma_emit(c0, em, self.code(), crate::encoder::add_imm_word(X0, X0, 3));
                }
                proof {
                    assert(em =~= insn_words(arith_insns(op, la, rb)->0));
                }
                Ok(())
            }
            BinOp::Add => {
                self.buf.ldr_slot(X0, la);
                proof {
                    em = lemma_emit(c0, em, self.code(), crate::encoder::ldr_word(X0, RSP, la));
                }
                self.buf.ldr_slot(X1, rb);
                proof {
                    em = lemma_emit(c0, em, self.code(), crate::encoder::ldr_word(X1, RSP, rb));
                }
                self.buf.add_reg(X0, X0, X1, 0);
                proof {
                    em = lemma_emit(c0, em, self.code(), crate::encoder::add_reg_word(X0, X0, X1, 0));
                }
                self.buf.sub_imm(X0, X0, 1);
                proof {
                    em = lemma_emit(c0, em, self.code(), crate::encoder::sub_imm_word(X0, X0, 1));
                }
                proof {
                    assert(em =~= insn_words(arith_insns(op, la, rb)->0));
                }
                Ok(())
            }
            BinOp::Sub => {
                self.buf.ldr_slot(X0, la);
                proof {
                    em = lemma_emit(c0, em, self.code(), crate::encoder::ldr_word(X0, RSP, la));
                }
                self.buf.ldr_slot(X1, rb);
                proof {
                    em = lemma_emit(c0, em, self.code(), crate::encoder::ldr_word(X1, RSP, rb));
                }
                self.buf.sub_reg(X0, X0, X1);
                proof {
                    em = lemma_emit(c0, em, self.code(), crate::encoder::sub_reg_word(X0, X0, X1));
                }
                self.buf.add_imm(X0, X0, 1);
                proof {
                    em = lemma_emit(c0, em, self.code(), crate::encoder::add_imm_word(X0, X0, 1));
                }
                proof {
                    assert(em =~= insn_words(arith_insns(op, la, rb)->0));
                }
                Ok(())
            }
            BinOp::Mul => {
                self.buf.ldr_slot(X0, la);
                proof {
                    em = lemma_emit(c0, em, self.code(), crate::encoder::ldr_word(X0, RSP, la));
                }
                self.buf.asr_imm(X0, X0, 2);
                proof {
                    em = lemma_emit(c0, em, self.code(), crate::encoder::asr_imm_word(X0, X0, 2));
                }
                self.buf.ldr_slot(X1, rb);
                proof {
                    em = lemma_emit(c0, em, self.code(), crate::encoder::ldr_word(X1, RSP, rb));
                }
                self.buf.asr_imm(X1, X1, 2);
                proof {
                    em = lemma_emit(c0, em, self.code(), crate::encoder::asr_imm_word(X1, X1, 2));
                }
                self.buf.mul(X0, X0, X1);
                proof {
                    em = lemma_emit(c0, em, self.code(), crate::encoder::mul_word(X0, X0, X1));
                }
                self.buf.add_reg(X0, XZR, X0, 2);
                proof {
                    em = lemma_emit(c0, em, self.code(), crate::encoder::add_reg_word(X0, XZR, X0, 2));
                }
                self.buf.add_imm(X0, X0, 1);
                proof {
                    em = lemma_emit(c0, em, self.code(), crate::encoder::add_imm_word(X0, X0, 1));
                }
                proof {
                    assert(em =~= insn_words(arith_insns(op, la, rb)->0));
                }
                Ok(())
            }
            BinOp::Div => {
                self.buf.ldr_slot(X0, rb);
                self.call_rt("dc_div_check");
                self.buf.mov(R10, X0);
                self.buf.ldr_slot(X0, la);
                self.buf.asr_imm(X0, X0, 2);
                self.buf.sdiv(X0, X0, R10);
                self.buf.add_reg(X0, XZR, X0, 2);
                self.buf.add_imm(X0, X0, 1);
                Ok(())
            }
            BinOp::Mod => {
                self.buf.ldr_slot(X0, rb);
                self.call_rt("dc_div_check");
                self.buf.mov(R10, X0);
                self.buf.ldr_slot(X0, la);
                self.buf.asr_imm(X0, X0, 2);
                self.buf.sdiv(R11, X0, R10);
                self.buf.msub(X0, R10, R11, X0);
                self.buf.add_reg(X0, XZR, X0, 2);
                self.buf.add_imm(X0, X0, 1);
                Ok(())
            }
            _ => fail("not an integer operator"),
        }
    }
}

} // verus!

verus! {

impl Codegen {
    // ---------------- functions ----------------

    /// Emits the deferred functions (and those they defer in turn).
    fn drain_pending(&mut self) -> (r: CResult)
        requires
            old(self).wf(),
        ensures
            final(self).wf(),
            r is Ok ==> final(self).pending@.len() == 0,
            old(self).pending@.len() == 0 ==> r is Ok && final(self).buf == old(self).buf && old(self).keeps_names(*final(self)),
    {
        // every deferred function comes from a numbered lambda, so there
        // are never more than 2^32 of them
        let mut budget: u64 = 0x1_0000_0000;
        while budget > 0
            invariant
                self.wf(),
                budget <= 0x1_0000_0000,
                old(self).pending@.len() == 0 ==> budget == 0x1_0000_0000 && *self == *old(self),
                old(self).pending@.len() == 0 ==> self.pending@.len() == 0,
            decreases budget,
        {
            match self.pending.pop() {
                Some(pf) => {
                    self.emit_fn_levels(pf)?;
                }
                None => {
                    return Ok(());
                }
            }
            budget = budget - 1;
        }
        fail("too many functions")
    }

    /// One code level per curried parameter: level k binds parameter k
    /// and either builds the closure of level k + 1 or runs the body.
    fn emit_fn_levels(&mut self, pf: PendingFn) -> (r: CResult)
        requires
            old(self).wf(),
        ensures
            final(self).wf(),
            pf.labels.len() != pf.params.len() ==> (r matches Err(m) && m@ == "lambda levels out of step"@) && *final(self)
                == *old(self),
            pf.labels.len() == 0 && pf.params.len() == 0 ==> r is Ok && *final(self) == *old(self),
    {
        let n = pf.params.len();
        if pf.labels.len() != n {
            return fail("lambda levels out of step");
        }
        let mut k: usize = 0;
        while k < n
            invariant
                self.wf(),
                n == pf.params.len(),
                pf.labels.len() == n,
                n == 0 ==> *self == *old(self),
            decreases n - k,
        {
            let mut caps_now = clone_strings(&pf.captured_names);
            let mut q: usize = 0;
            while q < k
                invariant
                    q <= k,
                    k < n,
                    n == pf.params.len(),
                decreases k - q,
            {
                if let Some(nm) = pat_name(&pf.params[q]) {
                    caps_now.push(nm);
                }
                q = q + 1;
            }
            self.place(pf.labels[k])?;
            self.fn_prologue(caps_now.len())?;
            let mut fst = FnState::fresh();
            let mut i: usize = 0;
            while i < caps_now.len()
                invariant
                    i <= caps_now.len(),
                    self.wf(),
                    k < n,
                    n == pf.params.len(),
                    pf.labels.len() == n,
                decreases caps_now.len() - i,
            {
                let s = slot_of(i)?;
                fst.scope.push((caps_now[i].clone(), s));
                i = i + 1;
            }
            fst.nslots = slot_of(caps_now.len())?;
            let fail_l = self.fresh_label()?;
            self.match_pat(&mut fst, &pf.params[k], X1, fail_l)?;
            if k + 1 < n {
                let caps = clone_scope(&fst.scope);
                self.make_closure(pf.labels[k + 1], &caps)?;
            } else {
                self.expr(&mut fst, &pf.body)?;
            }
            self.fn_epilogue(fst.nslots)?;
            self.place(fail_l)?;
            self.buf.mov(X0, X1);
            self.call_rt("dc_match_fail");
            k = k + 1;
        }
        Ok(())
    }

    /// A top-level definition: a thunk that computes its value.
    fn compile_def(&mut self, d: &Def) -> (r: Result<u32, String>)
        requires
            old(self).wf(),
        ensures
            final(self).wf(),
            old(self).buf.label_count() >= 0xFFFF_FFFF ==> r is Err,
            r matches Ok(l) ==> l == old(self).buf.label_count(),
    {
        let sym = concat("_thunk_", d.name.as_str());
        let label = self.new_fn_label(sym, false)?;
        self.place(label)?;
        self.fn_prologue(0)?;
        let mut fst = FnState::fresh();
        let wrapped = wrap_params(clone_patterns(&d.params), clone_expr(&d.body));
        self.expr(&mut fst, &wrapped)?;
        self.fn_epilogue(fst.nslots)?;
        Ok(label)
    }

    /// `_dc_init`: registers the constructors, fills the global slots of
    /// the builtins and the curried constructors, then runs the thunks.
    fn emit_init(&mut self, thunks: &Vec<(u32, u32)>) -> (r: CResult)
        requires
            old(self).wf(),
        ensures
            final(self).wf(),
            r is Ok <==> {
                &&& old(self).buf.label_count() + 3 <= 0xFFFF_FFFF
                &&& forall|i: int| 0 <= i < old(self).ctor_names@.len() ==> first_entry(
                    old(self).ctors@,
                    (#[trigger] old(self).ctor_names@[i])@,
                ) is Some
                &&& forall|i: int| 0 <= i < 18 ==> first_entry(old(self).globals@, #[trigger] builtin_layout()[i]) is Some
                &&& forall|i: int| 0 <= i < old(self).ctor_names@.len() ==> (first_entry(
                    old(self).ctors@,
                    (#[trigger] old(self).ctor_names@[i])@,
                ) matches Some(e) && e.1 > 0 ==> first_entry(old(self).globals@, old(self).ctor_names@[i]@) is Some)
            },
            r is Ok ==> {
                &&& final(self).label_syms@.len() == old(self).label_syms@.len() + 1
                &&& final(self).label_syms@.drop_last() == old(self).label_syms@
                &&& final(self).label_syms@.last().0 == old(self).buf.label_count()
                &&& final(self).label_syms@.last().1.0@ == "_dc_init"@
                &&& final(self).label_syms@.last().1.1
                &&& final(self).buf.label(old(self).buf.label_count() as int) == Some(old(self).buf.bytes().len() as usize)
            },
    {
        let l = self.new_fn_label(String::from_str("_dc_init"), true)?;
        self.place(l)?;
        let ghost s1 = *self;
        self.fn_prologue(0)?;
        proof {
            assert(self.buf.label(l as int) == s1.buf.label(l as int));
        }
        let ghost fp = self.frame_patches;
        let ghost ls = self.label_syms;
        let ghost lc = self.buf.label_count();
        let ghost labels0 = Seq::new(lc, |k: int| self.buf.label(k));
        // register constructors
        let names = clone_strings(&self.ctor_names);
        let mut id: usize = 0;
        while id < names.len()
            invariant
                self.wf(),
                old(self).keeps_names(*self),
                self.frame_patches == fp,
                fp@.len() > 0,
                fp@.last() + 4 <= self.buf.bytes().len(),
                self.label_syms == ls,
                self.buf.label_count() == lc,
                forall|k: int| 0 <= k < lc ==> self.buf.label(k) == labels0[k],
                names@ == old(self).ctor_names@,
                forall|i: int| 0 <= i < id ==> first_entry(old(self).ctors@, (#[trigger] names@[i])@) is Some,
            decreases names.len() - id,
        {
            let (_, arity) = ctor_of(&self.ctors, names[id].as_str())?;
            let ghost c0 = *self;
            self.buf.load_const_u64(X0, wide(id));
            let ghost c1 = *self;
            self.buf.load_const_u64(X1, wide(arity));
            proof {
                c1.buf.lemma_same_tables(c0.buf);
                self.buf.lemma_same_tables(c1.buf);
            }
            self.call_rt("dc_register_ctor");
            id = id + 1;
        }
        // builtin partial applications
        let bs = builtin_names();
        proof {
            assert forall|i: int| 0 <= i < 18 implies bs@[i]@ == #[trigger] builtin_layout()[i] by {
            }
        }
        let mut idx: usize = 0;
        while idx < bs.len()
            invariant
                self.wf(),
                old(self).keeps_names(*self),
                self.frame_patches == fp,
                fp@.len() > 0,
                fp@.last() + 4 <= self.buf.bytes().len(),
                self.label_syms == ls,
                self.buf.label_count() == lc,
                forall|k: int| 0 <= k < lc ==> self.buf.label(k) == labels0[k],
                names@ == old(self).ctor_names@,
                forall|i: int| 0 <= i < names@.len() ==> first_entry(old(self).ctors@, (#[trigger] names@[i])@) is Some,
                bs@.len() == 18,
                forall|i: int| 0 <= i < 18 ==> bs@[i]@ == #[trigger] builtin_layout()[i],
                forall|i: int| 0 <= i < idx ==> first_entry(old(self).globals@, #[trigger] builtin_layout()[i]) is Some,
            decreases bs.len() - idx,
        {
            let slot = match self.global_index(bs[idx]) {
                Some(g) => g,
                None => {
                    return fail("builtin without a global slot");
                }
            };
            let ghost c0 = *self;
            self.buf.load_const_u64(X0, wide(idx));
            proof {
                self.buf.lemma_same_tables(c0.buf);
            }
            self.call_rt("dc_mk_partial_builtin");
            self.fill_global(slot);
            idx = idx + 1;
        }
        // constructor partial applications
        let mut c: usize = 0;
        while c < names.len()
            invariant
                self.wf(),
                old(self).keeps_names(*self),
                self.frame_patches == fp,
                fp@.len() > 0,
                fp@.last() + 4 <= self.buf.bytes().len(),
                self.label_syms == ls,
                self.buf.label_count() == lc,
                forall|k: int| 0 <= k < lc ==> self.buf.label(k) == labels0[k],
                names@ == old(self).ctor_names@,
                forall|i: int| 0 <= i < names@.len() ==> first_entry(old(self).ctors@, (#[trigger] names@[i])@) is Some,
                forall|i: int| 0 <= i < 18 ==> first_entry(old(self).globals@, #[trigger] builtin_layout()[i]) is Some,
                forall|i: int| 0 <= i < c ==> (first_entry(old(self).ctors@, (#[trigger] names@[i])@) matches Some(e)
                    && e.1 > 0 ==> first_entry(old(self).globals@, names@[i]@) is Some),
            decreases names.len() - c,
        {
            let (cid, arity) = ctor_of(&self.ctors, names[c].as_str())?;
            if arity > 0 {
                let slot = match self.global_index(names[c].as_str()) {
                    Some(g) => g,
                    None => {
                        return fail("constructor without a global slot");
                    }
                };
                let ghost c0 = *self;
                self.buf.load_const_u64(X0, wide32(cid));
                proof {
                    self.buf.lemma_same_tables(c0.buf);
                }
                self.call_rt("dc_mk_partial_ctor");
                self.fill_global(slot);
            }
            c = c + 1;
        }
        // user definitions
        let mut t: usize = 0;
        while t < thunks.len()
            invariant
                self.wf(),
                old(self).keeps_names(*self),
                self.frame_patches == fp,
                fp@.len() > 0,
                fp@.last() + 4 <= self.buf.bytes().len(),
                self.label_syms == ls,
                self.buf.label_count() == lc,
                forall|k: int| 0 <= k < lc ==> self.buf.label(k) == labels0[k],
            decreases thunks.len() - t,
        {
            self.buf.bl(thunks[t].1);
            self.fill_global(thunks[t].0);
            t = t + 1;
        }
        proof {
            assert(frame_bytes(0) == 64) by (bit_vector);
            assert(self.buf.label(l as int) == labels0[l as int]);
        }
        self.fn_epilogue(0)
    }

    /// `_dc_user_main`: applies `main` to `()` when it is defined.
    fn emit_user_main(&mut self, main_g: Option<u32>) -> (r: CResult)
        requires
            old(self).wf(),
        ensures
            final(self).wf(),
            r is Ok <==> old(self).buf.label_count() + 3 <= 0xFFFF_FFFF,
            r is Ok ==> {
                &&& final(self).label_syms@.len() == old(self).label_syms@.len() + 1
                &&& final(self).label_syms@.drop_last() == old(self).label_syms@
                &&& final(self).label_syms@.last().0 == old(self).buf.label_count()
                &&& final(self).label_syms@.last().1.0@ == "_dc_user_main"@
                &&& final(self).label_syms@.last().1.1
                &&& final(self).buf.label(old(self).buf.label_count() as int) == Some(old(self).buf.bytes().len() as usize)
            },
    {
        let l = self.new_fn_label(String::from_str("_dc_user_main"), true)?;
        self.place(l)?;
        let ghost s1 = *self;
        self.fn_prologue(0)?;
        let ghost s2 = *self;
        if let Some(g) = main_g {
            self.emit_gget(g);
            self.load_unit(X1);
            self.emit_apply();
        }
        proof {
            assert(self.frame_patches@.len() > 0);
            assert(frame_bytes(0) == 64) by (bit_vector);
            assert(self.frame_patches@.last() + 4 <= self.buf.bytes().len());
            assert(self.buf.label(l as int) == s1.buf.label(l as int));
        }
        self.fn_epilogue(0)
    }
}

} // verus!

verus! {

/// The first entry of `syms` for label `l`.
pub open spec fn first_label_sym(syms: Seq<(u32, (String, bool))>, l: u32) -> Option<(String, bool)>
    decreases syms.len(),
{
    if syms.len() == 0 {
        None
    } else if syms[0].0 == l {
        Some(syms[0].1)
    } else {
        first_label_sym(syms.drop_first(), l)
    }
}

fn find_label_sym(syms: &Vec<(u32, (String, bool))>, l: u32) -> (r: Option<(String, bool)>)
    ensures
        r == first_label_sym(syms@, l),
{
    let mut i: usize = 0;
    proof {
        assert(syms@.subrange(0, syms.len() as int) =~= syms@);
    }
    while i < syms.len()
        invariant
            i <= syms.len(),
            first_label_sym(syms@, l) == first_label_sym(syms@.subrange(i as int, syms.len() as int), l),
        decreases syms.len() - i,
    {
        proof {
            assert(syms@.subrange(i as int, syms.len() as int).drop_first() =~= syms@.subrange(i + 1, syms.len() as int));
        }
        if syms[i].0 == l {
            return Some((syms[i].1.0.clone(), syms[i].1.1));
        }
        i = i + 1;
    }
    None
}

impl Codegen {
    // ---------------- program ----------------

    /// Compiles a checked program into an object: a thunk per top-level
    /// definition, the deferred lambdas, `_dc_init`, `_dc_user_main`, the
    /// constructor name table, GOT entries and relocations.
    pub fn compile_program(self, prog: &Program) -> (r: Result<ObjectBuilder, String>)
        requires
            self.wf(),
        ensures
            r matches Ok(obj) ==> obj.text@.len() % 4 == 0 && got_load_pairs(obj.relocs_text@, obj.text@.len()),
    {
        let mut g = self;
        let mut thunks: Vec<(u32, u32)> = Vec::new();
        let mut i: usize = 0;
        while i < prog.items.len()
            invariant
                g.wf(),
            decreases prog.items.len() - i,
        {
            match &prog.items[i] {
                Item::Def(d) => {
                    let slot = g.alloc_global(d.name.as_str())?;
                    let lbl = g.compile_def(d)?;
                    thunks.push((slot, lbl));
                }
                Item::RecGroup(defs) => {
                    let mut j: usize = 0;
                    while j < defs.len()
                        invariant
                            g.wf(),
                        decreases defs.len() - j,
                    {
                        let slot = g.alloc_global(defs[j].name.as_str())?;
                        let lbl = g.compile_def(&defs[j])?;
                        thunks.push((slot, lbl));
                        j = j + 1;
                    }
                }
                Item::Ty(_) => {}
            }
            i = i + 1;
        }
        g.drain_pending()?;
        let main_g = g.global_index("main");
        g.emit_init(&thunks)?;
        g.emit_user_main(main_g)?;
        g.emit_ctor_names_table()?;

        let mut names: Vec<(u32, String)> = Vec::new();
        let mut k: usize = 0;
        while k < g.label_syms.len()
            invariant
                k <= g.label_syms.len(),
            decreases g.label_syms.len() - k,
        {
            names.push((g.label_syms[k].0, g.label_syms[k].1.0.clone()));
            k = k + 1;
        }
        let Codegen {
            buf,
            ctors: _,
            ctor_names: _,
            globals: _,
            n_globals: _,
            data,
            data_syms,
            data_relocs,
            label_syms,
            pending: _,
            frame_patches: _,
            externs,
            str_consts: _,
            lam_counter: _,
        } = g;
        let mut data = data;
        let mut data_syms = data_syms;
        let mut data_relocs = data_relocs;
        let mut externs = externs;
        let ghost b0 = buf;
        proof {
            b0.lemma_wf_layout();
        }
        buf.check_fixups()?;
        let finished = buf.finish(&names)?;

        let mut obj = ObjectBuilder::new();
        obj.text = finished.code;
        let mut a: usize = 0;
        while a < finished.label_offsets.len()
            invariant
                a <= finished.label_offsets.len(),
                obj.text@ == finished.code@,
                obj.relocs_text@.len() == 0,
            decreases finished.label_offsets.len() - a,
        {
            let (lid, off) = finished.label_offsets[a];
            if let Some((sym, glob)) = find_label_sym(&label_syms, lid) {
                obj.define(sym.as_str(), Section::Text, wide(off), glob);
            }
            a = a + 1;
        }
        let mut e: usize = 0;
        while e < externs.len()
            invariant
                e <= externs.len(),
                obj.text@ == finished.code@,
                obj.relocs_text@.len() == 0,
            decreases externs.len() - e,
        {
            obj.add_extern(externs[e].as_str());
            e = e + 1;
        }
        // one GOT quad per slot, relocated against its symbol
        let got_off = wide(data.len());
        let mut s: usize = 0;
        while s < finished.got_slots.len()
            invariant
                s <= finished.got_slots.len(),
                obj.text@ == finished.code@,
                obj.relocs_text@.len() == 0,
            decreases finished.got_slots.len() - s,
        {
            let qoff = wide(data.len());
            push_le64(&mut data, 0);
            match &finished.got_slots[s].0 {
                LitTarget::Label(lid) => {
                    let sym = match find_label_sym(&label_syms, *lid) {
                        Some((sym, _)) => sym,
                        None => {
                            return fail("got label");
                        }
                    };
                    data_relocs.push(Reloc { offset: qoff, sym_name: sym, kind: RelocKind::Unsigned });
                }
                _ => {
                    let target = finished.got_slots[s].1.clone();
                    add_unique(&mut externs, target.as_str());
                    data_relocs.push(Reloc { offset: qoff, sym_name: target, kind: RelocKind::Unsigned });
                }
            }
            s = s + 1;
        }
        // text relocations for each ADRP + LDR pair (emitted in position
        // order): GOT loads of the target symbol
        let mut t: usize = 0;
        while t < finished.adrp_refs.len()
            invariant
                t <= finished.adrp_refs.len(),
                obj.text@ == finished.code@,
                finished.code@.len() % 4 == 0,
                forall|i: int| 0 <= i < finished.adrp_refs@.len() ==> #[trigger] finished.adrp_refs@[i].0 + 8
                    <= finished.code@.len(),
                obj.relocs_text@.len() == 2 * t,
                got_load_pairs(obj.relocs_text@, obj.text@.len()),
            decreases finished.adrp_refs.len() - t,
        {
            let (pos, _reg, slot) = finished.adrp_refs[t];
            if slot >= finished.got_slots.len() {
                return fail("relocation against a missing GOT slot");
            }
            let target = finished.got_slots[slot].1.clone();
            let p = wide(pos);
            if p >= 0xFFFF_FFFF_FFFF_FFF0 {
                return fail("text section too large");
            }
            let ghost r0 = obj.relocs_text@;
            obj.relocs_text.push(Reloc { offset: p, sym_name: target.clone(), kind: RelocKind::GotLoadPage21 });
            obj.relocs_text.push(Reloc { offset: p + 4, sym_name: target, kind: RelocKind::GotLoadPageOff12 });
            proof {
                let r1 = obj.relocs_text@;
                assert(finished.adrp_refs@[t as int].0 + 8 <= finished.code@.len());
                assert forall|i: int| 0 <= i < r1.len() && i % 2 == 0 implies #[trigger] got_load_pair_at(r1, i, obj.text@.len()) by {
                    if i < r0.len() {
                        assert(got_load_pair_at(r0, i, obj.text@.len()));
                        assert(r1[i] == r0[i] && r1[i + 1] == r0[i + 1]);
                    }
                }
            }
            t = t + 1;
        }
        if finished.got_slots.len() > 0 {
            data_syms.push((String::from_str("_dc_got"), got_off));
        }
        obj.data = data;
        let mut d: usize = 0;
        while d < data_syms.len()
            invariant
                d <= data_syms.len(),
                obj.text@.len() % 4 == 0,
                got_load_pairs(obj.relocs_text@, obj.text@.len()),
            decreases data_syms.len() - d,
        {
            let glob = data_syms[d].0.as_str() == "_dc_ctor_names";
            obj.define(data_syms[d].0.as_str(), Section::Data, data_syms[d].1, glob);
            d = d + 1;
        }
        obj.relocs_data = data_relocs;
        Ok(obj)
    }
}

fn add_unique(names: &mut Vec<String>, name: &str)
    ensures
        (exists|j: int| 0 <= j < old(names)@.len() && #[trigger] old(names)@[j]@ == name@) ==> final(names)@ == old(names)@,
        (forall|j: int| 0 <= j < old(names)@.len() ==> #[trigger] old(names)@[j]@ != name@) ==> (final(names)@.len()
            == old(names)@.len() + 1 && final(names)@.drop_last() == old(names)@ && final(names)@.last()@ == name@),
{
    let key = String::from_str(name);
    let mut i: usize = 0;
    while i < names.len()
        invariant
            i <= names.len(),
            key@ == name@,
            names@ == old(names)@,
            forall|j: int| 0 <= j < i ==> #[trigger] names@[j]@ != name@,
        decreases names.len() - i,
    {
        if names[i] == key {
            return;
        }
        i = i + 1;
    }
    names.push(key);
    proof {
        assert(names@.drop_last() =~= old(names)@);
    }
}

} // verus!
