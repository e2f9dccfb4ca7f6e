//! AArch64 instruction encoder: 64-bit instruction words appended to a
//! little-endian code buffer, forward branches to labels patched at the
//! end, and symbol addresses loaded through GOT slots (ADRP + LDR pairs
//! relocated by the linker).
use vstd::prelude::*;

verus! {

/// Branch conditions.
#[derive(Clone, Copy, PartialEq, Eq, Structural)]
pub enum Cond {
    Eq,
    Ne,
    Hs,
    Lo,
    Mi,
    Pl,
    Ge,
    Lt,
    Gt,
    Le,
}

/// The 4-bit condition field of a condition.
pub open spec fn cond_bits(c: Cond) -> u32 {
    match c {
        Cond::Eq => 0,
        Cond::Ne => 1,
        Cond::Hs => 2,
        Cond::Lo => 3,
        Cond::Mi => 4,
        Cond::Pl => 5,
        Cond::Ge => 10,
        Cond::Lt => 11,
        Cond::Gt => 12,
        Cond::Le => 13,
    }
}

/// Whether a conditional branch with condition field `bits` is taken after
/// `cmp xn, #imm` with `x` in xn: the flags are those of the 64-bit
/// subtraction `x - imm` (Z: equal; C: no unsigned borrow; N: the wrapped
/// difference is negative; N == V: signed greater or equal).
pub open spec fn taken_after_compare(bits: u32, x: u64, imm: u64) -> bool {
    let negative = (x as int - imm as int) % 0x1_0000_0000_0000_0000 >= 0x8000_0000_0000_0000;
    if bits == 0 {
        x == imm
    } else if bits == 1 {
        x != imm
    } else if bits == 2 {
        x >= imm
    } else if bits == 3 {
        x < imm
    } else if bits == 4 {
        negative
    } else if bits == 5 {
        !negative
    } else if bits == 10 {
        (x as i64) >= (imm as i64)
    } else if bits == 11 {
        (x as i64) < (imm as i64)
    } else if bits == 12 {
        (x as i64) > (imm as i64)
    } else if bits == 13 {
        (x as i64) <= (imm as i64)
    } else {
        false
    }
}

impl Cond {
    /// The condition field.
    pub fn code(self) -> (r: u32)
        ensures
            r == cond_bits(self),
    {
        match self {
            Cond::Eq => 0,
            Cond::Ne => 1,
            Cond::Hs => 2,
            Cond::Lo => 3,
            Cond::Mi => 4,
            Cond::Pl => 5,
            Cond::Ge => 10,
            Cond::Lt => 11,
            Cond::Gt => 12,
            Cond::Le => 13,
        }
    }

    /// The field of the opposite condition.
    fn invert(self) -> (r: u32)
        ensures
            r == cond_bits(self) ^ 1,
    {
        self.code() ^ 1
    }
}

pub const R0: u32 = 0;
pub const R8: u32 = 8;
pub const R9: u32 = 9;
pub const R10: u32 = 10;
pub const R11: u32 = 11;
pub const R29_FP: u32 = 29;
pub const R30_LR: u32 = 30;
pub const RSP: u32 = 31;
pub const XZR: u32 = 31;

/// What a GOT slot holds the address of.
pub enum LitTarget {
    /// external (undefined) symbol, e.g. runtime function
    Extern(String),
    /// locally defined text label
    Label(u32),
    /// GOT slot index (address of slot in __DATA,__got)
    Got(usize),
}

/// The branch instruction a fixup patches.
#[derive(Clone, Copy, PartialEq, Eq, Structural)]
pub enum FixKind {
    B,
    Bl,
    BCond(u32),
    Cbz(u32),
    Cbnz(u32),
}

/// A branch at `pos` to `label`, patched once labels are placed.
pub struct Fixup {
    pub pos: usize,
    pub label: u32,
    pub kind: FixKind,
}

/// An ADRP + LDR pair at `pos` loading GOT slot `slot` into `reg`.
pub struct AdrpRef {
    pub pos: usize,
    pub reg: u32,
    pub slot: usize,
}

// ---------- instruction words ----------

/// Little-endian bytes of an instruction word.
pub open spec fn le_bytes(w: u32) -> Seq<u8> {
    seq![(w & 0xff) as u8, ((w >> 8) & 0xff) as u8, ((w >> 16) & 0xff) as u8, ((w >> 24) & 0xff) as u8]
}

/// `movz xd, #imm16, lsl #(16 * hw)`
pub open spec fn movz_word(rd: u32, imm16: u16, hw: u32) -> u32 {
    0xD2800000u32 | (hw << 21u32) | ((imm16 as u32) << 5u32) | rd
}

/// `movk xd, #imm16, lsl #(16 * hw)`
pub open spec fn movk_word(rd: u32, imm16: u16, hw: u32) -> u32 {
    0xF2800000u32 | (hw << 21u32) | ((imm16 as u32) << 5u32) | rd
}

/// `orr xd, xzr, xm` (`mov xd, xm`) and `orr xd, xn, xm`
pub open spec fn orr_word(rd: u32, rn: u32, rm: u32) -> u32 {
    0xAA000000u32 | (rm << 16u32) | (rn << 5u32) | rd
}

/// `add xd, xn, xm, lsl #shift`
pub open spec fn add_reg_word(rd: u32, rn: u32, rm: u32, shift: u32) -> u32 {
    0x8B000000u32 | (rm << 16u32) | ((shift & 63) << 10u32) | (rn << 5u32) | rd
}

/// `add xd, xn, #imm12`
pub open spec fn add_imm_word(rd: u32, rn: u32, imm12: u32) -> u32 {
    0x91000000u32 | (imm12 << 10u32) | (rn << 5u32) | rd
}

/// `sub xd, xn, #imm12`
pub open spec fn sub_imm_word(rd: u32, rn: u32, imm12: u32) -> u32 {
    0xD1000000u32 | (imm12 << 10u32) | (rn << 5u32) | rd
}

/// `subs xzr, xn, #imm12` (`cmp xn, #imm12`)
pub open spec fn cmp_imm_word(rn: u32, imm12: u32) -> u32 {
    0xF1000000u32 | (imm12 << 10u32) | (rn << 5u32) | 31
}

/// `subs xzr, xn, xm` (`cmp xn, xm`)
pub open spec fn cmp_reg_word(rn: u32, rm: u32) -> u32 {
    0xEB000000u32 | (rm << 16u32) | (rn << 5u32) | 31
}

/// `sub xd, xn, xm`
pub open spec fn sub_reg_word(rd: u32, rn: u32, rm: u32) -> u32 {
    0xCB000000u32 | (rm << 16u32) | (rn << 5u32) | rd
}

/// `madd xd, xn, xm, xzr` (`mul xd, xn, xm`)
pub open spec fn mul_word(rd: u32, rn: u32, rm: u32) -> u32 {
    0x9B007C00u32 | (rm << 16u32) | (rn << 5u32) | rd
}

/// `msub xd, xn, xm, xa`
pub open spec fn msub_word(rd: u32, rn: u32, rm: u32, ra: u32) -> u32 {
    0x9B008000u32 | (rm << 16u32) | (ra << 10u32) | (rn << 5u32) | rd
}

/// `sdiv xd, xn, xm`
pub open spec fn sdiv_word(rd: u32, rn: u32, rm: u32) -> u32 {
    0x9AC00C00u32 | (rm << 16u32) | (rn << 5u32) | rd
}

/// `sbfm xd, xn, #s, #63` (`asr xd, xn, #s`)
pub open spec fn asr_imm_word(rd: u32, rn: u32, s: u32) -> u32 {
    0x93400000u32 | ((s & 63) << 16u32) | (63u32 << 10u32) | (rn << 5u32) | rd
}

/// `csinc xd, xzr, xzr, !cond` (`cset xd, cond`)
pub open spec fn cset_word(rd: u32, c: Cond) -> u32 {
    0x9A800400u32 | (31u32 << 16u32) | ((cond_bits(c) ^ 1) << 12u32) | (31u32 << 5u32) | rd
}

/// `ldr xt, [xn, #off]` for an offset `off = 8 * imm12`
pub open spec fn ldr_word(xt: u32, xn: u32, imm12: u32) -> u32 {
    0xF9400000u32 | (imm12 << 10u32) | (xn << 5u32) | xt
}

/// `str xt, [xn, #off]` for an offset `off = 8 * imm12`
pub open spec fn str_word(xt: u32, xn: u32, imm12: u32) -> u32 {
    0xF9000000u32 | (imm12 << 10u32) | (xn << 5u32) | xt
}

/// `str xzr, [xn], #8`
pub open spec fn str_xzr_post8_word(xn: u32) -> u32 {
    0xF8000000u32 | (8u32 << 12u32) | (1u32 << 10u32) | (xn << 5u32) | 31
}

/// `adrp xt, page` with the page left to the linker
pub open spec fn adrp_word(xt: u32) -> u32 {
    0x90000000u32 | xt
}

/// `blr xn`
pub open spec fn blr_word(xn: u32) -> u32 {
    0xD63F0000u32 | (xn << 5u32)
}

/// `br xn`
pub open spec fn br_word(xn: u32) -> u32 {
    0xD61F0000u32 | (xn << 5u32)
}

/// `ret`
pub open spec fn ret_word() -> u32 {
    0xD65F03C0u32
}

/// `sub sp, sp, x9` (extended register form)
pub open spec fn sub_sp_x9_word() -> u32 {
    0xCB2963FFu32
}

/// `add sp, sp, x9` (extended register form)
pub open spec fn add_sp_x9_word() -> u32 {
    0x8B2963FFu32
}

/// `stp x29, x30, [sp, #-16]!`
pub open spec fn stp_fp_lr_word() -> u32 {
    0xA9800000u32 | ((0xFFFF_FFFEu32 & 0x7F) << 15u32) | (30u32 << 10u32) | (31u32 << 5u32) | 29
}

/// `ldp x29, x30, [sp], #16`
pub open spec fn ldp_fp_lr_word() -> u32 {
    0xA8C00000u32 | (2u32 << 15u32) | (30u32 << 10u32) | (31u32 << 5u32) | 29
}

/// An instruction of the integer subset, as data: `insn_word` is how it is
/// written, `insn_step` what it does.
pub enum Insn {
    /// `ldr xt, [sp, #8 * slot]`
    LdrSlot(u32, u32),
    /// `add xd, xn, xm, lsl #shift` (register 31 reads as zero)
    AddReg(u32, u32, u32, u32),
    /// `sub xd, xn, xm`
    SubReg(u32, u32, u32),
    /// `add xd, xn, #imm12`
    AddImm(u32, u32, u32),
    /// `sub xd, xn, #imm12`
    SubImm(u32, u32, u32),
    /// `mul xd, xn, xm`
    Mul(u32, u32, u32),
    /// `asr xd, xn, #s`
    AsrImm(u32, u32, u32),
    /// `cmp xn, xm`
    CmpReg(u32, u32),
    /// `cset xd, cond`
    Cset(u32, Cond),
}

/// The word of an instruction.
pub open spec fn insn_word(i: Insn) -> u32 {
    match i {
        Insn::LdrSlot(xt, slot) => ldr_word(xt, RSP, slot),
        Insn::AddReg(rd, rn, rm, sh) => add_reg_word(rd, rn, rm, sh),
        Insn::SubReg(rd, rn, rm) => sub_reg_word(rd, rn, rm),
        Insn::AddImm(rd, rn, imm) => add_imm_word(rd, rn, imm),
        Insn::SubImm(rd, rn, imm) => sub_imm_word(rd, rn, imm),
        Insn::Mul(rd, rn, rm) => mul_word(rd, rn, rm),
        Insn::AsrImm(rd, rn, s) => asr_imm_word(rd, rn, s),
        Insn::CmpReg(rn, rm) => cmp_reg_word(rn, rm),
        Insn::Cset(rd, c) => cset_word(rd, c),
    }
}

/// The words of a sequence of instructions.
pub open spec fn insn_words(is: Seq<Insn>) -> Seq<u32> {
    is.map_values(|i: Insn| insn_word(i))
}

/// Register `r` of `x`, where register 31 reads as zero.
pub open spec fn reg_or_zero(x: Seq<i64>, r: u32) -> i64 {
    if r == 31 { 0 } else { x[r as int] }
}

/// Whether the condition holds after comparing `a` with `b` (signed).
pub open spec fn cond_holds(c: Cond, a: i64, b: i64) -> bool {
    match c {
        Cond::Eq => a == b,
        Cond::Ne => a != b,
        Cond::Ge => a >= b,
        Cond::Lt => a < b,
        Cond::Gt => a > b,
        Cond::Le => a <= b,
        Cond::Hs => (a as u64) >= (b as u64),
        Cond::Lo => (a as u64) < (b as u64),
        Cond::Mi => a.wrapping_sub(b) < 0,
        Cond::Pl => a.wrapping_sub(b) >= 0,
    }
}

/// What an instruction does to the registers `x` (x0 to x30) and the
/// operands `f` of the last comparison, with `frame(i)` the word at
/// `[sp, #8 * i]`.  Arithmetic wraps around at 64 bits.
pub open spec fn insn_step(i: Insn, x: Seq<i64>, f: (i64, i64), frame: spec_fn(int) -> i64) -> (Seq<i64>, (i64, i64)) {
    match i {
        Insn::LdrSlot(xt, slot) => (x.update(xt as int, frame(slot as int)), f),
        Insn::AddReg(rd, rn, rm, sh) => (x.update(rd as int, reg_or_zero(x, rn).wrapping_add(
            reg_or_zero(x, rm).wrapping_shl(sh))), f),
        Insn::SubReg(rd, rn, rm) => (x.update(rd as int, reg_or_zero(x, rn).wrapping_sub(reg_or_zero(x, rm))), f),
        Insn::AddImm(rd, rn, imm) => (x.update(rd as int, x[rn as int].wrapping_add(imm as i64)), f),
        Insn::SubImm(rd, rn, imm) => (x.update(rd as int, x[rn as int].wrapping_sub(imm as i64)), f),
        Insn::Mul(rd, rn, rm) => (x.update(rd as int, x[rn as int].wrapping_mul(x[rm as int])), f),
        Insn::AsrImm(rd, rn, s) => (x.update(rd as int, x[rn as int] >> s), f),
        Insn::CmpReg(rn, rm) => (x, (reg_or_zero(x, rn), reg_or_zero(x, rm))),
        Insn::Cset(rd, c) => (x.update(rd as int, if cond_holds(c, f.0, f.1) { 1i64 } else { 0i64 }), f),
    }
}

/// The state after running the instructions `is` in order.
pub open spec fn run_insns(is: Seq<Insn>, x: Seq<i64>, f: (i64, i64), frame: spec_fn(int) -> i64) -> (Seq<i64>, (i64, i64))
    decreases is.len(),
{
    if is.len() == 0 {
        (x, f)
    } else {
        let st = insn_step(is[0], x, f, frame);
        run_insns(is.drop_first(), st.0, st.1, frame)
    }
}

/// The 26-bit word offset field of `b` / `bl` for a byte distance.
pub open spec fn imm26(delta: i64) -> u32 {
    ((delta >> 2i64) as u32) & 0x03FF_FFFF
}

/// The 19-bit word offset field of `b.cond` / `cbz` / `cbnz`.
pub open spec fn imm19(delta: i64) -> u32 {
    ((delta >> 2i64) as u32) & 0x7FFFF
}

/// The placeholder word emitted for a branch before patching.
pub open spec fn branch_placeholder(k: FixKind) -> u32 {
    match k {
        FixKind::B => 0x14000000u32,
        FixKind::Bl => 0x94000000u32,
        FixKind::BCond(_) => 0x54000000u32,
        FixKind::Cbz(_) => 0xB4000000u32,
        FixKind::Cbnz(_) => 0xB5000000u32,
    }
}

/// The patched branch word for a byte distance `delta` to the target.
pub open spec fn branch_word(k: FixKind, delta: i64) -> u32 {
    match k {
        FixKind::B => 0x14000000u32 | imm26(delta),
        FixKind::Bl => 0x94000000u32 | imm26(delta),
        FixKind::BCond(c) => 0x54000000u32 | (imm19(delta) << 5u32) | c,
        FixKind::Cbz(rt) => 0xB4000000u32 | (imm19(delta) << 5u32) | rt,
        FixKind::Cbnz(rt) => 0xB5000000u32 | (imm19(delta) << 5u32) | rt,
    }
}

/// The byte offset that a processor reads from a branch word: the signed
/// 26-bit word offset of `b` / `bl`, or the signed 19-bit word offset in
/// bits 5..24 of `b.cond` / `cbz` / `cbnz`, times four.
pub open spec fn branch_offset_of(k: FixKind, w: u32) -> int {
    match k {
        FixKind::B | FixKind::Bl => ((((w & 0x03FF_FFFF) as i64) ^ 0x0200_0000) - 0x0200_0000) * 4,
        _ => (((((w >> 5u32) & 0x7FFFF) as i64) ^ 0x4_0000) - 0x4_0000) * 4,
    }
}

/// A patched branch takes the processor exactly where it was aimed: for a
/// word-aligned distance that the instruction can encode, the offset read
/// back from the word is the distance, and the condition or register in
/// the low five bits is kept.
pub proof fn lemma_branch_offset_roundtrip(k: FixKind, delta: i64)
    requires
        delta & 3 == 0,
        match k {
            FixKind::B | FixKind::Bl => -0x800_0000 <= delta < 0x800_0000,
            FixKind::BCond(c) => -0x10_0000 <= delta < 0x10_0000 && c < 32,
            FixKind::Cbz(rt) => -0x10_0000 <= delta < 0x10_0000 && rt < 32,
            FixKind::Cbnz(rt) => -0x10_0000 <= delta < 0x10_0000 && rt < 32,
        },
    ensures
        branch_offset_of(k, branch_word(k, delta)) == delta,
        match k {
            FixKind::BCond(c) => branch_word(k, delta) & 0x1F == c,
            FixKind::Cbz(rt) => branch_word(k, delta) & 0x1F == rt,
            FixKind::Cbnz(rt) => branch_word(k, delta) & 0x1F == rt,
            _ => true,
        },
{
    match k {
        FixKind::B => {
            assert(((((0x14000000u32 | (((delta >> 2i64) as u32) & 0x03FF_FFFF)) & 0x03FF_FFFF) as i64
                ^ 0x0200_0000) - 0x0200_0000) * 4 == delta) by (bit_vector)
                requires delta & 3 == 0, -0x800_0000 <= delta < 0x800_0000;
        }
        FixKind::Bl => {
            assert(((((0x94000000u32 | (((delta >> 2i64) as u32) & 0x03FF_FFFF)) & 0x03FF_FFFF) as i64
                ^ 0x0200_0000) - 0x0200_0000) * 4 == delta) by (bit_vector)
                requires delta & 3 == 0, -0x800_0000 <= delta < 0x800_0000;
        }
        FixKind::BCond(c) => {
            lemma_imm19_roundtrip(0x54000000u32, c, delta);
        }
        FixKind::Cbz(rt) => {
            lemma_imm19_roundtrip(0xB4000000u32, rt, delta);
        }
        FixKind::Cbnz(rt) => {
            lemma_imm19_roundtrip(0xB5000000u32, rt, delta);
        }
    }
}

proof fn lemma_imm19_roundtrip(op: u32, low: u32, delta: i64)
    requires
        delta & 3 == 0,
        -0x10_0000 <= delta < 0x10_0000,
        low < 32,
        op == 0x54000000u32 || op == 0xB4000000u32 || op == 0xB5000000u32,
    ensures
        (((((op | (imm19(delta) << 5u32) | low) >> 5u32) & 0x7FFFF) as i64 ^ 0x4_0000) - 0x4_0000) * 4 == delta,
        (op | (imm19(delta) << 5u32) | low) & 0x1F == low,
{
    assert((((((op | (((((delta >> 2i64) as u32) & 0x7FFFF)) << 5u32) | low) >> 5u32) & 0x7FFFF) as i64
        ^ 0x4_0000) - 0x4_0000) * 4 == delta) by (bit_vector)
        requires delta & 3 == 0, -0x10_0000 <= delta < 0x10_0000, low < 32,
            op == 0x54000000u32 || op == 0xB4000000u32 || op == 0xB5000000u32;
    assert((op | (((((delta >> 2i64) as u32) & 0x7FFFF)) << 5u32) | low) & 0x1F == low) by (bit_vector)
        requires low < 32, op == 0x54000000u32 || op == 0xB4000000u32 || op == 0xB5000000u32;
}

/// Whether a branch can reach a byte distance.
pub open spec fn in_range(k: FixKind, delta: i64) -> bool {
    match k {
        FixKind::BCond(_) => -0x10_0000 <= delta <= 0x10_0000,
        _ => true,
    }
}

} // verus!

verus! {

/// Bytes of a sequence of instruction words, in order.
pub open spec fn words_bytes(ws: Seq<u32>) -> Seq<u8>
    decreases ws.len(),
{
    if ws.len() == 0 {
        seq![]
    } else {
        words_bytes(ws.drop_last()) + le_bytes(ws.last())
    }
}

pub proof fn lemma_words_bytes_push(ws: Seq<u32>, w: u32)
    ensures
        words_bytes(ws.push(w)) == words_bytes(ws) + le_bytes(w),
{
    assert(ws.push(w).drop_last() =~= ws);
}

/// The words `load_const_u64` emits: `movz` of the low half-word, then a
/// `movk` for every higher half-word that is not zero.
pub open spec fn load_const_words(rd: u32, v: u64) -> Seq<u32> {
    if v <= 0xFFFF {
        seq![movz_word(rd, v as u16, 0)]
    } else {
        seq![movz_word(rd, (v & 0xFFFF) as u16, 0)]
            + (if (v >> 16u64) & 0xFFFF != 0 { seq![movk_word(rd, ((v >> 16u64) & 0xFFFF) as u16, 1)] } else { seq![] })
            + (if (v >> 32u64) & 0xFFFF != 0 { seq![movk_word(rd, ((v >> 32u64) & 0xFFFF) as u16, 2)] } else { seq![] })
            + (if (v >> 48u64) != 0 { seq![movk_word(rd, ((v >> 48u64) & 0xFFFF) as u16, 3)] } else { seq![] })
    }
}

/// The effect of one instruction word on register `rd` holding `x`: a
/// `movz` to `rd` sets it to the shifted immediate, a `movk` to `rd`
/// replaces one half-word; other words leave it alone.
pub open spec fn mov_effect(w: u32, rd: u32, x: u64) -> u64 {
    let imm = ((w >> 5u32) & 0xFFFF) as u64;
    let sh = (((w >> 21u32) & 3) * 16) as u64;
    if w & 0x1F != rd {
        x
    } else if w & 0xFF80_0000 == 0xD280_0000 {
        imm << sh
    } else if w & 0xFF80_0000 == 0xF280_0000 {
        (x & !(0xFFFFu64 << sh)) | (imm << sh)
    } else {
        x
    }
}

/// Register `rd` after running the words `ws` from the value `x`.
pub open spec fn run_movs(ws: Seq<u32>, rd: u32, x: u64) -> u64
    decreases ws.len(),
{
    if ws.len() == 0 {
        x
    } else {
        run_movs(ws.drop_first(), rd, mov_effect(ws[0], rd, x))
    }
}

} // verus!

verus! {

proof fn lemma_movz_fields(rd: u32, imm16: u16, hw: u32)
    requires
        rd < 32,
        hw < 4,
    ensures
        movz_word(rd, imm16, hw) & 0x1F == rd,
        movz_word(rd, imm16, hw) & 0xFF80_0000 == 0xD280_0000,
        (movz_word(rd, imm16, hw) >> 5u32) & 0xFFFF == imm16 as u32,
        (movz_word(rd, imm16, hw) >> 21u32) & 3 == hw,
{
    let i = imm16 as u32;
    assert(i < 0x10000);
    assert((0xD2800000u32 | (hw << 21u32) | (i << 5u32) | rd) & 0x1F == rd) by (bit_vector)
        requires rd < 32, hw < 4, i < 0x10000;
    assert((0xD2800000u32 | (hw << 21u32) | (i << 5u32) | rd) & 0xFF80_0000 == 0xD280_0000) by (bit_vector)
        requires rd < 32, hw < 4, i < 0x10000;
    assert(((0xD2800000u32 | (hw << 21u32) | (i << 5u32) | rd) >> 5u32) & 0xFFFF == i) by (bit_vector)
        requires rd < 32, hw < 4, i < 0x10000;
    assert(((0xD2800000u32 | (hw << 21u32) | (i << 5u32) | rd) >> 21u32) & 3 == hw) by (bit_vector)
        requires rd < 32, hw < 4, i < 0x10000;
}

proof fn lemma_movk_fields(rd: u32, imm16: u16, hw: u32)
    requires
        rd < 32,
        hw < 4,
    ensures
        movk_word(rd, imm16, hw) & 0x1F == rd,
        movk_word(rd, imm16, hw) & 0xFF80_0000 == 0xF280_0000,
        (movk_word(rd, imm16, hw) >> 5u32) & 0xFFFF == imm16 as u32,
        (movk_word(rd, imm16, hw) >> 21u32) & 3 == hw,
{
    let i = imm16 as u32;
    assert(i < 0x10000);
    assert((0xF2800000u32 | (hw << 21u32) | (i << 5u32) | rd) & 0x1F == rd) by (bit_vector)
        requires rd < 32, hw < 4, i < 0x10000;
    assert((0xF2800000u32 | (hw << 21u32) | (i << 5u32) | rd) & 0xFF80_0000 == 0xF280_0000) by (bit_vector)
        requires rd < 32, hw < 4, i < 0x10000;
    assert(((0xF2800000u32 | (hw << 21u32) | (i << 5u32) | rd) >> 5u32) & 0xFFFF == i) by (bit_vector)
        requires rd < 32, hw < 4, i < 0x10000;
    assert(((0xF2800000u32 | (hw << 21u32) | (i << 5u32) | rd) >> 21u32) & 3 == hw) by (bit_vector)
        requires rd < 32, hw < 4, i < 0x10000;
}

/// `load_const_u64(rd, v)` emits words that leave `v` in `rd`, whatever
/// `rd` held before.
pub proof fn lemma_load_const_sets_register(rd: u32, v: u64, x: u64)
    requires
        rd < 32,
    ensures
        run_movs(load_const_words(rd, v), rd, x) == v,
{
    reveal_with_fuel(run_movs, 2);
    let ws = load_const_words(rd, v);
    if v <= 0xFFFF {
        lemma_movz_fields(rd, v as u16, 0);
        assert(ws.drop_first() =~= Seq::<u32>::empty());
        let w = movz_word(rd, v as u16, 0);
        let imm = ((w >> 5u32) & 0xFFFF) as u64;
        assert(imm == v);
        assert(imm << 0u64 == imm) by (bit_vector);
        assert(mov_effect(w, rd, x) == v);

    } else {
        let l0 = (v & 0xFFFF) as u16;
        let l1 = ((v >> 16u64) & 0xFFFF) as u16;
        let l2 = ((v >> 32u64) & 0xFFFF) as u16;
        let l3 = ((v >> 48u64) & 0xFFFF) as u16;
        lemma_movz_fields(rd, l0, 0);
        lemma_movk_fields(rd, l1, 1);
        lemma_movk_fields(rd, l2, 2);
        lemma_movk_fields(rd, l3, 3);
        let w0 = movz_word(rd, l0, 0);
        let w1 = movk_word(rd, l1, 1);
        let w2 = movk_word(rd, l2, 2);
        let w3 = movk_word(rd, l3, 3);
        let s1: Seq<u32> = if (v >> 16u64) & 0xFFFF != 0 { seq![w1] } else { seq![] };
        let s2: Seq<u32> = if (v >> 32u64) & 0xFFFF != 0 { seq![w2] } else { seq![] };
        let s3: Seq<u32> = if (v >> 48u64) != 0 { seq![w3] } else { seq![] };
        assert(ws =~= seq![w0] + s1 + s2 + s3);
        // after each stage the register holds the low half-words of v
        let x0 = (l0 as u64) << 0u64;
        assert(x0 == v & 0xFFFF) by (bit_vector)
            requires x0 == (((v & 0xFFFF) as u16) as u64) << 0u64;
        let x1 = if (v >> 16u64) & 0xFFFF != 0 {
            (x0 & !(0xFFFFu64 << 16u64)) | ((l1 as u64) << 16u64)
        } else {
            x0
        };
        assert(x1 == v & 0xFFFF_FFFF) by (bit_vector)
            requires
                x0 == v & 0xFFFF,
                x1 == if (v >> 16u64) & 0xFFFF != 0 {
                    (x0 & !(0xFFFFu64 << 16u64)) | ((((v >> 16u64) & 0xFFFF) as u16 as u64) << 16u64)
                } else {
                    x0
                };
        let x2 = if (v >> 32u64) & 0xFFFF != 0 {
            (x1 & !(0xFFFFu64 << 32u64)) | ((l2 as u64) << 32u64)
        } else {
            x1
        };
        assert(x2 == v & 0xFFFF_FFFF_FFFF) by (bit_vector)
            requires
                x1 == v & 0xFFFF_FFFF,
                x2 == if (v >> 32u64) & 0xFFFF != 0 {
                    (x1 & !(0xFFFFu64 << 32u64)) | ((((v >> 32u64) & 0xFFFF) as u16 as u64) << 32u64)
                } else {
                    x1
                };
        let x3 = if (v >> 48u64) != 0 {
            (x2 & !(0xFFFFu64 << 48u64)) | ((l3 as u64) << 48u64)
        } else {
            x2
        };
        assert(x3 == v) by (bit_vector)
            requires
                x2 == v & 0xFFFF_FFFF_FFFF,
                x3 == if (v >> 48u64) != 0 {
                    (x2 & !(0xFFFFu64 << 48u64)) | ((((v >> 48u64) & 0xFFFF) as u16 as u64) << 48u64)
                } else {
                    x2
                };
        lemma_run_movs_append(seq![w0], s1 + (s2 + s3), rd, x);
        assert(seq![w0] + s1 + s2 + s3 =~= seq![w0] + (s1 + (s2 + s3)));
        assert(seq![w0].drop_first() =~= Seq::<u32>::empty());
        assert(mov_effect(w0, rd, x) == x0);
        lemma_run_movs_append(s1, s2 + s3, rd, x0);
        if (v >> 16u64) & 0xFFFF != 0 {
            assert(s1.drop_first() =~= Seq::<u32>::empty());
            assert(mov_effect(w1, rd, x0) == x1);
        }
        assert(run_movs(s1, rd, x0) == x1);
        lemma_run_movs_append(s2, s3, rd, x1);
        if (v >> 32u64) & 0xFFFF != 0 {
            assert(s2.drop_first() =~= Seq::<u32>::empty());
            assert(mov_effect(w2, rd, x1) == x2);
        }
        assert(run_movs(s2, rd, x1) == x2);
        if (v >> 48u64) != 0 {
            assert(s3.drop_first() =~= Seq::<u32>::empty());
            assert(mov_effect(w3, rd, x2) == x3);
        }
        assert(run_movs(s3, rd, x2) == x3);
    }
}

proof fn lemma_run_movs_append(a: Seq<u32>, b: Seq<u32>, rd: u32, x: u64)
    ensures
        run_movs(a + b, rd, x) == run_movs(b, rd, run_movs(a, rd, x)),
    decreases a.len(),
{
    if a.len() == 0 {
        assert(a + b =~= b);
    } else {
        assert((a + b).drop_first() =~= a.drop_first() + b);
        lemma_run_movs_append(a.drop_first(), b, rd, mov_effect(a[0], rd, x));
    }
}

} // verus!

verus! {

/// The code being assembled, with its labels, pending branch fixups, GOT
/// slots (unique, in order of first use) and ADRP + LDR pairs.
pub struct CodeBuf {
    pub code: Vec<u8>,
    labels: Vec<Option<usize>>,
    fixups: Vec<Fixup>,
    got_slots: Vec<LitTarget>,
    adrp_refs: Vec<AdrpRef>,
}

/// Two GOT keys name the same slot.
pub open spec fn same_target(a: LitTarget, b: LitTarget) -> bool {
    match (a, b) {
        (LitTarget::Extern(x), LitTarget::Extern(y)) => x@ == y@,
        (LitTarget::Label(x), LitTarget::Label(y)) => x == y,
        (LitTarget::Got(x), LitTarget::Got(y)) => x == y,
        _ => false,
    }
}

/// Some key of `keys` is the external symbol `sym`.
pub open spec fn has_extern_key(keys: Seq<LitTarget>, sym: Seq<char>) -> bool {
    exists|i: int| #![trigger keys[i]] 0 <= i < keys.len() && (keys[i] matches LitTarget::Extern(n) && n@ == sym)
}

/// Some key of `keys` names the same target as `key`: its GOT slot is
/// shared.
pub open spec fn has_got_key(keys: Seq<LitTarget>, key: LitTarget) -> bool {
    exists|i: int| 0 <= i < keys.len() && same_target(keys[i], key)
}

fn same_target_exec(a: &LitTarget, b: &LitTarget) -> (r: bool)
    ensures
        r == same_target(*a, *b),
{
    match (a, b) {
        (LitTarget::Extern(x), LitTarget::Extern(y)) => *x == *y,
        (LitTarget::Label(x), LitTarget::Label(y)) => *x == *y,
        (LitTarget::Got(x), LitTarget::Got(y)) => *x == *y,
        _ => false,
    }
}

fn clone_target(t: &LitTarget) -> (r: LitTarget)
    ensures
        r == *t,
{
    match t {
        LitTarget::Extern(s) => LitTarget::Extern(s.clone()),
        LitTarget::Label(l) => LitTarget::Label(*l),
        LitTarget::Got(g) => LitTarget::Got(*g),
    }
}

impl CodeBuf {
    /// The code bytes.
    pub closed spec fn bytes(&self) -> Seq<u8> {
        self.code@
    }

    /// Number of labels created.
    pub closed spec fn label_count(&self) -> nat {
        self.labels@.len()
    }

    /// Where label `l` is placed, if it is.
    pub closed spec fn label(&self, l: int) -> Option<usize> {
        self.labels@[l]
    }

    /// The branches waiting for their targets, in emission order.
    pub closed spec fn fixups(&self) -> Seq<Fixup> {
        self.fixups@
    }

    /// The GOT keys, in order of first use.
    pub closed spec fn got_keys(&self) -> Seq<LitTarget> {
        self.got_slots@
    }

    /// The ADRP + LDR pairs, in emission order.
    pub closed spec fn adrp_refs(&self) -> Seq<AdrpRef> {
        self.adrp_refs@
    }

    /// Well-formedness: whole words of code, placed labels inside it,
    /// fixups at increasing word positions inside it, unique GOT keys and
    /// pairs that name existing slots.
    pub closed spec fn wf(&self) -> bool {
        &&& self.code@.len() % 4 == 0
        &&& forall|l: int| 0 <= l < self.labels@.len() ==> (#[trigger] self.labels@[l] matches Some(o)
            ==> o <= self.code@.len() && o % 4 == 0)
        &&& forall|i: int| 0 <= i < self.fixups@.len() ==> (#[trigger] self.fixups@[i]).pos % 4 == 0
            && self.fixups@[i].pos + 4 <= self.code@.len()
        &&& forall|i: int, j: int| 0 <= i < j < self.fixups@.len() ==> #[trigger] self.fixups@[i].pos + 4
            <= #[trigger] self.fixups@[j].pos
        &&& forall|i: int, j: int| 0 <= i < j < self.got_slots@.len() ==> !same_target(
            #[trigger] self.got_slots@[i], #[trigger] self.got_slots@[j])
        &&& forall|i: int| 0 <= i < self.adrp_refs@.len() ==> (#[trigger] self.adrp_refs@[i]).slot
            < self.got_slots@.len() && self.adrp_refs@[i].pos + 8 <= self.code@.len()
    }

    /// What a well-formed buffer gives its users: whole instruction words,
    /// and every ADRP + LDR pair inside the code, using a GOT slot that
    /// exists.
    pub proof fn lemma_wf_layout(&self)
        requires
            self.wf(),
        ensures
            self.bytes().len() % 4 == 0,
            forall|i: int| 0 <= i < self.adrp_refs().len() ==> #[trigger] self.adrp_refs()[i].pos + 8
                <= self.bytes().len() && self.adrp_refs()[i].slot < self.got_keys().len(),
    {
    }

    /// Everything but the code bytes is as in `other`.
    pub closed spec fn same_tables(&self, other: CodeBuf) -> bool {
        &&& self.labels@ == other.labels@
        &&& self.fixups@ == other.fixups@
        &&& self.got_slots@ == other.got_slots@
        &&& self.adrp_refs@ == other.adrp_refs@
    }

    /// Buffers with the same tables have the same labels, fixups, GOT keys
    /// and ADRP + LDR pairs.
    pub proof fn lemma_same_tables(&self, other: CodeBuf)
        requires
            self.same_tables(other),
        ensures
            self.label_count() == other.label_count(),
            forall|k: int| 0 <= k < self.label_count() ==> self.label(k) == other.label(k),
            self.fixups() == other.fixups(),
            self.got_keys() == other.got_keys(),
            self.adrp_refs() == other.adrp_refs(),
    {
    }

    /// `self` is `old` with the word `w` appended.
    pub open spec fn appended(self, old: CodeBuf, w: u32) -> bool {
        &&& self.bytes() == old.bytes() + le_bytes(w)
        &&& self.same_tables(old)
        &&& self.wf()
        &&& old.grows(self)
    }

    /// `later` extends `self`: its code starts with the code of `self`, it
    /// has at least the labels of `self`, each placed label placed where it
    /// was, and its fixups start with those of `self`.
    pub open spec fn grows(self, later: CodeBuf) -> bool {
        &&& self.bytes().len() <= later.bytes().len()
        &&& forall|i: int| 0 <= i < self.bytes().len() ==> #[trigger] later.bytes()[i] == self.bytes()[i]
        &&& self.label_count() <= later.label_count()
        &&& forall|k: int| 0 <= k < self.label_count() && self.label(k) is Some
            ==> #[trigger] later.label(k) == self.label(k)
        &&& self.fixups().len() <= later.fixups().len()
        &&& forall|j: int| 0 <= j < self.fixups().len() ==> #[trigger] later.fixups()[j] == self.fixups()[j]
    }

    /// An empty buffer with eight unplaced labels.
    pub fn new() -> (c: CodeBuf)
        ensures
            c.wf(),
            c.bytes().len() == 0,
            c.label_count() == 8,
            forall|l: int| 0 <= l < 8 ==> c.label(l) is None,
            c.fixups().len() == 0,
            c.got_keys().len() == 0,
            c.adrp_refs().len() == 0,
    {
        let mut labels: Vec<Option<usize>> = Vec::new();
        let mut i: usize = 0;
        while i < 8
            invariant
                i <= 8,
                labels@.len() == i,
                forall|l: int| 0 <= l < i ==> labels@[l] is None,
            decreases 8 - i,
        {
            labels.push(None);
            i = i + 1;
        }
        CodeBuf { code: Vec::new(), labels, fixups: Vec::new(), got_slots: Vec::new(), adrp_refs: Vec::new() }
    }

    /// Number of code bytes.
    pub fn code_len(&self) -> (n: usize)
        ensures
            n == self.bytes().len(),
    {
        self.code.len()
    }

    /// Number of labels created.
    pub fn num_labels(&self) -> (n: usize)
        ensures
            n == self.label_count(),
    {
        self.labels.len()
    }

    /// Whether label `l` is placed.
    pub fn is_placed(&self, l: u32) -> (b: bool)
        requires
            (l as int) < self.label_count(),
        ensures
            b == self.label(l as int) is Some,
    {
        self.labels[l as usize].is_some()
    }

    /// A new, unplaced label.
    pub fn new_label(&mut self) -> (l: u32)
        requires
            old(self).wf(),
            old(self).label_count() < u32::MAX,
        ensures
            old(self).grows(*final(self)),
            final(self).wf(),
            l == old(self).label_count(),
            final(self).label_count() == old(self).label_count() + 1,
            final(self).label(l as int) is None,
            forall|k: int| 0 <= k < old(self).label_count() ==> final(self).label(k) == old(self).label(k),
            final(self).bytes() == old(self).bytes(),
            final(self).fixups() == old(self).fixups(),
            final(self).got_keys() == old(self).got_keys(),
            final(self).adrp_refs() == old(self).adrp_refs(),
    {
        self.labels.push(None);
        (self.labels.len() - 1) as u32
    }

    /// Places label `l` at the current end of the code.
    pub fn bind_label(&mut self, l: u32)
        requires
            old(self).wf(),
            (l as int) < old(self).label_count(),
            old(self).label(l as int) is None,
        ensures
            old(self).grows(*final(self)),
            final(self).wf(),
            final(self).label_count() == old(self).label_count(),
            final(self).label(l as int) == Some(old(self).bytes().len() as usize),
            forall|k: int| 0 <= k < old(self).label_count() && k != l ==> final(self).label(k) == old(self).label(k),
            final(self).bytes() == old(self).bytes(),
            final(self).fixups() == old(self).fixups(),
            final(self).got_keys() == old(self).got_keys(),
            final(self).adrp_refs() == old(self).adrp_refs(),
    {
        let here = self.code.len();
        self.labels.set(l as usize, Some(here));
    }

    fn here(&self) -> (n: usize)
        ensures
            n == self.bytes().len(),
    {
        self.code.len()
    }

    /// Appends one instruction word.
    pub fn push4(&mut self, insn: u32)
        requires
            old(self).wf(),
        ensures
            final(self).appended(*old(self), insn),
    {
        self.code.push((insn & 0xff) as u8);
        self.code.push(((insn >> 8) & 0xff) as u8);
        self.code.push(((insn >> 16) & 0xff) as u8);
        self.code.push(((insn >> 24) & 0xff) as u8);
        proof {
            assert(self.code@ =~= old(self).code@ + le_bytes(insn));
        }
    }

    fn patch32(&mut self, pos: usize, insn: u32)
        requires
            old(self).wf(),
            pos + 4 <= old(self).bytes().len(),
        ensures
            final(self).wf(),
            final(self).same_tables(*old(self)),
            final(self).bytes() == old(self).bytes().subrange(0, pos as int) + le_bytes(insn)
                + old(self).bytes().subrange(pos + 4, old(self).bytes().len() as int),
    {
        let _n = self.code.len();
        let (p1, p2, p3) = (pos + 1, pos + 2, pos + 3);
        self.code.set(pos, (insn & 0xff) as u8);
        self.code.set(p1, ((insn >> 8) & 0xff) as u8);
        self.code.set(p2, ((insn >> 16) & 0xff) as u8);
        self.code.set(p3, ((insn >> 24) & 0xff) as u8);
        proof {
            assert(self.code@ =~= old(self).code@.subrange(0, pos as int) + le_bytes(insn)
                + old(self).code@.subrange(pos + 4, old(self).code@.len() as int));
        }
    }
}

} // verus!

verus! {

impl CodeBuf {
    /// `movz xd, #imm16, lsl #(16 * hw)`
    pub fn movz(&mut self, rd: u32, imm16: u16, hw: u32)
        requires
            old(self).wf(),
        ensures
            final(self).appended(*old(self), movz_word(rd, imm16, hw)),
    {
        self.push4(0xD2800000u32 | (hw << 21u32) | ((imm16 as u32) << 5u32) | rd);
    }

    /// `movk xd, #imm16, lsl #(16 * hw)`
    pub fn movk(&mut self, rd: u32, imm16: u16, hw: u32)
        requires
            old(self).wf(),
        ensures
            final(self).appended(*old(self), movk_word(rd, imm16, hw)),
    {
        self.push4(0xF2800000u32 | (hw << 21u32) | ((imm16 as u32) << 5u32) | rd);
    }

    /// `mov xd, xn`
    pub fn mov(&mut self, rd: u32, rn: u32)
        requires
            old(self).wf(),
        ensures
            final(self).appended(*old(self), orr_word(rd, XZR, rn)),
    {
        self.push4(0xAA000000u32 | (rn << 16u32) | (XZR << 5u32) | rd);
    }

    /// `add xd, xn, xm, lsl #shift_amt`
    pub fn add_reg(&mut self, rd: u32, rn: u32, rm: u32, shift_amt: u32)
        requires
            old(self).wf(),
        ensures
            final(self).appended(*old(self), add_reg_word(rd, rn, rm, shift_amt)),
    {
        self.push4(0x8B000000u32 | (rm << 16u32) | ((shift_amt & 63) << 10u32) | (rn << 5u32) | rd);
    }

    /// `add xd, xn, #imm12`
    pub fn add_imm(&mut self, rd: u32, rn: u32, imm12: u32)
        requires
            old(self).wf(),
            imm12 < 4096,
        ensures
            final(self).appended(*old(self), add_imm_word(rd, rn, imm12)),
    {
        self.push4(0x91000000u32 | (imm12 << 10u32) | (rn << 5u32) | rd);
    }

    /// `sub xd, xn, #imm12`
    pub fn sub_imm(&mut self, rd: u32, rn: u32, imm12: u32)
        requires
            old(self).wf(),
            imm12 < 4096,
        ensures
            final(self).appended(*old(self), sub_imm_word(rd, rn, imm12)),
    {
        self.push4(0xD1000000u32 | (imm12 << 10u32) | (rn << 5u32) | rd);
    }

    /// `cmp xn, #imm12`
    pub fn cmp_imm(&mut self, rn: u32, imm12: u32)
        requires
            old(self).wf(),
            imm12 < 4096,
        ensures
            final(self).appended(*old(self), cmp_imm_word(rn, imm12)),
    {
        self.push4(0xF1000000u32 | (imm12 << 10u32) | (rn << 5u32) | XZR);
    }

    /// `cmp xn, xm`
    pub fn cmp_reg(&mut self, rn: u32, rm: u32)
        requires
            old(self).wf(),
        ensures
            final(self).appended(*old(self), cmp_reg_word(rn, rm)),
    {
        self.push4(0xEB000000u32 | (rm << 16u32) | (rn << 5u32) | XZR);
    }

    /// `sub xd, xn, xm`
    pub fn sub_reg(&mut self, rd: u32, rn: u32, rm: u32)
        requires
            old(self).wf(),
        ensures
            final(self).appended(*old(self), sub_reg_word(rd, rn, rm)),
    {
        self.push4(0xCB000000u32 | (rm << 16u32) | (rn << 5u32) | rd);
    }

    /// `mul xd, xn, xm`
    pub fn mul(&mut self, rd: u32, rn: u32, rm: u32)
        requires
            old(self).wf(),
        ensures
            final(self).appended(*old(self), mul_word(rd, rn, rm)),
    {
        self.push4(0x9B007C00u32 | (rm << 16u32) | (rn << 5u32) | rd);
    }

    /// `msub xd, xn, xm, xa`: `xa - xn * xm`
    pub fn msub(&mut self, rd: u32, rn: u32, rm: u32, ra: u32)
        requires
            old(self).wf(),
        ensures
            final(self).appended(*old(self), msub_word(rd, rn, rm, ra)),
    {
        self.push4(0x9B008000u32 | (rm << 16u32) | (ra << 10u32) | (rn << 5u32) | rd);
    }

    /// `sdiv xd, xn, xm`
    pub fn sdiv(&mut self, rd: u32, rn: u32, rm: u32)
        requires
            old(self).wf(),
        ensures
            final(self).appended(*old(self), sdiv_word(rd, rn, rm)),
    {
        self.push4(0x9AC00C00u32 | (rm << 16u32) | (rn << 5u32) | rd);
    }

    /// `asr xd, xn, #s` (arithmetic shift right by `s mod 64`)
    pub fn asr_imm(&mut self, rd: u32, rn: u32, s: u32)
        requires
            old(self).wf(),
        ensures
            final(self).appended(*old(self), asr_imm_word(rd, rn, s)),
    {
        self.push4(0x93400000u32 | ((s & 63) << 16u32) | (63u32 << 10u32) | (rn << 5u32) | rd);
    }

    /// `cset xd, cond`
    pub fn cset(&mut self, rd: u32, cond: Cond)
        requires
            old(self).wf(),
        ensures
            final(self).appended(*old(self), cset_word(rd, cond)),
    {
        self.push4(0x9A800400u32 | (XZR << 16u32) | (cond.invert() << 12u32) | (XZR << 5u32) | rd);
    }

    /// `orr xd, xn, xm`
    pub fn orr_reg(&mut self, rd: u32, rn: u32, rm: u32)
        requires
            old(self).wf(),
        ensures
            final(self).appended(*old(self), orr_word(rd, rn, rm)),
    {
        self.push4(0xAA000000u32 | (rm << 16u32) | (rn << 5u32) | rd);
    }

    /// `ldr xt, [xn, #byte_off]`
    pub fn ldr_off(&mut self, xt: u32, xn: u32, byte_off: i64)
        requires
            old(self).wf(),
            byte_off >= 0,
            byte_off % 8 == 0,
            byte_off < 32760,
        ensures
            final(self).appended(*old(self), ldr_word(xt, xn, (byte_off / 8) as u32)),
    {
        self.push4(0xF9400000u32 | (((byte_off as u32) / 8) << 10u32) | (xn << 5u32) | xt);
    }

    /// `str xzr, [xn], #8` (post-index zero store, used by frame zero-init)
    pub fn str_xzr_post8(&mut self, xn: u32)
        requires
            old(self).wf(),
        ensures
            final(self).appended(*old(self), str_xzr_post8_word(xn)),
    {
        self.push4(0xF8000000u32 | (8u32 << 12u32) | (1u32 << 10u32) | (xn << 5u32) | 31);
    }

    /// `str xt, [xn, #byte_off]`
    pub fn str_off(&mut self, xt: u32, xn: u32, byte_off: i64)
        requires
            old(self).wf(),
            byte_off >= 0,
            byte_off % 8 == 0,
            byte_off < 32760,
        ensures
            final(self).appended(*old(self), str_word(xt, xn, (byte_off / 8) as u32)),
    {
        self.push4(0xF9000000u32 | (((byte_off as u32) / 8) << 10u32) | (xn << 5u32) | xt);
    }

    /// Store into local frame slot `slot` at `[sp, #8 * slot]` (the frame is reserved in the prologue; sp stays fixed inside the body).
    pub fn str_slot(&mut self, xt: u32, slot: u32)
        requires
            old(self).wf(),
            8 * slot < 32760,
        ensures
            final(self).appended(*old(self), str_word(xt, RSP, slot)),
    {
        self.push4(0xF9000000u32 | (slot << 10u32) | (RSP << 5u32) | xt);
    }

    /// Load from local frame slot `slot` at `[sp, #8 * slot]`.
    pub fn ldr_slot(&mut self, xt: u32, slot: u32)
        requires
            old(self).wf(),
            8 * slot < 32760,
        ensures
            final(self).appended(*old(self), ldr_word(xt, RSP, slot)),
    {
        self.push4(0xF9400000u32 | (slot << 10u32) | (RSP << 5u32) | xt);
    }

    /// `sub sp, sp, x9` (x9 = byte count; used for dynamic frame sizes)
    pub fn sub_sp_reg(&mut self)
        requires
            old(self).wf(),
        ensures
            final(self).appended(*old(self), sub_sp_x9_word()),
    {
        self.push4(0xCB2963FFu32);
    }

    /// `add sp, sp, x9`
    pub fn add_sp_reg(&mut self)
        requires
            old(self).wf(),
        ensures
            final(self).appended(*old(self), add_sp_x9_word()),
    {
        self.push4(0x8B2963FFu32);
    }

    /// `stp x29, x30, [sp, #-16]!`
    pub fn stp_fp_lr(&mut self)
        requires
            old(self).wf(),
        ensures
            final(self).appended(*old(self), stp_fp_lr_word()),
    {
        self.push4(0xA9800000u32 | ((0xFFFF_FFFEu32 & 0x7F) << 15u32) | (R30_LR << 10u32) | (RSP << 5u32) | R29_FP);
    }

    /// `blr xn`
    pub fn blr(&mut self, xn: u32)
        requires
            old(self).wf(),
        ensures
            final(self).appended(*old(self), blr_word(xn)),
    {
        self.push4(0xD63F0000u32 | (xn << 5u32));
    }

    /// `br xn`
    pub fn br(&mut self, xn: u32)
        requires
            old(self).wf(),
        ensures
            final(self).appended(*old(self), br_word(xn)),
    {
        self.push4(0xD61F0000u32 | (xn << 5u32));
    }

    /// `ret`
    pub fn ret(&mut self)
        requires
            old(self).wf(),
        ensures
            final(self).appended(*old(self), ret_word()),
    {
        self.push4(0xD65F03C0u32);
    }

}

} // verus!

verus! {

impl CodeBuf {
    /// `ldp x29, x30, [sp], #16 ; ret`
    pub fn ldp_fp_lr_ret(&mut self)
        requires
            old(self).wf(),
        ensures
            final(self).wf(),
            final(self).same_tables(*old(self)),
            final(self).bytes() == old(self).bytes() + le_bytes(ldp_fp_lr_word()) + le_bytes(ret_word()),
    {
        self.push4(0xA8C00000u32 | (2u32 << 15u32) | (R30_LR << 10u32) | (RSP << 5u32) | R29_FP);
        self.push4(0xD65F03C0u32);
    }

    /// `sub sp, sp, #bytes`
    pub fn sub_sp_frame(&mut self, bytes: u32)
        requires
            old(self).wf(),
            bytes % 16 == 0,
            bytes < 4096,
        ensures
            final(self).appended(*old(self), sub_imm_word(RSP, RSP, bytes)),
    {
        self.sub_imm(RSP, RSP, bytes);
    }

    /// `add sp, sp, #bytes`
    pub fn add_sp_frame(&mut self, bytes: u32)
        requires
            old(self).wf(),
            bytes % 16 == 0,
            bytes < 4096,
        ensures
            final(self).appended(*old(self), add_imm_word(RSP, RSP, bytes)),
    {
        self.add_imm(RSP, RSP, bytes);
    }

    /// `mov x29, sp` (an `add`, since `orr` cannot read sp)
    pub fn mov_sp_fp(&mut self)
        requires
            old(self).wf(),
        ensures
            final(self).appended(*old(self), add_imm_word(R29_FP, RSP, 0)),
    {
        self.add_imm(R29_FP, RSP, 0);
    }

    /// Rewrites the instruction at byte offset `pos` to `movz x9, #imm16`.
    pub fn patch_movz_imm16(&mut self, pos: usize, imm16: u16)
        requires
            old(self).wf(),
            pos + 4 <= old(self).bytes().len(),
        ensures
            final(self).wf(),
            final(self).same_tables(*old(self)),
            final(self).bytes() == old(self).bytes().subrange(0, pos as int) + le_bytes(movz_word(R9, imm16, 0))
                + old(self).bytes().subrange(pos + 4, old(self).bytes().len() as int),
    {
        let insn = 0xD2800000u32 | ((imm16 as u32) << 5u32) | R9;
        proof {
            assert(insn == movz_word(R9, imm16, 0)) by (bit_vector)
                requires
                    insn == 0xD2800000u32 | ((imm16 as u32) << 5u32) | 9u32,
                    movz_word(R9, imm16, 0) == 0xD2800000u32 | (0u32 << 21u32) | ((imm16 as u32) << 5u32) | 9u32,
            ;
        }
        self.patch32(pos, insn);
    }

    /// Loads the constant `v` into `rd` with `movz` and the `movk`s it needs
    /// (see [`lemma_load_const_sets_register`]).
    pub fn load_const_u64(&mut self, rd: u32, v: u64)
        requires
            old(self).wf(),
        ensures
            old(self).grows(*final(self)),
            final(self).wf(),
            final(self).same_tables(*old(self)),
            final(self).bytes() == old(self).bytes() + words_bytes(load_const_words(rd, v)),
    {
        let ghost start = self.bytes();
        if v <= 0xFFFF {
            self.movz(rd, v as u16, 0);
            proof {
                reveal_with_fuel(words_bytes, 2);
                assert(seq![movz_word(rd, v as u16, 0)].drop_last() =~= Seq::<u32>::empty());
            }
        } else {
            let ghost mut ws: Seq<u32> = seq![];
            self.movz(rd, (v & 0xFFFF) as u16, 0);
            proof {
                lemma_words_bytes_push(ws, movz_word(rd, (v & 0xFFFF) as u16, 0));
                assert(words_bytes(ws) =~= Seq::<u8>::empty());
                ws = ws.push(movz_word(rd, (v & 0xFFFF) as u16, 0));
            }
            if (v >> 16) & 0xFFFF != 0 {
                self.movk(rd, ((v >> 16) & 0xFFFF) as u16, 1);
                proof {
                    lemma_words_bytes_push(ws, movk_word(rd, ((v >> 16u64) & 0xFFFF) as u16, 1));
                    ws = ws.push(movk_word(rd, ((v >> 16u64) & 0xFFFF) as u16, 1));
                }
            }
            if (v >> 32) & 0xFFFF != 0 {
                self.movk(rd, ((v >> 32) & 0xFFFF) as u16, 2);
                proof {
                    lemma_words_bytes_push(ws, movk_word(rd, ((v >> 32u64) & 0xFFFF) as u16, 2));
                    ws = ws.push(movk_word(rd, ((v >> 32u64) & 0xFFFF) as u16, 2));
                }
            }
            if (v >> 48) != 0 {
                self.movk(rd, ((v >> 48) & 0xFFFF) as u16, 3);
                proof {
                    lemma_words_bytes_push(ws, movk_word(rd, ((v >> 48u64) & 0xFFFF) as u16, 3));
                    ws = ws.push(movk_word(rd, ((v >> 48u64) & 0xFFFF) as u16, 3));
                }
            }
            proof {
                assert(ws =~= load_const_words(rd, v));
            }
        }
    }

    /// Loads the constant `v` (as its two's complement bits) into `rd`.
    pub fn load_const_i64(&mut self, rd: u32, v: i64)
        requires
            old(self).wf(),
        ensures
            old(self).grows(*final(self)),
            final(self).wf(),
            final(self).same_tables(*old(self)),
            final(self).bytes() == old(self).bytes() + words_bytes(load_const_words(rd, v as u64)),
    {
        self.load_const_u64(rd, v as u64);
    }
}

} // verus!

verus! {

impl CodeBuf {
    /// The GOT slot of `key`, added at the end if it is new.
    fn intern_got_slot(&mut self, key: LitTarget) -> (r: usize)
        requires
            old(self).wf(),
        ensures
            final(self).wf(),
            final(self).code == old(self).code,
            final(self).labels@ == old(self).labels@,
            final(self).fixups@ == old(self).fixups@,
            final(self).adrp_refs@ == old(self).adrp_refs@,
            (exists|i: int| 0 <= i < old(self).got_slots@.len() && same_target(old(self).got_slots@[i], key))
                ==> final(self).got_slots@ == old(self).got_slots@,
            !(exists|i: int| 0 <= i < old(self).got_slots@.len() && same_target(old(self).got_slots@[i], key))
                ==> final(self).got_slots@ == old(self).got_slots@.push(key),
            r < final(self).got_slots@.len(),
            same_target(final(self).got_slots@[r as int], key),
    {
        let mut i: usize = 0;
        while i < self.got_slots.len()
            invariant
                *self == *old(self),
                self.wf(),
                i <= self.got_slots@.len(),
                forall|j: int| 0 <= j < i ==> !same_target(self.got_slots@[j], key),
            decreases self.got_slots@.len() - i,
        {
            if same_target_exec(&self.got_slots[i], &key) {
                return i;
            }
            i = i + 1;
        }
        let idx = self.got_slots.len();
        self.got_slots.push(key);
        proof {
            assert forall|a: int, b: int| 0 <= a < b < self.got_slots@.len() implies !same_target(
                #[trigger] self.got_slots@[a], #[trigger] self.got_slots@[b]) by {
                if b == idx {
                    match (self.got_slots@[a], self.got_slots@[b]) {
                        (LitTarget::Extern(x), LitTarget::Extern(y)) => {}
                        _ => {}
                    }
                }
            }
        }
        idx
    }

    fn emit_adrp_ldr_got(&mut self, xt: u32, key: LitTarget)
        requires
            old(self).wf(),
        ensures
            final(self).wf(),
            final(self).bytes() == old(self).bytes() + le_bytes(adrp_word(xt)) + le_bytes(ldr_word(xt, xt, 0)),
            final(self).labels@ == old(self).labels@,
            final(self).fixups@ == old(self).fixups@,
            (exists|i: int| 0 <= i < old(self).got_slots@.len() && same_target(old(self).got_slots@[i], key))
                ==> final(self).got_slots@ == old(self).got_slots@,
            !(exists|i: int| 0 <= i < old(self).got_slots@.len() && same_target(old(self).got_slots@[i], key))
                ==> final(self).got_slots@ == old(self).got_slots@.push(key),
            final(self).adrp_refs@.len() == old(self).adrp_refs@.len() + 1,
            final(self).adrp_refs@.drop_last() == old(self).adrp_refs@,
            final(self).adrp_refs@.last().pos == old(self).bytes().len(),
            final(self).adrp_refs@.last().reg == xt,
            same_target(final(self).got_slots@[final(self).adrp_refs@.last().slot as int], key),
    {
        let slot = self.intern_got_slot(key);
        let pos = self.here();
        self.push4(0x90000000u32 | xt);
        self.push4(0xF9400000u32 | (xt << 5u32) | xt);
        proof {
            assert(0xF9400000u32 | (xt << 5u32) | xt == ldr_word(xt, xt, 0)) by (bit_vector);
        }
        self.adrp_refs.push(AdrpRef { pos, reg: xt, slot });
        proof {
            assert(self.adrp_refs@.drop_last() =~= old(self).adrp_refs@);
        }
    }

    /// Loads the address of the external symbol `sym` into `xt` through
    /// its GOT slot (`adrp` + `ldr`).
    pub fn ldr_lit_extern(&mut self, xt: u32, sym: &str)
        requires
            old(self).wf(),
        ensures
            old(self).grows(*final(self)),
            final(self).wf(),
            final(self).bytes() == old(self).bytes() + le_bytes(adrp_word(xt)) + le_bytes(ldr_word(xt, xt, 0)),
            final(self).label_count() == old(self).label_count(),
            forall|k: int| 0 <= k < old(self).label_count() ==> final(self).label(k) == old(self).label(k),
            final(self).fixups() == old(self).fixups(),
            final(self).adrp_refs().len() == old(self).adrp_refs().len() + 1,
            final(self).adrp_refs().drop_last() == old(self).adrp_refs(),
            final(self).adrp_refs().last().pos == old(self).bytes().len(),
            final(self).adrp_refs().last().reg == xt,
            final(self).got_keys()[final(self).adrp_refs().last().slot as int] matches LitTarget::Extern(n)
                && n@ == sym@,
            has_extern_key(old(self).got_keys(), sym@) ==> final(self).got_keys()
                == old(self).got_keys(),
            !has_extern_key(old(self).got_keys(), sym@) ==> final(self).got_keys().len()
                == old(self).got_keys().len() + 1 && final(self).got_keys().drop_last() == old(self).got_keys(),
    {
        let key = LitTarget::Extern(String::from_str(sym));
        proof {
            assert(old(self).got_keys() == old(self).got_slots@);
        }
        self.emit_adrp_ldr_got(xt, key);
        proof {
            assert(self.got_slots@.drop_last() =~= old(self).got_slots@ || self.got_slots@ == old(self).got_slots@);
        }
    }

    /// Loads the address of the local text label `label` into `xt` through
    /// its GOT slot.
    pub fn ldr_lit_label(&mut self, xt: u32, label: u32)
        requires
            old(self).wf(),
        ensures
            old(self).grows(*final(self)),
            final(self).wf(),
            final(self).bytes() == old(self).bytes() + le_bytes(adrp_word(xt)) + le_bytes(ldr_word(xt, xt, 0)),
            final(self).label_count() == old(self).label_count(),
            forall|k: int| 0 <= k < old(self).label_count() ==> final(self).label(k) == old(self).label(k),
            final(self).fixups() == old(self).fixups(),
            final(self).adrp_refs().len() == old(self).adrp_refs().len() + 1,
            final(self).adrp_refs().drop_last() == old(self).adrp_refs(),
            final(self).adrp_refs().last().pos == old(self).bytes().len(),
            final(self).adrp_refs().last().reg == xt,
            final(self).got_keys()[final(self).adrp_refs().last().slot as int] == LitTarget::Label(label),
            has_got_key(old(self).got_keys(), LitTarget::Label(label)) ==> final(self).got_keys() == old(self).got_keys(),
            !has_got_key(old(self).got_keys(), LitTarget::Label(label)) ==> final(self).got_keys()
                == old(self).got_keys().push(LitTarget::Label(label)),
    {
        self.emit_adrp_ldr_got(xt, LitTarget::Label(label));
    }

    fn emit_branch(&mut self, label: u32, kind: FixKind)
        requires
            old(self).wf(),
        ensures
            old(self).grows(*final(self)),
            final(self).wf(),
            final(self).bytes() == old(self).bytes() + le_bytes(branch_placeholder(kind)),
            final(self).label_count() == old(self).label_count(),
            forall|k: int| 0 <= k < old(self).label_count() ==> final(self).label(k) == old(self).label(k),
            final(self).fixups() == old(self).fixups().push(Fixup { pos: old(self).bytes().len() as usize, label, kind }),
            final(self).got_keys() == old(self).got_keys(),
            final(self).adrp_refs() == old(self).adrp_refs(),
    {
        let pos = self.here();
        let w = match kind {
            FixKind::B => 0x14000000u32,
            FixKind::Bl => 0x94000000u32,
            FixKind::BCond(_) => 0x54000000u32,
            FixKind::Cbz(_) => 0xB4000000u32,
            FixKind::Cbnz(_) => 0xB5000000u32,
        };
        self.push4(w);
        self.fixups.push(Fixup { pos, label, kind });
    }

    /// `b label`
    pub fn b(&mut self, label: u32)
        requires
            old(self).wf(),
        ensures
            old(self).grows(*final(self)),
            final(self).wf(),
            final(self).bytes() == old(self).bytes() + le_bytes(branch_placeholder(FixKind::B)),
            final(self).label_count() == old(self).label_count(),
            forall|k: int| 0 <= k < old(self).label_count() ==> final(self).label(k) == old(self).label(k),
            final(self).fixups() == old(self).fixups().push(Fixup { pos: old(self).bytes().len() as usize, label, kind: FixKind::B }),
            final(self).got_keys() == old(self).got_keys(),
            final(self).adrp_refs() == old(self).adrp_refs(),
    {
        self.emit_branch(label, FixKind::B);
    }

    /// `bl label`
    pub fn bl(&mut self, label: u32)
        requires
            old(self).wf(),
        ensures
            old(self).grows(*final(self)),
            final(self).wf(),
            final(self).bytes() == old(self).bytes() + le_bytes(branch_placeholder(FixKind::Bl)),
            final(self).label_count() == old(self).label_count(),
            forall|k: int| 0 <= k < old(self).label_count() ==> final(self).label(k) == old(self).label(k),
            final(self).fixups() == old(self).fixups().push(Fixup { pos: old(self).bytes().len() as usize, label, kind: FixKind::Bl }),
            final(self).got_keys() == old(self).got_keys(),
            final(self).adrp_refs() == old(self).adrp_refs(),
    {
        self.emit_branch(label, FixKind::Bl);
    }

    /// `b.cond label`
    pub fn b_cond(&mut self, cond: Cond, label: u32)
        requires
            old(self).wf(),
        ensures
            old(self).grows(*final(self)),
            final(self).wf(),
            final(self).bytes() == old(self).bytes() + le_bytes(0x54000000u32),
            final(self).label_count() == old(self).label_count(),
            forall|k: int| 0 <= k < old(self).label_count() ==> final(self).label(k) == old(self).label(k),
            final(self).fixups() == old(self).fixups().push(
                Fixup { pos: old(self).bytes().len() as usize, label, kind: FixKind::BCond(cond_bits(cond)) }),
            final(self).got_keys() == old(self).got_keys(),
            final(self).adrp_refs() == old(self).adrp_refs(),
    {
        self.emit_branch(label, FixKind::BCond(cond.code()));
    }

    /// `cbz xt, label`
    pub fn cbz(&mut self, rt: u32, label: u32)
        requires
            old(self).wf(),
        ensures
            old(self).grows(*final(self)),
            final(self).wf(),
            final(self).bytes() == old(self).bytes() + le_bytes(0xB4000000u32),
            final(self).label_count() == old(self).label_count(),
            forall|k: int| 0 <= k < old(self).label_count() ==> final(self).label(k) == old(self).label(k),
            final(self).fixups() == old(self).fixups().push(Fixup { pos: old(self).bytes().len() as usize, label, kind: FixKind::Cbz(rt) }),
            final(self).got_keys() == old(self).got_keys(),
            final(self).adrp_refs() == old(self).adrp_refs(),
    {
        self.emit_branch(label, FixKind::Cbz(rt));
    }

    /// `cbnz xt, label`
    pub fn cbnz(&mut self, rt: u32, label: u32)
        requires
            old(self).wf(),
        ensures
            old(self).grows(*final(self)),
            final(self).wf(),
            final(self).bytes() == old(self).bytes() + le_bytes(0xB5000000u32),
            final(self).label_count() == old(self).label_count(),
            forall|k: int| 0 <= k < old(self).label_count() ==> final(self).label(k) == old(self).label(k),
            final(self).fixups() == old(self).fixups().push(Fixup { pos: old(self).bytes().len() as usize, label, kind: FixKind::Cbnz(rt) }),
            final(self).got_keys() == old(self).got_keys(),
            final(self).adrp_refs() == old(self).adrp_refs(),
    {
        self.emit_branch(label, FixKind::Cbnz(rt));
    }
}

} // verus!

verus! {

/// Result of assembling the whole program text section.
pub struct FinishedCode {
    pub code: Vec<u8>,
    /// resolved label positions: (label id, byte offset)
    pub label_offsets: Vec<(u32, usize)>,
    /// (key, target symbol name) per GOT slot, in order
    pub got_slots: Vec<(LitTarget, String)>,
    /// ADRP instruction positions, register and GOT slot index, in emission order
    pub adrp_refs: Vec<(usize, u32, usize)>,
}

/// Ids and offsets of the placed labels among `labels[i..]`, in order.
pub open spec fn placed_from(labels: Seq<Option<usize>>, i: int) -> Seq<(u32, usize)>
    decreases labels.len() - i,
{
    if i < 0 || i >= labels.len() {
        seq![]
    } else {
        match labels[i] {
            Some(o) => seq![(i as u32, o)] + placed_from(labels, i + 1),
            None => placed_from(labels, i + 1),
        }
    }
}

proof fn lemma_placed_from(labels: Seq<Option<usize>>, i: int)
    requires
        0 <= i <= labels.len(),
        labels.len() <= 0x1_0000_0000,
    ensures
        forall|j: int| 0 <= j < placed_from(labels, i).len() ==> {
            let (l, o) = #[trigger] placed_from(labels, i)[j];
            &&& i <= l < labels.len()
            &&& labels[l as int] == Some(o)
        },
        forall|j: int, k: int| 0 <= j < k < placed_from(labels, i).len() ==> #[trigger] placed_from(labels, i)[j].0
            < #[trigger] placed_from(labels, i)[k].0,
        forall|l: int| i <= l < labels.len() && #[trigger] labels[l] is Some ==> exists|j: int|
            0 <= j < placed_from(labels, i).len() && placed_from(labels, i)[j] == (l as u32, labels[l].unwrap()),
    decreases labels.len() - i,
{
    if i < labels.len() {
        lemma_placed_from(labels, i + 1);
        let rest = placed_from(labels, i + 1);
        let p = placed_from(labels, i);
        match labels[i] {
            Some(o) => {
                assert(p == seq![(i as u32, o)] + rest);
                assert forall|j: int| 0 <= j < p.len() implies {
                    let (l, o2) = #[trigger] p[j];
                    &&& i <= l < labels.len()
                    &&& labels[l as int] == Some(o2)
                } by {
                    if j > 0 {
                        assert(p[j] == rest[j - 1]);
                    }
                }
                assert forall|j: int, k: int| 0 <= j < k < p.len() implies #[trigger] p[j].0 < #[trigger] p[k].0 by {
                    assert(p[k] == rest[k - 1]);
                    if j > 0 {
                        assert(p[j] == rest[j - 1]);
                    }
                }
                assert forall|l: int| i <= l < labels.len() && #[trigger] labels[l] is Some implies exists|j: int|
                    0 <= j < p.len() && p[j] == (l as u32, labels[l].unwrap()) by {
                    if l == i {
                        assert(p[0] == (l as u32, labels[l].unwrap()));
                    } else {
                        let j = choose|j: int| 0 <= j < rest.len() && rest[j] == (l as u32, labels[l].unwrap());
                        assert(p[j + 1] == rest[j]);
                    }
                }
            },
            None => {
                assert(p == rest);
            },
        }
    }
}

/// The first name given to label `l` in `syms[i..]`.
pub open spec fn name_in(syms: Seq<(u32, String)>, l: u32, i: int) -> Option<Seq<char>>
    decreases syms.len() - i,
{
    if i < 0 || i >= syms.len() {
        None
    } else if syms[i].0 == l {
        Some(syms[i].1@)
    } else {
        name_in(syms, l, i + 1)
    }
}

/// The symbol a GOT slot points at.
pub open spec fn got_name(key: LitTarget, syms: Seq<(u32, String)>) -> Option<Seq<char>> {
    match key {
        LitTarget::Extern(n) => Some(n@),
        LitTarget::Label(l) => name_in(syms, l, 0),
        LitTarget::Got(_) => None,
    }
}

/// Whether byte `k` lies in the word of one of the fixups.
pub open spec fn in_fixup_word(fs: Seq<Fixup>, k: int) -> bool {
    exists|j: int| 0 <= j < fs.len() && (#[trigger] fs[j]).pos <= k < fs[j].pos + 4
}

impl CodeBuf {
    /// The placed labels: (id, offset), by id.
    pub closed spec fn placed_labels(&self) -> Seq<(u32, usize)> {
        placed_from(self.labels@, 0)
    }

    /// The placed labels are exactly the labels with an offset, each with
    /// its offset, in increasing order of id.
    pub proof fn lemma_placed_labels(&self)
        requires
            self.label_count() <= 0x1_0000_0000,
        ensures
            forall|j: int| 0 <= j < self.placed_labels().len() ==> {
                let (l, o) = #[trigger] self.placed_labels()[j];
                &&& (l as int) < self.label_count()
                &&& self.label(l as int) == Some(o)
            },
            forall|j: int, k: int| 0 <= j < k < self.placed_labels().len() ==> #[trigger] self.placed_labels()[j].0
                < #[trigger] self.placed_labels()[k].0,
            forall|l: int| 0 <= l < self.label_count() && #[trigger] self.label(l) is Some ==> exists|j: int|
                0 <= j < self.placed_labels().len() && self.placed_labels()[j] == (l as u32, self.label(l).unwrap()),
    {
        lemma_placed_from(self.labels@, 0);
    }

    /// The byte distance from a fixup to its (placed) target.
    pub open spec fn fix_delta(&self, f: Fixup) -> i64 {
        (self.label(f.label as int).unwrap() as int - f.pos as int) as i64
    }

    /// Whether a fixup's target is placed and within reach.
    pub open spec fn fixup_ok(&self, f: Fixup) -> bool {
        &&& (f.label as int) < self.label_count()
        &&& self.label(f.label as int) is Some
        &&& in_range(f.kind, self.fix_delta(f))
    }

    /// Whether `finish` succeeds: every branch target placed and in reach,
    /// every GOT slot named.
    pub open spec fn resolvable(&self, syms: Seq<(u32, String)>) -> bool {
        &&& self.bytes().len() <= i64::MAX
        &&& forall|i: int| 0 <= i < self.fixups().len() ==> self.fixup_ok(#[trigger] self.fixups()[i])
        &&& forall|i: int| 0 <= i < self.got_keys().len() ==> got_name(#[trigger] self.got_keys()[i], syms) is Some
    }
}

fn name_of_label(syms: &Vec<(u32, String)>, l: u32) -> (r: Option<String>)
    ensures
        match name_in(syms@, l, 0) {
            Some(n) => r matches Some(s) && s@ == n,
            None => r is None,
        },
{
    let mut i: usize = 0;
    while i < syms.len()
        invariant
            i <= syms.len(),
            name_in(syms@, l, 0) == name_in(syms@, l, i as int),
        decreases syms.len() - i,
    {
        if syms[i].0 == l {
            return Some(syms[i].1.clone());
        }
        i = i + 1;
    }
    None
}

fn patch_word(code: &mut Vec<u8>, pos: usize, insn: u32)
    requires
        pos + 4 <= old(code)@.len(),
    ensures
        final(code)@ == old(code)@.subrange(0, pos as int) + le_bytes(insn)
            + old(code)@.subrange(pos + 4, old(code)@.len() as int),
{
    let _n = code.len();
    let (p1, p2, p3) = (pos + 1, pos + 2, pos + 3);
    code.set(pos, (insn & 0xff) as u8);
    code.set(p1, ((insn >> 8) & 0xff) as u8);
    code.set(p2, ((insn >> 16) & 0xff) as u8);
    code.set(p3, ((insn >> 24) & 0xff) as u8);
    proof {
        assert(code@ =~= old(code)@.subrange(0, pos as int) + le_bytes(insn)
            + old(code)@.subrange(pos + 4, old(code)@.len() as int));
    }
}

fn branch_insn(kind: FixKind, delta: i64) -> (w: u32)
    ensures
        w == branch_word(kind, delta),
{
    let imm26 = ((delta >> 2i64) as u32) & 0x03FF_FFFF;
    let imm19 = ((delta >> 2i64) as u32) & 0x7FFFF;
    match kind {
        FixKind::B => 0x14000000u32 | imm26,
        FixKind::Bl => 0x94000000u32 | imm26,
        FixKind::BCond(c) => 0x54000000u32 | (imm19 << 5u32) | c,
        FixKind::Cbz(rt) => 0xB4000000u32 | (imm19 << 5u32) | rt,
        FixKind::Cbnz(rt) => 0xB5000000u32 | (imm19 << 5u32) | rt,
    }
}

} // verus!

verus! {

impl CodeBuf {
    /// Every branch target is placed and within reach.
    pub open spec fn fixups_resolved(&self) -> bool {
        &&& self.bytes().len() <= i64::MAX
        &&& forall|i: int| 0 <= i < self.fixups().len() ==> self.fixup_ok(#[trigger] self.fixups()[i])
    }

    /// Checks that every branch target is placed and within reach, which
    /// [`CodeBuf::finish`] needs: the error names the first that is not.
    pub fn check_fixups(&self) -> (r: Result<(), String>)
        requires
            self.wf(),
        ensures
            r is Ok <==> self.fixups_resolved(),
            r matches Err(m) ==> m@ == "unbound label referenced"@ || m@ == "conditional branch out of range"@
                || m@ == "code section too large"@,
    {
        let ghost me = *self;
        let fixups = &self.fixups;
        let labels = &self.labels;
        let n = self.code.len();
        if n as u64 > 0x7FFF_FFFF_FFFF_FFFFu64 {
            return Err(String::from_str("code section too large"));
        }
        // every branch target must be placed and within reach
        let mut i: usize = 0;
        while i < fixups.len()
            invariant
                me == *self,
                self.wf(),
                fixups@ == me.fixups(),
                labels@ == me.labels@,
                n == me.bytes().len(),
                n <= i64::MAX,
                i <= fixups@.len(),
                forall|j: int| 0 <= j < i ==> me.fixup_ok(#[trigger] me.fixups()[j]),
            decreases fixups@.len() - i,
        {
            let f = &fixups[i];
            if f.label as usize >= labels.len() {
                proof {
                    assert(!me.fixup_ok(me.fixups()[i as int]));
                    assert(!me.fixups_resolved());
                }
                return Err(String::from_str("unbound label referenced"));
            }
            match labels[f.label as usize] {
                None => {
                    proof {
                        assert(!me.fixup_ok(me.fixups()[i as int]));
                    assert(!me.fixups_resolved());
                    }
                    return Err(String::from_str("unbound label referenced"));
                }
                Some(t) => {
                    let delta = t as i64 - f.pos as i64;
                    let far = match f.kind {
                        FixKind::BCond(_) => delta < -0x10_0000 || delta > 0x10_0000,
                        _ => false,
                    };
                    if far {
                        proof {
                            assert(!me.fixup_ok(me.fixups()[i as int]));
                    assert(!me.fixups_resolved());
                        }
                        return Err(String::from_str("conditional branch out of range"));
                    }
                }
            }
            i = i + 1;
        }
        Ok(())
    }

    /// Patches every branch with the distance to its target and collects
    /// the label offsets, the GOT slots with their symbol names (a label's
    /// name comes from `label_syms`) and the ADRP + LDR pairs.  Call after
    /// all code has been emitted.
    pub fn finish(self, label_syms: &Vec<(u32, String)>) -> (r: Result<FinishedCode, String>)
        requires
            self.wf(),
            self.fixups_resolved(),
        ensures
            r is Ok <==> self.resolvable(label_syms@),
            r matches Ok(fc) ==> {
                &&& fc.code@.len() == self.bytes().len()
                &&& forall|i: int| 0 <= i < self.fixups().len() ==> fc.code@.subrange(
                    (#[trigger] self.fixups()[i]).pos as int, self.fixups()[i].pos + 4)
                    == le_bytes(branch_word(self.fixups()[i].kind, self.fix_delta(self.fixups()[i])))
                &&& forall|k: int| 0 <= k < self.bytes().len() && !in_fixup_word(self.fixups(), k)
                    ==> #[trigger] fc.code@[k] == self.bytes()[k]
                &&& fc.label_offsets@ == self.placed_labels()
                &&& fc.got_slots@.len() == self.got_keys().len()
                &&& forall|i: int| 0 <= i < fc.got_slots@.len() ==> (#[trigger] fc.got_slots@[i]).0 == self.got_keys()[i]
                    && got_name(self.got_keys()[i], label_syms@) == Some(fc.got_slots@[i].1@)
                &&& fc.adrp_refs@.len() == self.adrp_refs().len()
                &&& forall|i: int| 0 <= i < fc.adrp_refs@.len() ==> #[trigger] fc.adrp_refs@[i] == (
                    self.adrp_refs()[i].pos, self.adrp_refs()[i].reg, self.adrp_refs()[i].slot)
            },
    {
        let ghost me = self;
        assert(me == self);
        let CodeBuf { code, labels, fixups, got_slots, adrp_refs } = self;
        let n = code.len();
        if n as u64 > 0x7FFF_FFFF_FFFF_FFFFu64 {
            return Err(String::from_str("code section too large"));
        }
        // every GOT slot must have a symbol
        let mut got: Vec<(LitTarget, String)> = Vec::new();
        let mut g: usize = 0;
        while g < got_slots.len()
            invariant
                me == self,
                got_slots@ == me.got_keys(),
                g <= got_slots@.len(),
                got@.len() == g,
                forall|j: int| 0 <= j < g ==> (#[trigger] got@[j]).0 == me.got_keys()[j]
                    && got_name(me.got_keys()[j], label_syms@) == Some(got@[j].1@),
            decreases got_slots@.len() - g,
        {
            let name = match &got_slots[g] {
                LitTarget::Extern(s) => s.clone(),
                LitTarget::Label(l) => match name_of_label(label_syms, *l) {
                    Some(s) => s,
                    None => {
                        proof {
                            assert(got_name(me.got_keys()[g as int], label_syms@) is None);
                            assert(!me.resolvable(label_syms@));
                        }
                        return Err(String::from_str("label known"));
                    }
                },
                LitTarget::Got(_) => {
                    proof {
                        assert(got_name(me.got_keys()[g as int], label_syms@) is None);
                        assert(!me.resolvable(label_syms@));
                    }
                    return Err(String::from_str("GOT slot without a symbol"));
                }
            };
            got.push((clone_target(&got_slots[g]), name));
            g = g + 1;
        }
        // patch the branches
        let mut code = code;
        let mut i: usize = 0;
        while i < fixups.len()
            invariant
                me == self,
                me.wf(),
                fixups@ == me.fixups(),
                labels@ == me.labels@,
                n == me.bytes().len(),
                n <= i64::MAX,
                code@.len() == n,
                i <= fixups@.len(),
                forall|j: int| 0 <= j < fixups@.len() ==> me.fixup_ok(#[trigger] me.fixups()[j]),
                forall|j: int| 0 <= j < i ==> code@.subrange((#[trigger] me.fixups()[j]).pos as int, me.fixups()[j].pos + 4)
                    == le_bytes(branch_word(me.fixups()[j].kind, me.fix_delta(me.fixups()[j]))),
                forall|k: int| 0 <= k < n && !in_fixup_word(me.fixups().subrange(0, i as int), k)
                    ==> #[trigger] code@[k] == me.bytes()[k],
            decreases fixups@.len() - i,
        {
            let f = &fixups[i];
            let t = match labels[f.label as usize] {
                Some(t) => t,
                None => 0,
            };
            let delta = t as i64 - f.pos as i64;
            let w = branch_insn(f.kind, delta);
            let ghost before = code@;
            patch_word(&mut code, f.pos, w);
            proof {
                let fs = me.fixups();
                assert forall|j: int| 0 <= j < i + 1 implies code@.subrange((#[trigger] fs[j]).pos as int, fs[j].pos + 4)
                    == le_bytes(branch_word(fs[j].kind, me.fix_delta(fs[j]))) by {
                    if j < i {
                        assert(fs[j].pos + 4 <= fs[i as int].pos);
                        assert(code@.subrange(fs[j].pos as int, fs[j].pos + 4) =~= before.subrange(fs[j].pos as int, fs[j].pos + 4));
                    } else {
                        assert(code@.subrange(fs[j].pos as int, fs[j].pos + 4) =~= le_bytes(w));
                    }
                }
                assert forall|k: int| 0 <= k < n && !in_fixup_word(fs.subrange(0, i + 1), k)
                    implies #[trigger] code@[k] == me.bytes()[k] by {
                    let sub = fs.subrange(0, i + 1);
                    assert(sub[i as int] == fs[i as int]);
                    if fs[i as int].pos <= k < fs[i as int].pos + 4 {
                        assert(in_fixup_word(sub, k));
                    }
                    assert(!in_fixup_word(fs.subrange(0, i as int), k)) by {
                        if in_fixup_word(fs.subrange(0, i as int), k) {
                            let j = choose|j: int| 0 <= j < i && (#[trigger] fs.subrange(0, i as int)[j]).pos <= k
                                < fs.subrange(0, i as int)[j].pos + 4;
                            assert(sub[j] == fs.subrange(0, i as int)[j]);
                        }
                    }
                }
            }
            i = i + 1;
        }
        proof {
            assert(me.fixups().subrange(0, me.fixups().len() as int) =~= me.fixups());
        }
        // label offsets
        let mut offs: Vec<(u32, usize)> = Vec::new();
        let mut l: usize = 0;
        while l < labels.len()
            invariant
                labels@ == me.labels@,
                l <= labels@.len(),
                placed_from(labels@, 0) == offs@ + placed_from(labels@, l as int),
            decreases labels@.len() - l,
        {
            match labels[l] {
                Some(o) => {
                    proof {
                        assert(offs@ + placed_from(labels@, l as int) =~= offs@.push((l as u32, o))
                            + placed_from(labels@, l + 1));
                    }
                    offs.push((l as u32, o));
                }
                None => {}
            }
            l = l + 1;
        }
        proof {
            assert(offs@ + placed_from(labels@, l as int) =~= offs@);
        }
        // ADRP + LDR pairs
        let mut refs: Vec<(usize, u32, usize)> = Vec::new();
        let mut a: usize = 0;
        while a < adrp_refs.len()
            invariant
                adrp_refs@ == me.adrp_refs(),
                a <= adrp_refs@.len(),
                refs@.len() == a,
                forall|j: int| 0 <= j < a ==> #[trigger] refs@[j] == (me.adrp_refs()[j].pos, me.adrp_refs()[j].reg,
                    me.adrp_refs()[j].slot),
            decreases adrp_refs@.len() - a,
        {
            refs.push((adrp_refs[a].pos, adrp_refs[a].reg, adrp_refs[a].slot));
            a = a + 1;
        }
        proof {
            assert(me.bytes().len() <= i64::MAX);
            assert(forall|j: int| 0 <= j < me.fixups().len() ==> me.fixup_ok(#[trigger] me.fixups()[j]));
            assert forall|j: int| 0 <= j < me.got_keys().len() implies got_name(#[trigger] me.got_keys()[j], label_syms@) is Some by {
                assert(got@[j].0 == me.got_keys()[j]);
            }
        }
        Ok(FinishedCode { code, label_offsets: offs, got_slots: got, adrp_refs: refs })
    }
}

} // verus!
