use dacelo::codegen::{hdr, int_word_of};
use dacelo::encoder::{CodeBuf, Cond, LitTarget};
use dacelo::strings::{int_to_bytes, parse_int, trim_bounds};

fn words(code: &[u8]) -> Vec<u32> {
    code.chunks(4).map(|c| u32::from_le_bytes([c[0], c[1], c[2], c[3]])).collect()
}

#[test]
fn movz_and_movk_words() {
    let mut c = CodeBuf::new();
    c.movz(0, 0x1234, 0);
    c.movk(9, 0xBEEF, 3);
    assert_eq!(c.code, vec![0x80, 0x46, 0x82, 0xD2, 0xE9, 0xDD, 0xF7, 0xF2]);
}

#[test]
fn load_const_small_is_one_movz() {
    let mut c = CodeBuf::new();
    c.load_const_u64(1, 42);
    assert_eq!(words(&c.code), vec![0xD2800000 | (42 << 5) | 1]);
}

#[test]
fn load_const_skips_zero_half_words() {
    let mut c = CodeBuf::new();
    c.load_const_u64(9, 0x1_0000_0001);
    // movz x9, #1 ; movk x9, #1, lsl #32
    assert_eq!(words(&c.code), vec![0xD2800029, 0xF2C00029]);
}

#[test]
fn load_const_all_half_words() {
    let mut c = CodeBuf::new();
    c.load_const_u64(0, 0x1111_2222_3333_4444);
    assert_eq!(
        words(&c.code),
        vec![
            0xD2800000 | (0x4444 << 5),
            0xF2800000 | (1 << 21) | (0x3333 << 5),
            0xF2800000 | (2 << 21) | (0x2222 << 5),
            0xF2800000 | (3 << 21) | (0x1111 << 5),
        ]
    );
}

#[test]
fn load_const_negative_one() {
    let mut c = CodeBuf::new();
    c.load_const_i64(0, -1);
    assert_eq!(words(&c.code).len(), 4);
    assert_eq!(words(&c.code)[0], 0xD2800000 | (0xFFFF << 5));
}

#[test]
fn register_instruction_words() {
    let mut c = CodeBuf::new();
    c.mov(1, 0);
    c.add_imm(0, 0, 3);
    c.sub_imm(0, 0, 1);
    c.cmp_imm(0, 7);
    c.cmp_reg(0, 9);
    c.ret();
    c.blr(9);
    assert_eq!(
        words(&c.code),
        vec![0xAA0003E1, 0x91000C00, 0xD1000400, 0xF1001C1F, 0xEB09001F, 0xD65F03C0, 0xD63F0120]
    );
}

#[test]
fn frame_instruction_words() {
    let mut c = CodeBuf::new();
    c.stp_fp_lr();
    c.mov_sp_fp();
    c.ldp_fp_lr_ret();
    assert_eq!(words(&c.code), vec![0xA9BF7BFD, 0x910003FD, 0xA8C17BFD, 0xD65F03C0]);
}

#[test]
fn cset_uses_the_inverted_condition() {
    let mut c = CodeBuf::new();
    c.cset(0, Cond::Eq);
    // csinc x0, xzr, xzr, ne
    assert_eq!(words(&c.code), vec![0x9A9F17E0]);
}

#[test]
fn slots_address_the_stack() {
    let mut c = CodeBuf::new();
    c.str_slot(0, 2);
    c.ldr_slot(9, 2);
    c.ldr_off(9, 0, 8);
    assert_eq!(words(&c.code), vec![0xF9000BE0, 0xF9400BE9, 0xF9400409]);
}

#[test]
fn forward_branch_is_patched() {
    let mut c = CodeBuf::new();
    let l = c.new_label();
    assert_eq!(l, 8);
    c.b(l);
    c.ret();
    c.bind_label(l);
    c.ret();
    let f = c.finish(&Vec::new()).unwrap();
    // b +8
    assert_eq!(words(&f.code)[0], 0x14000002);
    assert_eq!(f.label_offsets, vec![(8, 8)]);
}

#[test]
fn backward_conditional_branch_is_patched() {
    let mut c = CodeBuf::new();
    let l = c.new_label();
    c.bind_label(l);
    c.ret();
    c.b_cond(Cond::Ne, l);
    let f = c.finish(&Vec::new()).unwrap();
    // b.ne -4: imm19 = 0x7FFFF
    assert_eq!(words(&f.code)[1], 0x54000000 | (0x7FFFF << 5) | 1);
}

#[test]
fn unbound_label_is_an_error() {
    let mut c = CodeBuf::new();
    let l = c.new_label();
    c.bl(l);
    assert_eq!(c.check_fixups().err(), Some("unbound label referenced".to_string()));
}

#[test]
fn got_slots_are_shared_per_symbol() {
    let mut c = CodeBuf::new();
    c.ldr_lit_extern(9, "_f");
    c.ldr_lit_extern(10, "_g");
    c.ldr_lit_extern(11, "_f");
    let f = c.finish(&Vec::new()).unwrap();
    assert_eq!(f.got_slots.len(), 2);
    assert_eq!(f.got_slots[0].1, "_f");
    assert_eq!(f.got_slots[1].1, "_g");
    assert_eq!(f.adrp_refs, vec![(0, 9, 0), (8, 10, 1), (16, 11, 0)]);
    assert_eq!(words(&f.code)[0], 0x90000009);
    assert_eq!(words(&f.code)[1], 0xF9400129);
}

#[test]
fn label_slots_take_their_names() {
    let mut c = CodeBuf::new();
    let l = c.new_label();
    c.ldr_lit_label(9, l);
    c.bind_label(l);
    c.ret();
    let missing = {
        let mut d = CodeBuf::new();
        let m = d.new_label();
        d.ldr_lit_label(9, m);
        d.finish(&Vec::new()).err()
    };
    assert_eq!(missing, Some("label known".to_string()));
    let f = c.finish(&vec![(l, "_L1".to_string())]).unwrap();
    match &f.got_slots[0].0 {
        LitTarget::Label(x) => assert_eq!(*x, l),
        _ => panic!("expected a label slot"),
    }
    assert_eq!(f.got_slots[0].1, "_L1");
}

#[test]
fn patch_movz_rewrites_the_frame_size() {
    let mut c = CodeBuf::new();
    c.load_const_u64(9, 0);
    c.sub_sp_reg();
    c.patch_movz_imm16(0, 64);
    assert_eq!(words(&c.code), vec![0xD2800000 | (64 << 5) | 9, 0xCB2963FF]);
}

#[test]
fn integer_words_are_tagged() {
    for n in [0i64, 1, -1, 42, -42, (1i64 << 61) - 1, -(1i64 << 61)] {
        let w = int_word_of(n);
        assert_eq!(w & 3, 1);
        assert_eq!(w >> 2, n);
    }
    assert_eq!(int_word_of(5), 21);
    let h = hdr(4, 3);
    assert_eq!(h & 0xFF, 4);
    assert_eq!(h >> 8, 3);
}

#[test]
fn decimal_spelling_reads_back() {
    for n in [0i64, 9, -9, 10, 123456789, i64::MAX, i64::MIN] {
        let b = int_to_bytes(n);
        assert_eq!(b, n.to_string().into_bytes());
        assert!(matches!(parse_int(&b), Ok(v) if v == n));
        assert_eq!(trim_bounds(&b), (0, b.len()));
    }
    let padded = " \t12\u{3000}".as_bytes().to_vec();
    let (i, j) = trim_bounds(&padded);
    assert_eq!(&padded[i..j], b"12");
}

fn imm26_offset(w: u32) -> i64 {
    ((((w & 0x03FF_FFFF) as i64) ^ 0x0200_0000) - 0x0200_0000) * 4
}

fn imm19_offset(w: u32) -> i64 {
    (((((w >> 5) & 0x7FFFF) as i64) ^ 0x4_0000) - 0x4_0000) * 4
}

#[test]
fn patched_branches_decode_to_their_distance() {
    let mut c = CodeBuf::new();
    let back = c.new_label();
    let fwd = c.new_label();
    c.bind_label(back);
    c.ret();
    c.ret();
    c.bl(fwd);
    c.cbz(3, back);
    c.b(back);
    c.ret();
    c.bind_label(fwd);
    c.ret();
    let f = c.finish(&Vec::new()).unwrap();
    let w = words(&f.code);
    assert_eq!(imm26_offset(w[2]), 16);
    assert_eq!(imm19_offset(w[3]), -12);
    assert_eq!(w[3] & 0x1F, 3);
    assert_eq!(imm26_offset(w[4]), -16);
}

#[test]
fn tagged_arithmetic_matches_integer_arithmetic() {
    let vals = [0i64, 1, -1, 7, -123456, (1i64 << 61) - 1, -(1i64 << 61), i64::MAX, i64::MIN];
    for &m in &vals {
        for &n in &vals {
            let (wm, wn) = (int_word_of(m), int_word_of(n));
            // add x0, x0, x1 ; sub x0, x0, #1
            assert_eq!(wm.wrapping_add(wn).wrapping_sub(1), int_word_of(m.wrapping_add(n)));
            // sub x0, x0, x1 ; add x0, x0, #1
            assert_eq!(wm.wrapping_sub(wn).wrapping_add(1), int_word_of(m.wrapping_sub(n)));
            // asr ; asr ; mul ; lsl #2 ; add #1
            assert_eq!(((wm >> 2).wrapping_mul(wn >> 2) << 2).wrapping_add(1), int_word_of(m.wrapping_mul(n)));
        }
    }
    assert_eq!((int_word_of(-5) >> 2) < (int_word_of(3) >> 2), -5 < 3);
}
