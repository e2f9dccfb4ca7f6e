use dacelo::codegen::Codegen;
use dacelo::lexer::lex;
use dacelo::macho::{ObjectBuilder, Reloc, RelocKind, Section};
use dacelo::parser::parse;

fn u32_at(b: &[u8], off: usize) -> u32 {
    u32::from_le_bytes([b[off], b[off + 1], b[off + 2], b[off + 3]])
}

#[test]
fn empty_object_layout() {
    let obj = ObjectBuilder::new();
    let b = obj.finish().unwrap();
    assert_eq!(u32_at(&b, 0), 0xFEEDFACF);
    assert_eq!(u32_at(&b, 4), 0x0100_000C);
    assert_eq!(u32_at(&b, 16), 3);
    assert_eq!(u32_at(&b, 20), 280);
    // data at 320, symbols at 320, string table of one NUL byte
    assert_eq!(b.len(), 321);
    assert_eq!(b[320], 0);
}

#[test]
fn symbols_locals_then_globals_then_undefined() {
    let mut obj = ObjectBuilder::new();
    obj.text = vec![0xC0, 0x03, 0x5F, 0xD6];
    obj.add_extern("_ext");
    obj.define("_main", Section::Text, 0, true);
    obj.define("_local", Section::Text, 0, false);
    let b = obj.finish().unwrap();
    // text at 312, data at 320, symbol table at 320
    assert_eq!(&b[312..316], &[0xC0, 0x03, 0x5F, 0xD6]);
    let symoff = u32_at(&b, 296) as usize;
    let nsyms = u32_at(&b, 300);
    let stroff = u32_at(&b, 304) as usize;
    assert_eq!(symoff, 320);
    assert_eq!(nsyms, 3);
    let name_of = |i: usize| {
        let s = u32_at(&b, symoff + 16 * i) as usize;
        let start = stroff + s;
        let end = start + b[start..].iter().position(|x| *x == 0).unwrap();
        String::from_utf8(b[start..end].to_vec()).unwrap()
    };
    assert_eq!(name_of(0), "_local");
    assert_eq!(name_of(1), "_main");
    assert_eq!(name_of(2), "_ext");
    assert_eq!(b[symoff + 4], 0x0E);
    assert_eq!(b[symoff + 16 + 4], 0x0F);
    assert_eq!(b[symoff + 32 + 4], 0x01);
}

#[test]
fn relocation_against_unknown_symbol() {
    let mut obj = ObjectBuilder::new();
    obj.text = vec![0; 8];
    obj.relocs_text.push(Reloc { offset: 0, sym_name: "_nope".to_string(), kind: RelocKind::GotLoadPage21 });
    assert_eq!(obj.finish().err(), Some("relocation against unknown symbol `_nope`".to_string()));
}

#[test]
fn relocation_entry_fields() {
    let mut obj = ObjectBuilder::new();
    obj.text = vec![0; 8];
    obj.add_extern("_f");
    obj.relocs_text.push(Reloc { offset: 4, sym_name: "_f".to_string(), kind: RelocKind::GotLoadPageOff12 });
    let b = obj.finish().unwrap();
    // __text section header: reloff at 32 + 72 + 56, nreloc after it
    let reloff = u32_at(&b, 32 + 72 + 56) as usize;
    assert_eq!(u32_at(&b, 32 + 72 + 60), 1);
    assert_eq!(u32_at(&b, reloff), 4);
    assert_eq!(u32_at(&b, reloff + 4), (2 << 25) | (1 << 27) | (6 << 28));
}

#[test]
fn compiled_text_relocations_are_got_load_pairs() {
    let src = "let greet name = str_concat \"hi \" name\nlet main () = print_string (greet \"you\") ; print_int (string_length \"abc\")";
    let prog = parse(lex(src).unwrap()).unwrap();
    let ctors = vec![("Nil".to_string(), 0usize), ("Cons".to_string(), 2usize)];
    let obj = Codegen::new(&ctors).unwrap().compile_program(&prog).unwrap();
    assert_eq!(obj.text.len() % 4, 0);
    assert!(!obj.relocs_text.is_empty());
    assert_eq!(obj.relocs_text.len() % 2, 0);
    for pair in obj.relocs_text.chunks(2) {
        assert!(matches!(pair[0].kind, RelocKind::GotLoadPage21));
        assert!(matches!(pair[1].kind, RelocKind::GotLoadPageOff12));
        assert_eq!(pair[1].offset, pair[0].offset + 4);
        assert_eq!(pair[1].sym_name, pair[0].sym_name);
        assert!(pair[0].offset as usize + 8 <= obj.text.len());
    }
}
