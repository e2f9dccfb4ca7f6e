//! A minimal writer of 64-bit Mach-O relocatable objects for arm64: one
//! segment with `__text` and `__data`, a build-version command and a
//! symbol table (locals, then globals, then undefined symbols).
use vstd::prelude::*;

verus! {

/// Little-endian bytes of a 16-bit value.
pub open spec fn le16(x: u16) -> Seq<u8> {
    seq![(x & 0xff) as u8, ((x >> 8u16) & 0xff) as u8]
}

/// Little-endian bytes of a 32-bit value.
pub open spec fn le32(x: u32) -> Seq<u8> {
    seq![(x & 0xff) as u8, ((x >> 8u32) & 0xff) as u8, ((x >> 16u32) & 0xff) as u8, ((x >> 24u32) & 0xff) as u8]
}

/// Little-endian bytes of a 64-bit value.
pub open spec fn le64(x: u64) -> Seq<u8> {
    le32((x & 0xffff_ffff) as u32) + le32((x >> 32u64) as u32)
}

/// Appends the little-endian bytes of `x`.
pub fn push_le16(out: &mut Vec<u8>, x: u16)
    ensures
        final(out)@ == old(out)@ + le16(x),
{
    out.push((x & 0xff) as u8);
    out.push(((x >> 8) & 0xff) as u8);
    proof {
        assert(out@ =~= old(out)@ + le16(x));
    }
}

/// Appends the little-endian bytes of `x`.
pub fn push_le32(out: &mut Vec<u8>, x: u32)
    ensures
        final(out)@ == old(out)@ + le32(x),
{
    out.push((x & 0xff) as u8);
    out.push(((x >> 8) & 0xff) as u8);
    out.push(((x >> 16) & 0xff) as u8);
    out.push(((x >> 24) & 0xff) as u8);
    proof {
        assert(out@ =~= old(out)@ + le32(x));
    }
}

/// Appends the little-endian bytes of `x`.
pub fn push_le64(out: &mut Vec<u8>, x: u64)
    ensures
        final(out)@ == old(out)@ + le64(x),
{
    push_le32(out, (x & 0xffff_ffff) as u32);
    push_le32(out, (x >> 32) as u32);
    proof {
        assert(out@ =~= old(out)@ + le64(x));
    }
}

/// Appends `n` zero bytes.
pub fn push_zeros(out: &mut Vec<u8>, n: usize)
    ensures
        final(out)@ == old(out)@ + Seq::new(n as nat, |i: int| 0u8),
{
    let mut i: usize = 0;
    while i < n
        invariant
            i <= n,
            out@ == old(out)@ + Seq::new(i as nat, |k: int| 0u8),
        decreases n - i,
    {
        out.push(0u8);
        proof {
            assert(out@ =~= old(out)@ + Seq::new((i + 1) as nat, |k: int| 0u8));
        }
        i = i + 1;
    }
}

/// Relocation kinds.
#[derive(Clone, Copy, PartialEq, Eq, Structural)]
pub enum RelocKind {
    /// 8-byte absolute pointer (data sections)
    Unsigned,
    /// adrp Xn, sym@GOTPAGE
    GotLoadPage21,
    /// ldr Xt, [Xn, sym@GOTPAGEOFF]
    GotLoadPageOff12,
}

/// A relocation of a field against a symbol.
pub struct Reloc {
    /// byte offset of the relocated field within its section
    pub offset: u64,
    pub sym_name: String,
    pub kind: RelocKind,
}

/// The two sections of the object.
#[derive(Clone, Copy, PartialEq, Eq, Structural)]
pub enum Section {
    Text,
    Data,
}

/// The 1-based number of a section.
pub open spec fn section_number(s: Section) -> u8 {
    match s {
        Section::Text => 1,
        Section::Data => 2,
    }
}

/// A symbol: defined in a section at an offset, or undefined (`None`).
pub struct Symbol {
    pub name: String,
    pub section: Option<Section>,
    pub value: u64,
    /// exported to other objects (N_EXT)
    pub global: bool,
}

/// Collects everything needed to emit a relocatable object.
pub struct ObjectBuilder {
    pub text: Vec<u8>,
    pub data: Vec<u8>,
    pub syms: Vec<Symbol>,
    pub relocs_text: Vec<Reloc>,
    pub relocs_data: Vec<Reloc>,
}

impl ObjectBuilder {
    /// An empty object.
    pub fn new() -> (o: ObjectBuilder)
        ensures
            o.text@.len() == 0,
            o.data@.len() == 0,
            o.syms@.len() == 0,
            o.relocs_text@.len() == 0,
            o.relocs_data@.len() == 0,
    {
        ObjectBuilder {
            text: Vec::new(),
            data: Vec::new(),
            syms: Vec::new(),
            relocs_text: Vec::new(),
            relocs_data: Vec::new(),
        }
    }

    /// Defines `name` at `offset` in `section`.
    pub fn define(&mut self, name: &str, section: Section, offset: u64, global: bool)
        ensures
            final(self).syms@.len() == old(self).syms@.len() + 1,
            final(self).syms@.drop_last() == old(self).syms@,
            final(self).syms@.last().name@ == name@,
            final(self).syms@.last().section == Some(section),
            final(self).syms@.last().value == offset,
            final(self).syms@.last().global == global,
            final(self).text == old(self).text,
            final(self).data == old(self).data,
            final(self).relocs_text == old(self).relocs_text,
            final(self).relocs_data == old(self).relocs_data,
    {
        self.syms.push(Symbol { name: String::from_str(name), section: Some(section), value: offset, global });
        proof {
            assert(self.syms@.drop_last() =~= old(self).syms@);
        }
    }

    /// Declares the undefined (external) symbol `name`.
    pub fn add_extern(&mut self, name: &str)
        ensures
            final(self).syms@.len() == old(self).syms@.len() + 1,
            final(self).syms@.drop_last() == old(self).syms@,
            final(self).syms@.last().name@ == name@,
            final(self).syms@.last().section is None,
            final(self).syms@.last().value == 0,
            !final(self).syms@.last().global,
            final(self).text == old(self).text,
            final(self).data == old(self).data,
            final(self).relocs_text == old(self).relocs_text,
            final(self).relocs_data == old(self).relocs_data,
    {
        self.syms.push(Symbol { name: String::from_str(name), section: None, value: 0, global: false });
        proof {
            assert(self.syms@.drop_last() =~= old(self).syms@);
        }
    }
}

} // verus!

verus! {

// ---------- the symbol table ----------

/// Symbol table order class: local definitions, then global definitions,
/// then undefined symbols.
pub open spec fn sym_class(s: Symbol) -> int {
    match s.section {
        Some(_) => if s.global { 1 } else { 0 },
        None => 2,
    }
}

/// The symbols of class `c`, in order.
pub open spec fn class_syms(s: Seq<Symbol>, c: int) -> Seq<Symbol>
    decreases s.len(),
{
    if s.len() == 0 {
        seq![]
    } else if sym_class(s.last()) == c {
        class_syms(s.drop_last(), c).push(s.last())
    } else {
        class_syms(s.drop_last(), c)
    }
}

/// The symbols in symbol-table order.
pub open spec fn ordered_syms(s: Seq<Symbol>) -> Seq<Symbol> {
    class_syms(s, 0) + class_syms(s, 1) + class_syms(s, 2)
}

/// The string table of the symbols: a NUL, then each name NUL-terminated.
pub open spec fn strtab_of(ord: Seq<Symbol>) -> Seq<u8>
    decreases ord.len(),
{
    if ord.len() == 0 {
        seq![0u8]
    } else {
        strtab_of(ord.drop_last()) + vstd::utf8::encode_utf8(ord.last().name@) + seq![0u8]
    }
}

/// The 16-byte `nlist_64` entry of a symbol.
pub open spec fn nlist_bytes(s: Symbol, stroff: u32, data_addr: u64) -> Seq<u8> {
    let (ty, sect, value): (u8, u8, u64) = match s.section {
        Some(Section::Text) => (if s.global { 0x0Fu8 } else { 0x0Eu8 }, 1u8, s.value),
        Some(Section::Data) => (if s.global { 0x0Fu8 } else { 0x0Eu8 }, 2u8, data_addr.wrapping_add(s.value)),
        None => (0x01u8, 0u8, 0u64),
    };
    le32(stroff) + seq![ty, sect] + le16(0) + le64(value)
}

/// The `nlist_64` entries of the symbols, in order.
pub open spec fn nlists_of(ord: Seq<Symbol>, data_addr: u64) -> Seq<u8>
    decreases ord.len(),
{
    if ord.len() == 0 {
        seq![]
    } else {
        nlists_of(ord.drop_last(), data_addr)
            + nlist_bytes(ord.last(), strtab_of(ord.drop_last()).len() as u32, data_addr)
    }
}

/// The symbol-table index of `name`: its last entry.
pub open spec fn sym_index(ord: Seq<Symbol>, name: Seq<char>) -> Option<int>
    decreases ord.len(),
{
    if ord.len() == 0 {
        None
    } else if ord.last().name@ == name {
        Some(ord.len() - 1)
    } else {
        sym_index(ord.drop_last(), name)
    }
}

/// The `(pcrel, length, type)` fields of a relocation kind.
pub open spec fn reloc_fields(k: RelocKind) -> (u32, u32, u32) {
    match k {
        RelocKind::Unsigned => (0, 3, 0),
        RelocKind::GotLoadPage21 => (1, 2, 5),
        RelocKind::GotLoadPageOff12 => (0, 2, 6),
    }
}

/// The second word of a `relocation_info`: symbol number, pc-relative
/// flag, length, external flag and type.
pub open spec fn reloc_word(symidx: u32, k: RelocKind) -> u32 {
    let (pcrel, length, rtype) = reloc_fields(k);
    symidx | (pcrel << 24u32) | (length << 25u32) | (1u32 << 27u32) | (rtype << 28u32)
}

/// The `relocation_info` entries of `rs`, or `None` when one names an
/// unknown symbol.
pub open spec fn relocs_bytes(rs: Seq<Reloc>, ord: Seq<Symbol>) -> Option<Seq<u8>>
    decreases rs.len(),
{
    if rs.len() == 0 {
        Some(seq![])
    } else {
        match (relocs_bytes(rs.drop_last(), ord), sym_index(ord, rs.last().sym_name@)) {
            (Some(b), Some(i)) => Some(b + le32(rs.last().offset as u32) + le32(reloc_word(i as u32, rs.last().kind))),
            _ => None,
        }
    }
}

/// The first relocation of `rs` that names an unknown symbol.
pub open spec fn first_unknown(rs: Seq<Reloc>, ord: Seq<Symbol>) -> Option<Reloc>
    decreases rs.len(),
{
    if rs.len() == 0 {
        None
    } else {
        match first_unknown(rs.drop_last(), ord) {
            Some(r) => Some(r),
            None => if sym_index(ord, rs.last().sym_name@) is None { Some(rs.last()) } else { None },
        }
    }
}

/// `v` rounded up to a multiple of `a`.
pub open spec fn align_up(v: int, a: int) -> int {
    (v + a - 1) / a * a
}

/// A 16-byte, zero-padded name field.
pub open spec fn name16(name: Seq<u8>) -> Seq<u8> {
    name + Seq::new((16 - name.len()) as nat, |i: int| 0u8)
}

/// A `section_64` header.
pub open spec fn section_header(sectname: Seq<u8>, segname: Seq<u8>, addr: u64, size: u64, fileoff: u32,
    align_log2: u32, reloff: u32, nreloc: u32) -> Seq<u8> {
    name16(sectname) + name16(segname) + le64(addr) + le64(size) + le32(fileoff) + le32(align_log2)
        + le32(reloff) + le32(nreloc) + Seq::new(16, |i: int| 0u8)
}

/// The `LC_SEGMENT_64` command of the single unnamed segment.
pub open spec fn segment_header(vmsize: u64, fileoff: u64, nsects: u32) -> Seq<u8> {
    le32(0x19) + le32((72 + 80 * nsects) as u32) + Seq::new(16, |i: int| 0u8) + le64(0) + le64(vmsize)
        + le64(fileoff) + le64(vmsize) + le32(7) + le32(7) + le32(nsects) + le32(0)
}

} // verus!

verus! {

/// The bytes of `__text`.
pub open spec fn text_name() -> Seq<u8> {
    seq![0x5fu8, 0x5f, 0x74, 0x65, 0x78, 0x74]
}

/// The bytes of `__TEXT`.
pub open spec fn text_seg_name() -> Seq<u8> {
    seq![0x5fu8, 0x5f, 0x54, 0x45, 0x58, 0x54]
}

/// The bytes of `__data`.
pub open spec fn data_name() -> Seq<u8> {
    seq![0x5fu8, 0x5f, 0x64, 0x61, 0x74, 0x61]
}

/// The bytes of `__DATA`.
pub open spec fn data_seg_name() -> Seq<u8> {
    seq![0x5fu8, 0x5f, 0x44, 0x41, 0x54, 0x41]
}

/// `n` zero bytes.
pub open spec fn zeros(n: int) -> Seq<u8> {
    Seq::new(n as nat, |i: int| 0u8)
}

/// Sizes of the parts of an object are small enough to lay out.
pub open spec fn fits(ob: ObjectBuilder) -> bool {
    &&& ob.text@.len() < 0x100_0000_0000
    &&& ob.data@.len() < 0x100_0000_0000
    &&& ob.syms@.len() < 0x4000_0000
    &&& ob.relocs_text@.len() < 0x100_0000_0000
    &&& ob.relocs_data@.len() < 0x100_0000_0000
    &&& strtab_of(ordered_syms(ob.syms@)).len() < 0x100_0000_0000
}

/// The object file of `ob`, when every relocation names a known symbol:
/// the Mach-O header, the segment with its `__text` and `__data` section
/// headers, the build-version and symbol-table commands, then the text,
/// the data (at a 16-byte boundary), the relocations, the symbol table
/// (at an 8-byte boundary) and the string table.
pub open spec fn object_image(ob: ObjectBuilder) -> Option<Seq<u8>> {
    let ord = ordered_syms(ob.syms@);
    match (relocs_bytes(ob.relocs_text@, ord), relocs_bytes(ob.relocs_data@, ord)) {
        (Some(trel), Some(drel)) => Some(layout(ob.text@, ob.data@, trel, drel,
            nlists_of(ord, align_up(ob.text@.len() as int, 8) as u64), strtab_of(ord), ord.len(),
            ob.relocs_text@.len(), ob.relocs_data@.len())),
        _ => None,
    }
}

/// The load commands (and header) of a file whose text is `text_len`
/// bytes, data `data_len` bytes, with `trel_len` / `drel_len` bytes of
/// relocations, `nsyms` symbols and a string table of `strsize` bytes.
pub open spec fn load_commands(text_len: int, data_len: int, trel_len: int, drel_len: int, nsyms: int, strsize: int,
    nrt: int, nrd: int) -> Seq<u8> {
    let data_addr = align_up(text_len, 8);
    let data_fileoff = align_up(312 + text_len, 16);
    let rel_text_off = data_fileoff + data_len;
    let rel_data_off = rel_text_off + trel_len;
    let sym_off = align_up(rel_data_off + drel_len, 8);
    let str_off = sym_off + nsyms * 16;
    le32(0xFEEDFACF) + le32(0x0100_000C) + le32(0) + le32(1) + le32(3) + le32(280) + le32(0) + le32(0)
        + segment_header((data_addr + data_len) as u64, 312, 2)
        + section_header(text_name(), text_seg_name(), 0, text_len as u64, 312, 2,
            if trel_len == 0 { 0 } else { rel_text_off as u32 }, nrt as u32)
        + section_header(data_name(), data_seg_name(), data_addr as u64, data_len as u64,
            data_fileoff as u32, 3, if drel_len == 0 { 0 } else { rel_data_off as u32 }, nrd as u32)
        + le32(0x32) + le32(24) + le32(1) + le32(0x000C_0000) + le32(0x000C_0000) + le32(0)
        + le32(2) + le32(24) + le32(sym_off as u32) + le32(nsyms as u32) + le32(str_off as u32) + le32(strsize as u32)
}

/// The file made of its parts: `nsyms` symbols, `nrt` text and `nrd`
/// data relocations.
pub open spec fn layout(text: Seq<u8>, data: Seq<u8>, trel: Seq<u8>, drel: Seq<u8>, nl: Seq<u8>, strtab: Seq<u8>,
    nsyms: nat, nrt: nat, nrd: nat) -> Seq<u8> {
    let text_len = text.len() as int;
    let data_fileoff = align_up(312 + text_len, 16);
    let rel_data_off = data_fileoff + data.len() + trel.len();
    let sym_off = align_up(rel_data_off + drel.len(), 8);
    load_commands(text_len, data.len() as int, trel.len() as int, drel.len() as int, nsyms as int,
        strtab.len() as int, nrt as int, nrd as int)
        + text + zeros(data_fileoff - 312 - text_len) + data + trel + drel
        + zeros(sym_off - rel_data_off - drel.len()) + nl + strtab
}

/// The symbols at positions `idx` of `s`.
pub open spec fn pick(s: Seq<Symbol>, idx: Seq<usize>) -> Seq<Symbol> {
    Seq::new(idx.len(), |k: int| s[idx[k] as int])
}

fn class_of(s: &Symbol) -> (c: u8)
    ensures
        c == sym_class(*s),
{
    match s.section {
        Some(_) => if s.global { 1 } else { 0 },
        None => 2,
    }
}

/// Positions of the symbols of class `c`, in order.
fn class_indices(syms: &Vec<Symbol>, c: u8) -> (r: Vec<usize>)
    ensures
        forall|k: int| 0 <= k < r@.len() ==> r@[k] < syms@.len(),
        pick(syms@, r@) == class_syms(syms@, c as int),
{
    let mut out: Vec<usize> = Vec::new();
    let mut i: usize = 0;
    while i < syms.len()
        invariant
            i <= syms.len(),
            forall|k: int| 0 <= k < out@.len() ==> out@[k] < i,
            pick(syms@, out@) == class_syms(syms@.subrange(0, i as int), c as int),
        decreases syms.len() - i,
    {
        proof {
            assert(syms@.subrange(0, i + 1).drop_last() =~= syms@.subrange(0, i as int));
        }
        if class_of(&syms[i]) == c {
            out.push(i);
            proof {
                assert(pick(syms@, out@) =~= class_syms(syms@.subrange(0, i as int), c as int).push(syms@[i as int]));
            }
        }
        i = i + 1;
    }
    proof {
        assert(syms@.subrange(0, syms@.len() as int) =~= syms@);
    }
    out
}

} // verus!

verus! {

fn nlist_entry(out: &mut Vec<u8>, s: &Symbol, stroff: u32, data_addr: u64)
    ensures
        final(out)@ == old(out)@ + nlist_bytes(*s, stroff, data_addr),
{
    let (ty, sect, value): (u8, u8, u64) = match s.section {
        Some(Section::Text) => (if s.global { 0x0Fu8 } else { 0x0Eu8 }, 1u8, s.value),
        Some(Section::Data) => (if s.global { 0x0Fu8 } else { 0x0Eu8 }, 2u8, data_addr.wrapping_add(s.value)),
        None => (0x01u8, 0u8, 0u64),
    };
    let ghost start = out@;
    push_le32(out, stroff);
    out.push(ty);
    out.push(sect);
    push_le16(out, 0);
    push_le64(out, value);
    proof {
        assert(out@ =~= start + nlist_bytes(*s, stroff, data_addr));
    }
}

/// The string table and the `nlist_64` entries of the symbols at `ord`.
fn symbol_tables(syms: &Vec<Symbol>, ord: &Vec<usize>, data_addr: u64) -> (r: Result<(Vec<u8>, Vec<u8>), String>)
    requires
        forall|k: int| 0 <= k < ord@.len() ==> ord@[k] < syms@.len(),
    ensures
        r matches Ok((strtab, nl)) ==> strtab@ == strtab_of(pick(syms@, ord@)) && nl@ == nlists_of(pick(syms@, ord@), data_addr)
            && strtab@.len() < 0x100_0000_0000,
        r is Err ==> strtab_of(pick(syms@, ord@)).len() >= 0x100_0000_0000,
{
    let mut strtab: Vec<u8> = Vec::new();
    strtab.push(0u8);
    let mut nl: Vec<u8> = Vec::new();
    let ghost all = pick(syms@, ord@);
    let mut k: usize = 0;
    proof {
        assert(all.subrange(0, 0) =~= Seq::<Symbol>::empty());
        assert(strtab@ =~= seq![0u8]);
    }
    while k < ord.len()
        invariant
            all == pick(syms@, ord@),
            forall|j: int| 0 <= j < ord@.len() ==> ord@[j] < syms@.len(),
            k <= ord@.len(),
            strtab@ == strtab_of(all.subrange(0, k as int)),
            nl@ == nlists_of(all.subrange(0, k as int), data_addr),
            strtab@.len() < 0x100_0000_0000,
        decreases ord@.len() - k,
    {
        let s = &syms[ord[k]];
        let ghost sub = all.subrange(0, k + 1);
        proof {
            assert(sub.drop_last() =~= all.subrange(0, k as int));
            assert(sub.last() == *s);
        }
        let stroff = strtab.len() as u32;
        nlist_entry(&mut nl, s, stroff, data_addr);
        let name = crate::strings::utf8_of(s.name.as_str());
        crate::strings::append_bytes(&mut strtab, &name);
        strtab.push(0u8);
        proof {
            assert(strtab@ =~= strtab_of(sub.drop_last()) + vstd::utf8::encode_utf8(s.name@) + seq![0u8]);
        }
        if strtab.len() as u64 >= 0x100_0000_0000u64 {
            proof {
                lemma_strtab_grows(all, k + 1);
            }
            return Err(String::from_str("object file too large"));
        }
        k = k + 1;
    }
    proof {
        assert(all.subrange(0, ord@.len() as int) =~= all);
    }
    Ok((strtab, nl))
}

proof fn lemma_strtab_grows(all: Seq<Symbol>, k: int)
    requires
        0 <= k <= all.len(),
    ensures
        strtab_of(all.subrange(0, k)).len() <= strtab_of(all).len(),
    decreases all.len() - k,
{
    if k < all.len() {
        lemma_strtab_grows(all, k + 1);
        assert(all.subrange(0, k + 1).drop_last() =~= all.subrange(0, k));
    } else {
        assert(all.subrange(0, k) =~= all);
    }
}

/// The symbol-table index of `name` (its last entry).
fn find_sym(syms: &Vec<Symbol>, ord: &Vec<usize>, name: &String) -> (r: Option<usize>)
    requires
        forall|k: int| 0 <= k < ord@.len() ==> ord@[k] < syms@.len(),
    ensures
        match sym_index(pick(syms@, ord@), name@) {
            Some(i) => r == Some(i as usize),
            None => r is None,
        },
{
    let ghost all = pick(syms@, ord@);
    let mut k: usize = ord.len();
    proof {
        assert(all.subrange(0, k as int) =~= all);
    }
    while k > 0
        invariant
            all == pick(syms@, ord@),
            forall|j: int| 0 <= j < ord@.len() ==> ord@[j] < syms@.len(),
            k <= ord@.len(),
            sym_index(all, name@) == sym_index(all.subrange(0, k as int), name@),
        decreases k,
    {
        proof {
            assert(all.subrange(0, k as int).drop_last() =~= all.subrange(0, k - 1));
        }
        if syms[ord[k - 1]].name == *name {
            return Some(k - 1);
        }
        k = k - 1;
    }
    None
}

/// The `relocation_info` entries of `relocs`.
fn encode_relocs(relocs: &Vec<Reloc>, syms: &Vec<Symbol>, ord: &Vec<usize>) -> (r: Result<Vec<u8>, String>)
    requires
        forall|k: int| 0 <= k < ord@.len() ==> ord@[k] < syms@.len(),
        ord@.len() < 0x1_0000_0000,
    ensures
        match relocs_bytes(relocs@, pick(syms@, ord@)) {
            Some(b) => r matches Ok(v) && v@ == b,
            None => r matches Err(m) && first_unknown(relocs@, pick(syms@, ord@)) matches Some(u)
                && m@ == "relocation against unknown symbol `"@ + u.sym_name@ + "`"@,
        },
{
    let ghost all = pick(syms@, ord@);
    let mut buf: Vec<u8> = Vec::new();
    let mut i: usize = 0;
    proof {
        assert(relocs@.subrange(0, 0) =~= Seq::<Reloc>::empty());
    }
    while i < relocs.len()
        invariant
            all == pick(syms@, ord@),
            forall|j: int| 0 <= j < ord@.len() ==> ord@[j] < syms@.len(),
            ord@.len() < 0x1_0000_0000,
            i <= relocs@.len(),
            relocs_bytes(relocs@.subrange(0, i as int), all) == Some(buf@),
            first_unknown(relocs@.subrange(0, i as int), all) is None,
        decreases relocs@.len() - i,
    {
        let rl = &relocs[i];
        let ghost sub = relocs@.subrange(0, i + 1);
        proof {
            assert(sub.drop_last() =~= relocs@.subrange(0, i as int));
            assert(sub.last() == *rl);
        }
        match find_sym(syms, ord, &rl.sym_name) {
            None => {
                proof {
                    lemma_unknown_stays(relocs@, all, i + 1);
                }
                return Err(crate::text::concat3("relocation against unknown symbol `", rl.sym_name.as_str(), "`"));
            }
            Some(idx) => {
                let (pcrel, length, rtype): (u32, u32, u32) = match rl.kind {
                    RelocKind::Unsigned => (0, 3, 0),
                    RelocKind::GotLoadPage21 => (1, 2, 5),
                    RelocKind::GotLoadPageOff12 => (0, 2, 6),
                };
                proof {
                    lemma_sym_index_bounds(all, rl.sym_name@);
                }
                let ghost start = buf@;
                push_le32(&mut buf, rl.offset as u32);
                let sym32 = idx as u32;
                push_le32(&mut buf, sym32 | (pcrel << 24u32) | (length << 25u32) | (1u32 << 27u32) | (rtype << 28u32));
                proof {
                    assert(buf@ =~= start + le32(rl.offset as u32) + le32(reloc_word(idx as u32, rl.kind)));
                }
            }
        }
        i = i + 1;
    }
    proof {
        assert(relocs@.subrange(0, relocs@.len() as int) =~= relocs@);
    }
    Ok(buf)
}

proof fn lemma_sym_index_bounds(ord: Seq<Symbol>, name: Seq<char>)
    ensures
        sym_index(ord, name) matches Some(i) ==> 0 <= i < ord.len(),
    decreases ord.len(),
{
    if ord.len() > 0 {
        lemma_sym_index_bounds(ord.drop_last(), name);
    }
}

proof fn lemma_unknown_stays(rs: Seq<Reloc>, ord: Seq<Symbol>, k: int)
    requires
        0 <= k <= rs.len(),
        first_unknown(rs.subrange(0, k), ord) is Some,
    ensures
        first_unknown(rs, ord) == first_unknown(rs.subrange(0, k), ord),
        relocs_bytes(rs, ord) is None,
    decreases rs.len() - k,
{
    if k < rs.len() {
        assert(rs.subrange(0, k + 1).drop_last() =~= rs.subrange(0, k));
        lemma_none_of_unknown(rs.subrange(0, k + 1), ord);
        lemma_unknown_stays(rs, ord, k + 1);
    } else {
        assert(rs.subrange(0, k) =~= rs);
        lemma_none_of_unknown(rs, ord);
    }
}

proof fn lemma_none_of_unknown(rs: Seq<Reloc>, ord: Seq<Symbol>)
    ensures
        first_unknown(rs, ord) is Some ==> relocs_bytes(rs, ord) is None,
    decreases rs.len(),
{
    if rs.len() > 0 {
        lemma_none_of_unknown(rs.drop_last(), ord);
    }
}

} // verus!

verus! {

fn push_name16(out: &mut Vec<u8>, name: &Vec<u8>)
    requires
        name@.len() <= 16,
    ensures
        final(out)@ == old(out)@ + name16(name@),
{
    crate::strings::append_bytes(out, name);
    push_zeros(out, 16 - name.len());
    proof {
        assert(out@ =~= old(out)@ + name16(name@));
    }
}

fn push_section_header(out: &mut Vec<u8>, sectname: &Vec<u8>, segname: &Vec<u8>, addr: u64, size: u64, fileoff: u32,
    align_log2: u32, reloff: u32, nreloc: u32)
    requires
        sectname@.len() <= 16,
        segname@.len() <= 16,
    ensures
        final(out)@ == old(out)@ + section_header(sectname@, segname@, addr, size, fileoff, align_log2, reloff, nreloc),
{
    let ghost start = out@;
    push_name16(out, sectname);
    push_name16(out, segname);
    push_le64(out, addr);
    push_le64(out, size);
    push_le32(out, fileoff);
    push_le32(out, align_log2);
    push_le32(out, reloff);
    push_le32(out, nreloc);
    // flags = S_REGULAR, reserved1..3 = 0
    push_zeros(out, 16);
    proof {
        assert(out@ =~= start + section_header(sectname@, segname@, addr, size, fileoff, align_log2, reloff, nreloc));
    }
}

fn push_segment_header(out: &mut Vec<u8>, vmsize: u64, fileoff: u64, nsects: u32)
    requires
        nsects < 1000,
    ensures
        final(out)@ == old(out)@ + segment_header(vmsize, fileoff, nsects),
{
    let ghost start = out@;
    push_le32(out, 0x19);
    push_le32(out, 72 + 80 * nsects);
    push_zeros(out, 16);
    push_le64(out, 0);
    push_le64(out, vmsize);
    push_le64(out, fileoff);
    push_le64(out, vmsize);
    push_le32(out, 7);
    push_le32(out, 7);
    push_le32(out, nsects);
    push_le32(out, 0);
    proof {
        assert(out@ =~= start + segment_header(vmsize, fileoff, nsects));
    }
}

fn append_indices(out: &mut Vec<usize>, more: &Vec<usize>)
    ensures
        final(out)@ == old(out)@ + more@,
{
    let mut i: usize = 0;
    while i < more.len()
        invariant
            i <= more@.len(),
            out@ == old(out)@ + more@.subrange(0, i as int),
        decreases more@.len() - i,
    {
        out.push(more[i]);
        proof {
            assert(more@.subrange(0, i + 1) =~= more@.subrange(0, i as int).push(more@[i as int]));
        }
        i = i + 1;
    }
    proof {
        assert(more@.subrange(0, more@.len() as int) =~= more@);
    }
}

fn name_bytes(b0: u8, b1: u8, b2: u8, b3: u8, b4: u8, b5: u8) -> (v: Vec<u8>)
    ensures
        v@ == seq![b0, b1, b2, b3, b4, b5],
{
    let mut v: Vec<u8> = Vec::new();
    v.push(b0);
    v.push(b1);
    v.push(b2);
    v.push(b3);
    v.push(b4);
    v.push(b5);
    proof {
        assert(v@ =~= seq![b0, b1, b2, b3, b4, b5]);
    }
    v
}

/// Appends the header and load commands.
#[verifier::rlimit(40)]
fn push_load_commands(out: &mut Vec<u8>, text_len: u64, data_len: u64, trel_len: u64, drel_len: u64, nsyms: u64,
    strsize: u64, nrt: u64, nrd: u64)
    requires
        old(out)@.len() == 0,
        text_len < 0x100_0000_0000,
        data_len < 0x100_0000_0000,
        trel_len < 0x1000_0000_0000,
        drel_len < 0x1000_0000_0000,
        nsyms < 0x100_0000_0000,
    ensures
        final(out)@ == load_commands(text_len as int, data_len as int, trel_len as int, drel_len as int,
            nsyms as int, strsize as int, nrt as int, nrd as int),
{
    let text_fileoff: u64 = 312;
    let data_fileoff: u64 = (text_fileoff + text_len + 15) / 16 * 16;
    let rel_text_off: u64 = data_fileoff + data_len;
    let rel_data_off: u64 = rel_text_off + trel_len;
    let sym_off: u64 = (rel_data_off + drel_len + 7) / 8 * 8;
    let str_off: u64 = sym_off + nsyms * 16;
    let text_pad: u64 = (text_len + 7) / 8 * 8;
    // header
    push_le32(out, 0xFEEDFACF);
    proof {
        assert(out@ =~= le32(0xFEEDFACF));
    }
    push_le32(out, 0x0100_000C);
    push_le32(out, 0);
    push_le32(out, 1);
    push_le32(out, 3);
    push_le32(out, 280);
    push_le32(out, 0);
    push_le32(out, 0);
    // the single unnamed segment holding both sections
    push_segment_header(out, text_pad + data_len, 312, 2);
    let tn = name_bytes(0x5f, 0x5f, 0x74, 0x65, 0x78, 0x74);
    let ts = name_bytes(0x5f, 0x5f, 0x54, 0x45, 0x58, 0x54);
    push_section_header(out, &tn, &ts, 0, text_len, 312, 2,
        if trel_len == 0 { 0 } else { rel_text_off as u32 }, nrt as u32);
    let dn = name_bytes(0x5f, 0x5f, 0x64, 0x61, 0x74, 0x61);
    let ds = name_bytes(0x5f, 0x5f, 0x44, 0x41, 0x54, 0x41);
    push_section_header(out, &dn, &ds, text_pad, data_len, data_fileoff as u32, 3,
        if drel_len == 0 { 0 } else { rel_data_off as u32 }, nrd as u32);
    // LC_BUILD_VERSION: macOS, minimum and sdk 12.0.0, no tools
    push_le32(out, 0x32);
    push_le32(out, 24);
    push_le32(out, 1);
    push_le32(out, 0x000C_0000);
    push_le32(out, 0x000C_0000);
    push_le32(out, 0);
    // LC_SYMTAB
    push_le32(out, 2);
    push_le32(out, 24);
    push_le32(out, sym_off as u32);
    push_le32(out, nsyms as u32);
    push_le32(out, str_off as u32);
    push_le32(out, strsize as u32);
    proof {
        assert(data_fileoff == align_up(312 + text_len, 16));
        assert(sym_off == align_up(rel_data_off + drel_len, 8));
        assert(text_pad == align_up(text_len as int, 8));
    }
}

/// Lays out the object file from its parts.
#[verifier::rlimit(40)]
fn assemble(text: &Vec<u8>, data: &Vec<u8>, trel: &Vec<u8>, drel: &Vec<u8>, nl: &Vec<u8>, strtab: &Vec<u8>,
    nsyms: u64, nrt: u64, nrd: u64) -> (out: Vec<u8>)
    requires
        text@.len() < 0x100_0000_0000,
        data@.len() < 0x100_0000_0000,
        trel@.len() < 0x1000_0000_0000,
        drel@.len() < 0x1000_0000_0000,
        nsyms < 0x100_0000_0000,
    ensures
        out@ == layout(text@, data@, trel@, drel@, nl@, strtab@, nsyms as nat, nrt as nat, nrd as nat),
{
    let text_len = text.len() as u64;
    let data_len = data.len() as u64;
    let trel_len = trel.len() as u64;
    let drel_len = drel.len() as u64;
    let data_fileoff: u64 = (312 + text_len + 15) / 16 * 16;
    let rel_data_off: u64 = data_fileoff + data_len + trel_len;
    let sym_off: u64 = (rel_data_off + drel_len + 7) / 8 * 8;
    let mut out: Vec<u8> = Vec::new();
    push_load_commands(&mut out, text_len, data_len, trel_len, drel_len, nsyms, strtab.len() as u64, nrt, nrd);
    crate::strings::append_bytes(&mut out, text);
    push_zeros(&mut out, (data_fileoff - 312 - text_len) as usize);
    crate::strings::append_bytes(&mut out, data);
    crate::strings::append_bytes(&mut out, trel);
    crate::strings::append_bytes(&mut out, drel);
    push_zeros(&mut out, (sym_off - rel_data_off - drel_len) as usize);
    crate::strings::append_bytes(&mut out, nl);
    crate::strings::append_bytes(&mut out, strtab);
    proof {
        assert(data_fileoff == align_up(312 + text@.len() as int, 16));
        assert(sym_off == align_up(rel_data_off + drel@.len(), 8));
    }
    out
}

/// Positions of the symbols in symbol-table order.
fn ordered_indices(syms: &Vec<Symbol>) -> (ord: Vec<usize>)
    requires
        syms@.len() < 0x100_0000_0000,
    ensures
        forall|k: int| 0 <= k < ord@.len() ==> ord@[k] < syms@.len(),
        pick(syms@, ord@) == ordered_syms(syms@),
        ord@.len() <= 3 * syms@.len(),
{
    let mut ord = class_indices(syms, 0);
    let globals = class_indices(syms, 1);
    let undefs = class_indices(syms, 2);
    let ghost (a, b, c) = (ord@, globals@, undefs@);
    append_indices(&mut ord, &globals);
    append_indices(&mut ord, &undefs);
    proof {
        assert(pick(syms@, ord@) =~= pick(syms@, a) + pick(syms@, b) + pick(syms@, c));
        assert forall|k: int| 0 <= k < ord@.len() implies ord@[k] < syms@.len() by {
            if k < a.len() {
                assert(ord@[k] == a[k]);
            } else if k < a.len() + b.len() {
                assert(ord@[k] == b[k - a.len()]);
            } else {
                assert(ord@[k] == c[k - a.len() - b.len()]);
            }
        }
        lemma_class_len(syms@, 0);
        lemma_class_len(syms@, 1);
        lemma_class_len(syms@, 2);
        assert(pick(syms@, a).len() == a.len());
    }
    ord
}

impl ObjectBuilder {
    /// Serializes the object file.  It fails when a relocation names an
    /// unknown symbol (text relocations are checked first) or when the
    /// parts are too large to lay out.
    #[verifier::rlimit(40)]
    pub fn finish(self) -> (r: Result<Vec<u8>, String>)
        ensures
            r is Ok <==> fits(self) && object_image(self) is Some,
            r matches Ok(b) ==> object_image(self) == Some(b@),
            fits(self) ==> match first_unknown(self.relocs_text@, ordered_syms(self.syms@)) {
                Some(u) => r matches Err(m) && m@ == "relocation against unknown symbol `"@ + u.sym_name@ + "`"@,
                None => match first_unknown(self.relocs_data@, ordered_syms(self.syms@)) {
                    Some(u) => r matches Err(m) && m@ == "relocation against unknown symbol `"@ + u.sym_name@ + "`"@,
                    None => r is Ok,
                },
            },
    {
        let ghost me = self;
        let text_len = self.text.len();
        let data_len = self.data.len();
        if text_len as u64 >= 0x100_0000_0000u64 || data_len as u64 >= 0x100_0000_0000u64
            || self.syms.len() as u64 >= 0x4000_0000u64 || self.relocs_text.len() as u64 >= 0x100_0000_0000u64
            || self.relocs_data.len() as u64 >= 0x100_0000_0000u64 {
            return Err(String::from_str("object file too large"));
        }
        let ord = ordered_indices(&self.syms);
        let ghost ords = ordered_syms(self.syms@);
        let data_addr: u64 = (text_len as u64 + 7) / 8 * 8;
        let (strtab, nl) = match symbol_tables(&self.syms, &ord, data_addr) {
            Ok(t) => t,
            Err(m) => {
                return Err(m);
            }
        };
        let trel = match encode_relocs(&self.relocs_text, &self.syms, &ord) {
            Ok(b) => b,
            Err(m) => {
                proof {
                    assert(relocs_bytes(me.relocs_text@, ords) is None);
                    assert(object_image(me) is None);
                }
                return Err(m);
            }
        };
        let drel = match encode_relocs(&self.relocs_data, &self.syms, &ord) {
            Ok(b) => b,
            Err(m) => {
                proof {
                    lemma_known_of_bytes(me.relocs_text@, ords);
                    assert(relocs_bytes(me.relocs_data@, ords) is None);
                    assert(object_image(me) is None);
                }
                return Err(m);
            }
        };
        proof {
            lemma_relocs_len(self.relocs_text@, ords);
            lemma_relocs_len(self.relocs_data@, ords);
        }

        let out = assemble(&self.text, &self.data, &trel, &drel, &nl, &strtab, ord.len() as u64,
            self.relocs_text.len() as u64, self.relocs_data.len() as u64);
        proof {
            lemma_known_of_bytes(me.relocs_text@, ords);
            lemma_known_of_bytes(me.relocs_data@, ords);
            assert(fits(me));
            assert(object_image(me) == Some(out@));
        }
        Ok(out)
    }
}

proof fn lemma_known_of_bytes(rs: Seq<Reloc>, ord: Seq<Symbol>)
    ensures
        relocs_bytes(rs, ord) is Some ==> first_unknown(rs, ord) is None,
    decreases rs.len(),
{
    if rs.len() > 0 {
        lemma_known_of_bytes(rs.drop_last(), ord);
    }
}

proof fn lemma_class_len(s: Seq<Symbol>, c: int)
    ensures
        class_syms(s, c).len() <= s.len(),
    decreases s.len(),
{
    if s.len() > 0 {
        lemma_class_len(s.drop_last(), c);
    }
}

proof fn lemma_relocs_len(rs: Seq<Reloc>, ord: Seq<Symbol>)
    ensures
        relocs_bytes(rs, ord) matches Some(b) ==> b.len() == 8 * rs.len(),
    decreases rs.len(),
{
    if rs.len() > 0 {
        lemma_relocs_len(rs.drop_last(), ord);
    }
}


proof fn lemma_nlists_len(ord: Seq<Symbol>, a: u64)
    ensures
        nlists_of(ord, a).len() == 16 * ord.len(),
    decreases ord.len(),
{
    if ord.len() > 0 {
        lemma_nlists_len(ord.drop_last(), a);
    }
}

/// Entry `k` of the symbol table is the `nlist_64` of the `k`-th symbol.
proof fn lemma_nlist_entry_at(ord: Seq<Symbol>, a: u64, k: int)
    requires
        0 <= k < ord.len(),
    ensures
        nlists_of(ord, a).subrange(16 * k, 16 * k + 16)
            == nlist_bytes(ord[k], strtab_of(ord.subrange(0, k)).len() as u32, a),
    decreases ord.len(),
{
    let rest = ord.drop_last();
    lemma_nlists_len(rest, a);
    let e = nlist_bytes(ord.last(), strtab_of(rest).len() as u32, a);
    assert(e.len() == 16);
    if k == ord.len() - 1 {
        assert(rest =~= ord.subrange(0, k));
        assert(nlists_of(ord, a).subrange(16 * k, 16 * k + 16) =~= e);
    } else {
        lemma_nlist_entry_at(rest, a, k);
        assert(rest.subrange(0, k) =~= ord.subrange(0, k));
        assert(nlists_of(ord, a).subrange(16 * k, 16 * k + 16) =~= nlists_of(rest, a).subrange(16 * k, 16 * k + 16));
    }
}

proof fn lemma_align_up_ge(v: int, a: int)
    requires
        0 <= v,
        0 < a,
    ensures
        v <= align_up(v, a) < v + a,
{
    assert(v <= (v + a - 1) / a * a < v + a) by (nonlinear_arith)
        requires
            0 <= v,
            0 < a,
    ;
}

/// The header fields of the load commands: the `addr` of `__text` at 136,
/// the `addr` of `__data` at 216 and the symbol table's `symoff` at 296.
proof fn lemma_load_command_fields(text_len: int, data_len: int, trel_len: int, drel_len: int, nsyms: int,
    strsize: int, nrt: int, nrd: int)
    ensures
        ({
            let lc = load_commands(text_len, data_len, trel_len, drel_len, nsyms, strsize, nrt, nrd);
            let sym_off = align_up(align_up(312 + text_len, 16) + data_len + trel_len + drel_len, 8);
            &&& lc.len() == 312
            &&& lc.subrange(136, 144) == le64(0)
            &&& lc.subrange(216, 224) == le64(align_up(text_len, 8) as u64)
            &&& lc.subrange(296, 300) == le32(sym_off as u32)
        }),
{
    let lc = load_commands(text_len, data_len, trel_len, drel_len, nsyms, strsize, nrt, nrd);
    let data_addr = align_up(text_len, 8);
    let data_fileoff = align_up(312 + text_len, 16);
    let rel_text_off = data_fileoff + data_len;
    let rel_data_off = rel_text_off + trel_len;
    let sym_off = align_up(rel_data_off + drel_len, 8);
    let str_off = sym_off + nsyms * 16;
    let hdr = le32(0xFEEDFACF) + le32(0x0100_000C) + le32(0) + le32(1) + le32(3) + le32(280) + le32(0) + le32(0);
    let seg = segment_header((data_addr + data_len) as u64, 312, 2);
    let th = section_header(text_name(), text_seg_name(), 0, text_len as u64, 312, 2,
        if trel_len == 0 { 0 } else { rel_text_off as u32 }, nrt as u32);
    let dh = section_header(data_name(), data_seg_name(), data_addr as u64, data_len as u64,
        data_fileoff as u32, 3, if drel_len == 0 { 0 } else { rel_data_off as u32 }, nrd as u32);
    let bv = le32(0x32) + le32(24) + le32(1) + le32(0x000C_0000) + le32(0x000C_0000) + le32(0);
    let st = le32(2) + le32(24) + le32(sym_off as u32) + le32(nsyms as u32) + le32(str_off as u32)
        + le32(strsize as u32);
    assert(hdr.len() == 32);
    assert(seg.len() == 72);
    assert(th.len() == 80);
    assert(dh.len() == 80);
    assert(bv.len() == 24);
    assert(st.len() == 24);
    assert(th.subrange(32, 40) =~= le64(0));
    assert(dh.subrange(32, 40) =~= le64(data_addr as u64));
    assert(st.subrange(8, 12) =~= le32(sym_off as u32));
    assert(lc =~= hdr + seg + th + dh + bv + st);
    assert(lc.subrange(136, 144) =~= th.subrange(32, 40));
    assert(lc.subrange(216, 224) =~= dh.subrange(32, 40));
    assert(lc.subrange(296, 300) =~= st.subrange(8, 12));
}

/// Where the parts of a laid-out file stand: the load commands first, the
/// symbol table at `symoff`.
proof fn lemma_layout_parts(text: Seq<u8>, data: Seq<u8>, trel: Seq<u8>, drel: Seq<u8>, nl: Seq<u8>,
    strtab: Seq<u8>, nsyms: nat, nrt: nat, nrd: nat) -> (sym_off: int)
    requires
        layout(text, data, trel, drel, nl, strtab, nsyms, nrt, nrd).len() < 0x1_0000_0000,
    ensures
        ({
            let img = layout(text, data, trel, drel, nl, strtab, nsyms, nrt, nrd);
            &&& 312 <= sym_off
            &&& sym_off + nl.len() <= img.len()
            &&& img.subrange(sym_off, sym_off + nl.len()) == nl
            &&& img.subrange(296, 300) == le32(sym_off as u32)
            &&& (sym_off as u32) as int == sym_off
            &&& img.subrange(136, 144) == le64(0)
            &&& img.subrange(216, 224) == le64(align_up(text.len() as int, 8) as u64)
        }),
{
    let text_len = text.len() as int;
    let data_fileoff = align_up(312 + text_len, 16);
    let rel_data_off = data_fileoff + data.len() + trel.len();
    let sym_off = align_up(rel_data_off + drel.len(), 8);
    lemma_load_command_fields(text_len, data.len() as int, trel.len() as int, drel.len() as int, nsyms as int,
        strtab.len() as int, nrt as int, nrd as int);
    let lc = load_commands(text_len, data.len() as int, trel.len() as int, drel.len() as int, nsyms as int,
        strtab.len() as int, nrt as int, nrd as int);
    lemma_align_up_ge(312 + text_len, 16);
    lemma_align_up_ge(rel_data_off + drel.len(), 8);
    let pre = lc + text + zeros(data_fileoff - 312 - text_len) + data + trel + drel
        + zeros(sym_off - rel_data_off - drel.len());
    assert(pre.len() == sym_off);
    let img = layout(text, data, trel, drel, nl, strtab, nsyms, nrt, nrd);
    assert(img == pre + nl + strtab);
    assert(img.subrange(sym_off, sym_off + nl.len()) =~= nl);
    assert(img.subrange(296, 300) =~= lc.subrange(296, 300));
    assert(img.subrange(136, 144) =~= lc.subrange(136, 144));
    assert(img.subrange(216, 224) =~= lc.subrange(216, 224));
    sym_off
}

/// The `n_value` field (bytes 8 to 16) of the `k`-th entry of a symbol table
/// that stands at `sym_off` in `img`.
proof fn lemma_entry_field(img: Seq<u8>, nl: Seq<u8>, sym_off: int, k: int, e: Seq<u8>)
    requires
        0 <= sym_off,
        0 <= k,
        16 * k + 16 <= nl.len(),
        sym_off + nl.len() <= img.len(),
        img.subrange(sym_off, sym_off + nl.len()) == nl,
        nl.subrange(16 * k, 16 * k + 16) == e,
    ensures
        img.subrange(sym_off + 16 * k + 8, sym_off + 16 * k + 16) == e.subrange(8, 16),
{
    let sub = img.subrange(sym_off, sym_off + nl.len());
    assert(img.subrange(sym_off + 16 * k + 8, sym_off + 16 * k + 16) =~= sub.subrange(16 * k + 8, 16 * k + 16));
    assert(nl.subrange(16 * k + 8, 16 * k + 16) =~= e.subrange(8, 16));
}

/// The `n_value` of a defined symbol's entry is its section's address plus
/// its offset, read off the header fields of `img`.
proof fn lemma_value_field(img: Seq<u8>, s: Symbol, e: Seq<u8>, sym_off: int, k: int, data_addr: u64)
    requires
        s.section is Some,
        e.len() == 16,
        exists|stroff: u32| e == nlist_bytes(s, stroff, data_addr),
        0 <= k,
        312 <= sym_off,
        (sym_off as u32) as int == sym_off,
        sym_off + 16 * k + 16 <= img.len(),
        img.subrange(sym_off + 16 * k + 8, sym_off + 16 * k + 16) == e.subrange(8, 16),
        img.subrange(296, 300) == le32(sym_off as u32),
        img.subrange(136, 144) == le64(0),
        img.subrange(216, 224) == le64(data_addr),
    ensures
        ({
            let hdr_at: int = if s.section == Some(Section::Text) { 136 } else { 216 };
            exists|so: u32, a: u64|
                #![trigger le32(so), le64(a)]
                img.subrange(296, 300) == le32(so) && img.subrange(hdr_at, hdr_at + 8) == le64(a)
                && so + 16 * k + 16 <= img.len()
                && img.subrange(so + 16 * k + 8, so + 16 * k + 16) == le64(a.wrapping_add(s.value))
        }),
{
    let so = sym_off as u32;
    if s.section == Some(Section::Text) {
        let a = 0u64;
        assert(e.subrange(8, 16) =~= le64(s.value));
        assert(a.wrapping_add(s.value) == s.value);
        assert(img.subrange(296, 300) == le32(so) && img.subrange(136, 144) == le64(a)
            && img.subrange(so + 16 * k + 8, so + 16 * k + 16) == le64(a.wrapping_add(s.value)));
    } else {
        let a = data_addr;
        assert(e.subrange(8, 16) =~= le64(data_addr.wrapping_add(s.value)));
        assert(img.subrange(296, 300) == le32(so) && img.subrange(216, 224) == le64(a)
            && img.subrange(so + 16 * k + 8, so + 16 * k + 16) == le64(a.wrapping_add(s.value)));
    }
}

/// In the object file, the `n_value` of every symbol defined in a section
/// is the `addr` field of that section's header plus the symbol's offset:
/// `symoff` (at byte 296) locates the symbol table, the `addr` of `__text`
/// is at byte 136 and that of `__data` at byte 216, all little-endian.
/// It is stated for files under 4 GiB, whose 32-bit offsets do not wrap.
pub proof fn lemma_symbol_values_are_section_addresses(ob: ObjectBuilder, k: int)
    requires
        object_image(ob) is Some,
        object_image(ob)->0.len() < 0x1_0000_0000,
        0 <= k < ordered_syms(ob.syms@).len(),
        ordered_syms(ob.syms@)[k].section is Some,
    ensures
        ({
            let img = object_image(ob)->0;
            let s = ordered_syms(ob.syms@)[k];
            let hdr_at: int = if s.section == Some(Section::Text) { 136 } else { 216 };
            exists|so: u32, a: u64|
                #![trigger le32(so), le64(a)]
                img.subrange(296, 300) == le32(so) && img.subrange(hdr_at, hdr_at + 8) == le64(a)
                && so + 16 * k + 16 <= img.len()
                && img.subrange(so + 16 * k + 8, so + 16 * k + 16) == le64(a.wrapping_add(s.value))
        }),
{
    let ord = ordered_syms(ob.syms@);
    let img = object_image(ob)->0;
    let s = ord[k];
    let trel = relocs_bytes(ob.relocs_text@, ord)->0;
    let drel = relocs_bytes(ob.relocs_data@, ord)->0;
    let text_len = ob.text@.len() as int;
    let data_addr = align_up(text_len, 8) as u64;
    let nl = nlists_of(ord, data_addr);
    let strtab = strtab_of(ord);
    assert(img == layout(ob.text@, ob.data@, trel, drel, nl, strtab, ord.len(), ob.relocs_text@.len(),
        ob.relocs_data@.len()));
    let sym_off = lemma_layout_parts(ob.text@, ob.data@, trel, drel, nl, strtab, ord.len(), ob.relocs_text@.len(),
        ob.relocs_data@.len());
    lemma_nlists_len(ord, data_addr);
    lemma_nlist_entry_at(ord, data_addr, k);
    let e = nlist_bytes(s, strtab_of(ord.subrange(0, k)).len() as u32, data_addr);
    lemma_entry_field(img, nl, sym_off, k, e);
    lemma_value_field(img, s, e, sym_off, k, data_addr);
}

} // verus!
