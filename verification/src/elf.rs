//! A verified ELF64 reader, covering exactly what linking BPF objects needs:
//! the file header, section headers, the first symbol table, the
//! section-header string table and relocation sections.
//!
//! All multi-byte fields are little-endian.

use vstd::prelude::*;
use vstd::bytes::{
    spec_u16_from_le_bytes, spec_u32_from_le_bytes, spec_u64_from_le_bytes, u16_from_le_bytes,
    u32_from_le_bytes, u64_from_le_bytes,
};
use vstd::slice::{slice_subrange, slice_to_vec};
use crate::error::{LinkError, LinkErrorKind};

verus! {

/// Machine type of BPF objects.
pub const EM_BPF: u16 = 247;

/// Section holding program or data bytes.
pub const SHT_PROGBITS: u32 = 1;
/// Section holding a symbol table.
pub const SHT_SYMTAB: u32 = 2;
/// Section holding relocations with addends.
pub const SHT_RELA: u32 = 4;
/// Section occupying no file bytes.
pub const SHT_NOBITS: u32 = 8;
/// Section holding relocations without addends.
pub const SHT_REL: u32 = 9;

/// Section flag: occupies memory at run time.
pub const SHF_ALLOC: u64 = 2;
/// Section flag: holds executable instructions.
pub const SHF_EXECINSTR: u64 = 4;

/// Symbol type: function.
pub const STT_FUNC: u8 = 2;
/// Symbol binding: local.
pub const STB_LOCAL: u8 = 0;
/// Symbol binding: global.
pub const STB_GLOBAL: u8 = 1;

/// Relocation patching a 64-bit immediate spread over an instruction pair.
pub const R_BPF_64_64: u32 = 1;
/// Relocation patching a single 32-bit immediate.
pub const R_BPF_64_32: u32 = 10;

/// An ELF64 section header.
#[derive(Clone, Copy, Debug, PartialEq, Eq, Structural)]
pub struct SectionHeader {
    pub sh_name: u32,
    pub sh_type: u32,
    pub sh_flags: u64,
    pub sh_addr: u64,
    pub sh_offset: u64,
    pub sh_size: u64,
    pub sh_link: u32,
    pub sh_info: u32,
    pub sh_addralign: u64,
    pub sh_entsize: u64,
}

/// An ELF64 symbol.
#[derive(Clone, Copy, Debug, PartialEq, Eq, Structural)]
pub struct Sym {
    pub st_name: u32,
    pub st_info: u8,
    pub st_other: u8,
    pub st_shndx: u16,
    pub st_value: u64,
    pub st_size: u64,
}

impl Sym {
    /// The binding half of `st_info`.
    pub open spec fn spec_bind(self) -> u8 {
        (self.st_info / 16) as u8
    }

    /// The type half of `st_info`.
    pub open spec fn spec_typ(self) -> u8 {
        (self.st_info % 16) as u8
    }

    pub fn bind(&self) -> (r: u8)
        ensures
            r == self.spec_bind(),
    {
        self.st_info / 16
    }

    pub fn typ(&self) -> (r: u8)
        ensures
            r == self.spec_typ(),
    {
        self.st_info % 16
    }

    /// A symbol is an import when it is undefined in its object: its section
    /// index is the reserved index zero.
    pub open spec fn spec_is_import(self) -> bool {
        self.st_shndx == 0
    }

    pub fn is_import(&self) -> (r: bool)
        ensures
            r == self.spec_is_import(),
    {
        self.st_shndx == 0
    }
}

/// One relocation record. `r_sym` and `r_type` are the two halves of the
/// on-disk `r_info` word; an addend, if present, is ignored.
#[derive(Clone, Copy, Debug, PartialEq, Eq, Structural)]
pub struct Reloc {
    pub r_offset: u64,
    pub r_sym: u32,
    pub r_type: u32,
}

/// The relocations of one relocation section, together with the index of the
/// section they apply to (the reloc section's `sh_info`).
#[derive(Clone, Debug)]
pub struct RelocSection {
    pub target_section: u32,
    pub relocs: Vec<Reloc>,
}

/// A parsed ELF64 object.
#[derive(Clone, Debug)]
pub struct ElfFile {
    pub e_machine: u16,
    pub section_headers: Vec<SectionHeader>,
    pub syms: Vec<Sym>,
    pub shdr_strtab: Vec<u8>,
    pub shdr_relocs: Vec<RelocSection>,
}

/// The 16-bit word at byte offset `off`.
pub open spec fn spec_u16_at(b: Seq<u8>, off: int) -> u16 {
    spec_u16_from_le_bytes(b.subrange(off, off + 2))
}

/// The 32-bit word at byte offset `off`.
pub open spec fn spec_u32_at(b: Seq<u8>, off: int) -> u32 {
    spec_u32_from_le_bytes(b.subrange(off, off + 4))
}

/// The 64-bit word at byte offset `off`.
pub open spec fn spec_u64_at(b: Seq<u8>, off: int) -> u64 {
    spec_u64_from_le_bytes(b.subrange(off, off + 8))
}

pub fn read_u16(b: &Vec<u8>, off: usize) -> (r: u16)
    requires
        off + 2 <= b.len(),
    ensures
        r == spec_u16_at(b@, off as int),
{
    u16_from_le_bytes(slice_subrange(b.as_slice(), off, off + 2))
}

pub fn read_u32(b: &Vec<u8>, off: usize) -> (r: u32)
    requires
        off + 4 <= b.len(),
    ensures
        r == spec_u32_at(b@, off as int),
{
    u32_from_le_bytes(slice_subrange(b.as_slice(), off, off + 4))
}

pub fn read_u64(b: &Vec<u8>, off: usize) -> (r: u64)
    requires
        off + 8 <= b.len(),
    ensures
        r == spec_u64_at(b@, off as int),
{
    u64_from_le_bytes(slice_subrange(b.as_slice(), off, off + 8))
}

/// The section header encoded at byte offset `off`.
pub open spec fn spec_shdr_at(b: Seq<u8>, off: int) -> SectionHeader {
    SectionHeader {
        sh_name: spec_u32_at(b, off),
        sh_type: spec_u32_at(b, off + 4),
        sh_flags: spec_u64_at(b, off + 8),
        sh_addr: spec_u64_at(b, off + 16),
        sh_offset: spec_u64_at(b, off + 24),
        sh_size: spec_u64_at(b, off + 32),
        sh_link: spec_u32_at(b, off + 40),
        sh_info: spec_u32_at(b, off + 44),
        sh_addralign: spec_u64_at(b, off + 48),
        sh_entsize: spec_u64_at(b, off + 56),
    }
}

/// The symbol encoded at byte offset `off`.
pub open spec fn spec_sym_at(b: Seq<u8>, off: int) -> Sym {
    Sym {
        st_name: spec_u32_at(b, off),
        st_info: b[off + 4],
        st_other: b[off + 5],
        st_shndx: spec_u16_at(b, off + 6),
        st_value: spec_u64_at(b, off + 8),
        st_size: spec_u64_at(b, off + 16),
    }
}

/// The relocation record encoded at byte offset `off`.
pub open spec fn spec_reloc_at(b: Seq<u8>, off: int) -> Reloc {
    let info = spec_u64_at(b, off + 8);
    Reloc {
        r_offset: spec_u64_at(b, off),
        r_sym: (info / 0x1_0000_0000) as u32,
        r_type: (info % 0x1_0000_0000) as u32,
    }
}

pub open spec fn spec_e_machine(b: Seq<u8>) -> u16 {
    spec_u16_at(b, 18)
}

pub open spec fn spec_e_shoff(b: Seq<u8>) -> u64 {
    spec_u64_at(b, 40)
}

pub open spec fn spec_e_shnum(b: Seq<u8>) -> u16 {
    spec_u16_at(b, 60)
}

pub open spec fn spec_e_shstrndx(b: Seq<u8>) -> u16 {
    spec_u16_at(b, 62)
}

/// The bytes begin with a little-endian ELF64 file header.
pub open spec fn spec_header_wf(b: Seq<u8>) -> bool {
    &&& b.len() >= 64
    &&& b[0] == 0x7f
    &&& b[1] == 0x45
    &&& b[2] == 0x4c
    &&& b[3] == 0x46
    &&& b[4] == 2
    &&& b[5] == 1
}

/// Index of the first symbol-table section at or after `i`, or the section
/// count if there is none.
pub open spec fn spec_first_symtab(shdrs: Seq<SectionHeader>, i: int) -> int
    decreases shdrs.len() - i,
{
    if i < 0 || i >= shdrs.len() {
        shdrs.len() as int
    } else if shdrs[i].sh_type == SHT_SYMTAB {
        i
    } else {
        spec_first_symtab(shdrs, i + 1)
    }
}

/// Indices of the relocation sections at or after `i`, in order.
pub open spec fn spec_reloc_section_indices(shdrs: Seq<SectionHeader>, i: int) -> Seq<int>
    decreases shdrs.len() - i,
{
    if i < 0 || i >= shdrs.len() {
        Seq::empty()
    } else if shdrs[i].sh_type == SHT_REL || shdrs[i].sh_type == SHT_RELA {
        seq![i] + spec_reloc_section_indices(shdrs, i + 1)
    } else {
        spec_reloc_section_indices(shdrs, i + 1)
    }
}

/// Byte size of one relocation record of a section of type `sh_type`.
pub open spec fn spec_reloc_entsize(sh_type: u32) -> int {
    if sh_type == SHT_REL {
        16
    } else {
        24
    }
}

/// Everything `parse_elf` checks: a well-formed header, section headers in
/// bounds, a section-header string table in bounds, and every symbol-table
/// and relocation section in bounds.
pub open spec fn spec_parse_ok(b: Seq<u8>) -> bool {
    &&& spec_header_wf(b)
    &&& spec_e_shoff(b) + 64 * (spec_e_shnum(b) as int) <= b.len()
    &&& (spec_e_shstrndx(b) as int) < (spec_e_shnum(b) as int)
    &&& {
        let sh = spec_shdr_at(b, spec_e_shoff(b) + 64 * (spec_e_shstrndx(b) as int));
        sh.sh_type != SHT_NOBITS && sh.sh_offset + sh.sh_size <= b.len()
    }
    &&& forall|j: int|
        0 <= j < spec_e_shnum(b) ==> {
            let sh = #[trigger] spec_shdr_at(b, spec_e_shoff(b) + 64 * j);
            (sh.sh_type == SHT_SYMTAB || sh.sh_type == SHT_REL || sh.sh_type == SHT_RELA)
                ==> sh.sh_offset + sh.sh_size <= b.len()
        }
}

/// The parsed symbols are the records of the first symbol-table section.
pub open spec fn spec_syms_match(b: Seq<u8>, e: ElfFile) -> bool {
    let fi = spec_first_symtab(e.section_headers@, 0);
    if fi < e.section_headers@.len() {
        let sh = e.section_headers@[fi];
        &&& e.syms@.len() == sh.sh_size as int / 24
        &&& forall|i: int|
            0 <= i < e.syms@.len() ==> e.syms@[i] == spec_sym_at(b, sh.sh_offset + 24 * i)
    } else {
        e.syms@.len() == 0
    }
}

/// One parsed relocation section matches its on-disk form.
pub open spec fn spec_reloc_section_match(b: Seq<u8>, sh: SectionHeader, rs: RelocSection) -> bool {
    let esz = spec_reloc_entsize(sh.sh_type);
    &&& rs.target_section == sh.sh_info
    &&& rs.relocs@.len() == sh.sh_size as int / esz
    &&& forall|m: int|
        0 <= m < rs.relocs@.len() ==> rs.relocs@[m] == spec_reloc_at(b, sh.sh_offset + esz * m)
}

/// The parsed relocation sections are exactly the file's relocation
/// sections, in section order.
pub open spec fn spec_relocs_match(b: Seq<u8>, e: ElfFile) -> bool {
    let idxs = spec_reloc_section_indices(e.section_headers@, 0);
    &&& e.shdr_relocs@.len() == idxs.len()
    &&& forall|k: int|
        0 <= k < idxs.len() ==> spec_reloc_section_match(
            b,
            e.section_headers@[idxs[k]],
            #[trigger] e.shdr_relocs@[k],
        )
}

/// A parsed file matches its bytes.
pub open spec fn spec_elf_matches(b: Seq<u8>, e: ElfFile) -> bool {
    let shoff = spec_e_shoff(b) as int;
    let shnum = spec_e_shnum(b) as int;
    &&& e.e_machine == spec_e_machine(b)
    &&& e.section_headers@.len() == shnum
    &&& forall|j: int|
        0 <= j < shnum ==> e.section_headers@[j] == spec_shdr_at(b, shoff + 64 * j)
    &&& {
        let sh = spec_shdr_at(b, shoff + 64 * (spec_e_shstrndx(b) as int));
        e.shdr_strtab@ == b.subrange(sh.sh_offset as int, sh.sh_offset + sh.sh_size)
    }
    &&& spec_syms_match(b, e)
    &&& spec_relocs_match(b, e)
}

/// Read one section header.
fn read_shdr(b: &Vec<u8>, off: usize) -> (r: SectionHeader)
    requires
        off + 64 <= b.len(),
    ensures
        r == spec_shdr_at(b@, off as int),
{
    SectionHeader {
        sh_name: read_u32(b, off),
        sh_type: read_u32(b, off + 4),
        sh_flags: read_u64(b, off + 8),
        sh_addr: read_u64(b, off + 16),
        sh_offset: read_u64(b, off + 24),
        sh_size: read_u64(b, off + 32),
        sh_link: read_u32(b, off + 40),
        sh_info: read_u32(b, off + 44),
        sh_addralign: read_u64(b, off + 48),
        sh_entsize: read_u64(b, off + 56),
    }
}

/// Read one symbol record.
fn read_sym(b: &Vec<u8>, off: usize) -> (r: Sym)
    requires
        off + 24 <= b.len(),
    ensures
        r == spec_sym_at(b@, off as int),
{
    Sym {
        st_name: read_u32(b, off),
        st_info: b[off + 4],
        st_other: b[off + 5],
        st_shndx: read_u16(b, off + 6),
        st_value: read_u64(b, off + 8),
        st_size: read_u64(b, off + 16),
    }
}

/// Read one relocation record.
fn read_reloc(b: &Vec<u8>, off: usize) -> (r: Reloc)
    requires
        off + 16 <= b.len(),
    ensures
        r == spec_reloc_at(b@, off as int),
{
    let info = read_u64(b, off + 8);
    let r_sym_w = info / 0x1_0000_0000;
    let r_type_w = info % 0x1_0000_0000;
    Reloc { r_offset: read_u64(b, off), r_sym: r_sym_w as u32, r_type: r_type_w as u32 }
}

/// Parse an ELF64 object. Succeeds exactly on inputs satisfying
/// [`spec_parse_ok`]; the result then matches the bytes per
/// [`spec_elf_matches`].
pub fn parse_elf(b: &Vec<u8>) -> (r: Result<ElfFile, LinkError>)
    ensures
        r is Ok <==> spec_parse_ok(b@),
        r is Ok ==> spec_elf_matches(b@, r->Ok_0),
        r is Err ==> r->Err_0.kind == LinkErrorKind::NotElf
            || r->Err_0.kind == LinkErrorKind::TruncatedSection,
{
    if b.len() < 64 {
        return Err(LinkError::new(LinkErrorKind::NotElf));
    }
    if !(b[0] == 0x7f && b[1] == 0x45 && b[2] == 0x4c && b[3] == 0x46 && b[4] == 2 && b[5] == 1) {
        return Err(LinkError::new(LinkErrorKind::NotElf));
    }
    let e_machine = read_u16(b, 18);
    let e_shoff = read_u64(b, 40);
    let e_shnum = read_u16(b, 60);
    let e_shstrndx = read_u16(b, 62);

    let n = b.len();
    if e_shoff > n as u64 {
        return Err(LinkError::new(LinkErrorKind::NotElf));
    }
    let shoff = e_shoff as usize;
    let shnum = e_shnum as usize;
    if 64 * shnum > n - shoff {
        return Err(LinkError::new(LinkErrorKind::NotElf));
    }
    if !((e_shstrndx as usize) < shnum) {
        return Err(LinkError::new(LinkErrorKind::NotElf));
    }

    // Section headers.
    let mut section_headers: Vec<SectionHeader> = Vec::new();
    let mut j: usize = 0;
    while j < shnum
        invariant
            0 <= j <= shnum,
            shnum == spec_e_shnum(b@) as int,
            shoff == spec_e_shoff(b@) as int,
            n == b@.len(),
            shoff + 64 * shnum <= n,
            section_headers@.len() == j,
            forall|jj: int|
                0 <= jj < j ==> section_headers@[jj] == spec_shdr_at(b@, shoff + 64 * jj),
        decreases shnum - j,
    {
        let sh = read_shdr(b, shoff + 64 * j);
        section_headers.push(sh);
        j = j + 1;
    }

    // Section-header string table.
    let strtab_sh = section_headers[e_shstrndx as usize];
    if strtab_sh.sh_type == SHT_NOBITS {
        return Err(LinkError::new(LinkErrorKind::TruncatedSection));
    }
    if strtab_sh.sh_size > n as u64 || strtab_sh.sh_offset > n as u64 - strtab_sh.sh_size {
        return Err(LinkError::new(LinkErrorKind::TruncatedSection));
    }
    let st_off = strtab_sh.sh_offset as usize;
    let st_end = st_off + strtab_sh.sh_size as usize;
    let shdr_strtab: Vec<u8> = slice_to_vec(slice_subrange(b.as_slice(), st_off, st_end));

    // Bounds of every symbol-table and relocation section.
    let mut j2: usize = 0;
    while j2 < shnum
        invariant
            0 <= j2 <= shnum,
            shnum == spec_e_shnum(b@) as int,
            shoff == spec_e_shoff(b@) as int,
            n == b@.len(),
            section_headers@.len() == shnum,
            forall|jj: int|
                0 <= jj < shnum ==> section_headers@[jj] == spec_shdr_at(b@, shoff + 64 * jj),
            forall|jj: int|
                0 <= jj < j2 ==> {
                    let sh = #[trigger] spec_shdr_at(b@, spec_e_shoff(b@) + 64 * jj);
                    (sh.sh_type == SHT_SYMTAB || sh.sh_type == SHT_REL || sh.sh_type == SHT_RELA)
                        ==> sh.sh_offset + sh.sh_size <= b@.len()
                },
        decreases shnum - j2,
    {
        let sh = section_headers[j2];
        if sh.sh_type == SHT_SYMTAB || sh.sh_type == SHT_REL || sh.sh_type == SHT_RELA {
            if sh.sh_size > n as u64 || sh.sh_offset > n as u64 - sh.sh_size {
                return Err(LinkError::new(LinkErrorKind::TruncatedSection));
            }
        }
        j2 = j2 + 1;
    }

    // First symbol table.
    let mut symtab_index: usize = shnum;
    let mut j3: usize = 0;
    while j3 < shnum && symtab_index == shnum
        invariant
            0 <= j3 <= shnum,
            section_headers@.len() == shnum,
            symtab_index == shnum || (symtab_index < shnum && symtab_index as int
                == spec_first_symtab(section_headers@, 0) && section_headers@[symtab_index as int].sh_type
                == SHT_SYMTAB),
            symtab_index == shnum ==> spec_first_symtab(section_headers@, 0)
                == spec_first_symtab(section_headers@, j3 as int),
        decreases shnum - j3 + (if symtab_index == shnum { 1int } else { 0int }),
    {
        if section_headers[j3].sh_type == SHT_SYMTAB {
            symtab_index = j3;
        } else {
            j3 = j3 + 1;
        }
    }
    proof {
        if symtab_index == shnum {
            assert(spec_first_symtab(section_headers@, shnum as int) == shnum as int);
        }
    }

    let mut syms: Vec<Sym> = Vec::new();
    if symtab_index < shnum {
        let sh = section_headers[symtab_index];
        proof {
            assert(spec_shdr_at(b@, spec_e_shoff(b@) + 64 * (symtab_index as int)).sh_offset
                + spec_shdr_at(b@, spec_e_shoff(b@) + 64 * (symtab_index as int)).sh_size
                <= b@.len());
        }
        let count_w = sh.sh_size / 24;
        let count = count_w as usize;
        let sym_off = sh.sh_offset as usize;
        proof {
            assert(24 * (sh.sh_size as int / 24) <= sh.sh_size as int) by (nonlinear_arith);
            assert(count as int == sh.sh_size as int / 24);
        }
        let mut i: usize = 0;
        while i < count
            invariant
                0 <= i <= count,
                n == b@.len(),
                sym_off + sh.sh_size as int <= n,
                24 * (count as int) <= sh.sh_size as int,
                syms@.len() == i,
                forall|ii: int| 0 <= ii < i ==> syms@[ii] == spec_sym_at(b@, sym_off + 24 * ii),
            decreases count - i,
        {
            proof {
                assert(24 * (i as int + 1) <= 24 * (count as int));
            }
            let s = read_sym(b, sym_off + 24 * i);
            syms.push(s);
            i = i + 1;
        }
    }

    // Relocation sections.
    let mut shdr_relocs: Vec<RelocSection> = Vec::new();
    let ghost mut ridxs: Seq<int> = Seq::empty();
    let mut j4: usize = 0;
    while j4 < shnum
        invariant
            0 <= j4 <= shnum,
            shnum == spec_e_shnum(b@) as int,
            shoff == spec_e_shoff(b@) as int,
            n == b@.len(),
            section_headers@.len() == shnum,
            forall|jj: int|
                0 <= jj < shnum ==> section_headers@[jj] == spec_shdr_at(b@, shoff + 64 * jj),
            forall|jj: int|
                0 <= jj < shnum ==> {
                    let sh = #[trigger] spec_shdr_at(b@, spec_e_shoff(b@) + 64 * jj);
                    (sh.sh_type == SHT_SYMTAB || sh.sh_type == SHT_REL || sh.sh_type == SHT_RELA)
                        ==> sh.sh_offset + sh.sh_size <= b@.len()
                },
            spec_reloc_section_indices(section_headers@, 0) =~= ridxs
                + spec_reloc_section_indices(section_headers@, j4 as int),
            shdr_relocs@.len() == ridxs.len(),
            forall|k: int| 0 <= k < ridxs.len() ==> 0 <= #[trigger] ridxs[k] < shnum,
            forall|k: int|
                0 <= k < ridxs.len() ==> spec_reloc_section_match(
                    b@,
                    section_headers@[ridxs[k]],
                    #[trigger] shdr_relocs@[k],
                ),
        decreases shnum - j4,
    {
        let sh = section_headers[j4];
        if sh.sh_type == SHT_REL || sh.sh_type == SHT_RELA {
            proof {
                assert(spec_shdr_at(b@, spec_e_shoff(b@) + 64 * (j4 as int)).sh_offset
                    + spec_shdr_at(b@, spec_e_shoff(b@) + 64 * (j4 as int)).sh_size <= b@.len());
            }
            let esz: usize = if sh.sh_type == SHT_REL {
                16
            } else {
                24
            };
            let count_w = sh.sh_size / esz as u64;
            let count = count_w as usize;
            let sec_off = sh.sh_offset as usize;
            proof {
                assert((esz as int) * (sh.sh_size as int / esz as int) <= sh.sh_size as int)
                    by (nonlinear_arith)
                    requires
                        esz == 16 || esz == 24,
                ;
                assert(sh.sh_size as int / esz as int == count_w as int);
            }
            let mut relocs: Vec<Reloc> = Vec::new();
            let mut m: usize = 0;
            while m < count
                invariant
                    0 <= m <= count,
                    esz == 16 || esz == 24,
                    n == b@.len(),
                    sec_off + sh.sh_size as int <= n,
                    (esz as int) * (count as int) <= sh.sh_size as int,
                    relocs@.len() == m,
                    forall|mm: int|
                        0 <= mm < m ==> relocs@[mm] == spec_reloc_at(b@, sec_off + esz * mm),
                decreases count - m,
            {
                proof {
                    assert((esz as int) * (m as int + 1) <= (esz as int) * (count as int))
                        by (nonlinear_arith)
                        requires
                            m as int + 1 <= count as int,
                            esz == 16 || esz == 24,
                    ;
                }
                let rl = read_reloc(b, sec_off + esz * m);
                relocs.push(rl);
                m = m + 1;
            }
            shdr_relocs.push(RelocSection { target_section: sh.sh_info, relocs });
            proof {
                ridxs = ridxs.push(j4 as int);
                assert(spec_reloc_section_indices(section_headers@, j4 as int) =~= seq![
                    j4 as int,
                ] + spec_reloc_section_indices(section_headers@, j4 as int + 1));
            }
        } else {
            proof {
                assert(spec_reloc_section_indices(section_headers@, j4 as int)
                    =~= spec_reloc_section_indices(section_headers@, j4 as int + 1));
            }
        }
        j4 = j4 + 1;
    }
    proof {
        assert(spec_reloc_section_indices(section_headers@, shnum as int) =~= Seq::empty());
        assert(spec_reloc_section_indices(section_headers@, 0) =~= ridxs);
    }

    Ok(ElfFile { e_machine, section_headers, syms, shdr_strtab, shdr_relocs })
}

/// Index of the first NUL byte at or after `i`, or the length if none.
pub open spec fn spec_cstr_end(s: Seq<u8>, i: int) -> int
    decreases s.len() - i,
{
    if i < 0 || i >= s.len() {
        s.len() as int
    } else if s[i] == 0 {
        i
    } else {
        spec_cstr_end(s, i + 1)
    }
}

/// A string-table index is valid when a NUL terminator exists at or after it.
pub open spec fn spec_strtab_ok(s: Seq<u8>, i: int) -> bool {
    0 <= i && spec_cstr_end(s, i) < s.len()
}

/// The string at index `i`: the bytes up to (not including) the first NUL.
pub open spec fn spec_strtab_at(s: Seq<u8>, i: int) -> Seq<u8> {
    s.subrange(i, spec_cstr_end(s, i))
}

/// Fetch the NUL-terminated string at `index`, as the lookup the symbol
/// names of a BPF object require: they live in the section-header string
/// table.
pub fn strtab_get(strtab: &Vec<u8>, index: usize) -> (r: Result<Vec<u8>, LinkError>)
    ensures
        r is Ok <==> spec_strtab_ok(strtab@, index as int),
        r is Ok ==> r->Ok_0@ == spec_strtab_at(strtab@, index as int),
        r is Err ==> r->Err_0.kind == LinkErrorKind::BadStringIndex,
{
    let mut j: usize = index;
    while j < strtab.len()
        invariant
            index <= j,
            spec_cstr_end(strtab@, index as int) == spec_cstr_end(strtab@, j as int),
        decreases strtab.len() - j,
    {
        if strtab[j] == 0 {
            let out = slice_to_vec(slice_subrange(strtab.as_slice(), index, j));
            return Ok(out);
        }
        j = j + 1;
    }
    Err(LinkError::new(LinkErrorKind::BadStringIndex))
}

} // verus!
