//! End-to-end linking scenarios over hand-assembled BPF objects.

use wbpf::error::LinkErrorKind;
use wbpf::local_linker::{LocalLinker, LocalLinkerConfig};
use wbpf::global_linker::{GlobalLinker, GlobalLinkerConfig};
use wbpf::image::{HostPlatform, TargetMachine};

const EM_BPF: u16 = 247;
const SHT_PROGBITS: u32 = 1;
const SHT_SYMTAB: u32 = 2;
const SHT_STRTAB: u32 = 3;
const SHT_REL: u32 = 9;
const SHF_ALLOC: u64 = 2;
const SHF_EXECINSTR: u64 = 4;

struct Sect {
    name_off: u32,
    sh_type: u32,
    flags: u64,
    data: Vec<u8>,
    link: u32,
    info: u32,
    entsize: u64,
}

fn build_elf(sections: Vec<Sect>, shstrndx: u16) -> Vec<u8> {
    let n = sections.len() + 1;
    let mut off: u64 = 64;
    let mut offs = Vec::new();
    for s in &sections {
        offs.push(off);
        off += s.data.len() as u64;
    }
    let shoff = off;
    let mut out = vec![0u8; 64];
    out[0..4].copy_from_slice(&[0x7f, b'E', b'L', b'F']);
    out[4] = 2;
    out[5] = 1;
    out[6] = 1;
    out[18..20].copy_from_slice(&EM_BPF.to_le_bytes());
    out[40..48].copy_from_slice(&shoff.to_le_bytes());
    out[58..60].copy_from_slice(&64u16.to_le_bytes());
    out[60..62].copy_from_slice(&(n as u16).to_le_bytes());
    out[62..64].copy_from_slice(&shstrndx.to_le_bytes());
    for s in &sections {
        out.extend_from_slice(&s.data);
    }
    out.extend_from_slice(&[0u8; 64]);
    for (i, s) in sections.iter().enumerate() {
        let mut h = [0u8; 64];
        h[0..4].copy_from_slice(&s.name_off.to_le_bytes());
        h[4..8].copy_from_slice(&s.sh_type.to_le_bytes());
        h[8..16].copy_from_slice(&s.flags.to_le_bytes());
        h[24..32].copy_from_slice(&offs[i].to_le_bytes());
        h[32..40].copy_from_slice(&(s.data.len() as u64).to_le_bytes());
        h[40..44].copy_from_slice(&s.link.to_le_bytes());
        h[44..48].copy_from_slice(&s.info.to_le_bytes());
        h[56..64].copy_from_slice(&s.entsize.to_le_bytes());
        out.extend_from_slice(&h);
    }
    out
}

fn sym(name_off: u32, bind: u8, typ: u8, shndx: u16, value: u64) -> Vec<u8> {
    let mut s = vec![0u8; 24];
    s[0..4].copy_from_slice(&name_off.to_le_bytes());
    s[4] = (bind << 4) | (typ & 0xf);
    s[6..8].copy_from_slice(&shndx.to_le_bytes());
    s[8..16].copy_from_slice(&value.to_le_bytes());
    s
}

fn rel(off: u64, sym_index: u32, ty: u32) -> Vec<u8> {
    let mut r = vec![0u8; 16];
    r[0..8].copy_from_slice(&off.to_le_bytes());
    let info = ((sym_index as u64) << 32) | (ty as u64);
    r[8..16].copy_from_slice(&info.to_le_bytes());
    r
}

fn insn(opc: u8, dst: u8, src: u8, off: i16, imm: i32) -> Vec<u8> {
    let mut b = vec![opc, dst | (src << 4)];
    b.extend_from_slice(&off.to_le_bytes());
    b.extend_from_slice(&imm.to_le_bytes());
    b
}

const MOV64_IMM: u8 = 0xb7;
const CALL: u8 = 0x85;
const EXIT: u8 = 0x95;
const JA: u8 = 0x05;
const LD_DW_IMM: u8 = 0x18;
const SUB64_IMM: u8 = 0x17;
const ADD64_IMM: u8 = 0x07;
const ST_DW_REG: u8 = 0x7b;
const LD_DW_REG: u8 = 0x79;

/// A one-section-of-code object: `.text`, a symbol table, a string table
/// holding both section and symbol names, and optionally a relocation
/// section over `.text` and a data section.
fn simple_object(
    text: Vec<u8>,
    strtab: Vec<u8>,
    syms: Vec<Vec<u8>>,
    relocs: Option<Vec<Vec<u8>>>,
    data: Option<Vec<u8>>,
) -> Vec<u8> {
    let mut symtab = Vec::new();
    for s in syms {
        symtab.extend_from_slice(&s);
    }
    let mut sections = vec![
        Sect {
            name_off: 0,
            sh_type: SHT_PROGBITS,
            flags: SHF_ALLOC | SHF_EXECINSTR,
            data: text,
            link: 0,
            info: 0,
            entsize: 0,
        },
        Sect { name_off: 0, sh_type: SHT_SYMTAB, flags: 0, data: symtab, link: 3, info: 0, entsize: 24 },
        Sect { name_off: 0, sh_type: SHT_STRTAB, flags: 0, data: strtab, link: 0, info: 0, entsize: 0 },
    ];
    if let Some(rs) = relocs {
        let mut rdata = Vec::new();
        for r in rs {
            rdata.extend_from_slice(&r);
        }
        sections.push(Sect {
            name_off: 0,
            sh_type: SHT_REL,
            flags: 0,
            data: rdata,
            link: 2,
            info: 1,
            entsize: 16,
        });
    }
    if let Some(d) = data {
        sections.push(Sect {
            name_off: 0,
            sh_type: SHT_PROGBITS,
            flags: SHF_ALLOC,
            data: d,
            link: 0,
            info: 0,
            entsize: 0,
        });
    }
    build_elf(sections, 3)
}

fn config(
    host_helpers: Vec<(&str, i32)>,
    data_offset: u32,
    roots: Option<Vec<&str>>,
) -> GlobalLinkerConfig {
    GlobalLinkerConfig {
        target_machine: TargetMachine { name: Vec::new(), version: Vec::new(), helpers: Vec::new() },
        host_platform: HostPlatform {
            data_offset,
            helpers: host_helpers.into_iter().map(|(n, v)| (n.as_bytes().to_vec(), v)).collect(),
        },
        dce_roots: roots.map(|rs| rs.into_iter().map(|r| r.as_bytes().to_vec()).collect()),
    }
}

fn offset_of(table: &Vec<(Vec<u8>, i32)>, name: &str) -> Option<i32> {
    for (n, v) in table {
        if n.as_slice() == name.as_bytes() {
            return Some(*v);
        }
    }
    None
}

fn trampoline_bytes() -> Vec<u8> {
    let mut t = Vec::new();
    t.extend_from_slice(&insn(0xb4, 10, 0, 0, 0));
    for r in 0..10u8 {
        t.extend_from_slice(&insn(LD_DW_REG, r, 10, (8 * r as i16) as i16, 0));
    }
    t.extend_from_slice(&insn(ADD64_IMM, 10, 0, 0, 80));
    t.extend_from_slice(&insn(JA, 0, 1, 0, 0));
    t
}

#[test]
fn empty_link() {
    let mut linker = GlobalLinker::new(config(vec![], 0, None));
    let image = linker.emit().expect("empty link");
    assert_eq!(image.code.len(), 104);
    assert_eq!(image.code, trampoline_bytes());
    assert!(image.data.is_empty());
    assert!(image.offset_table.func_offsets.is_empty());
}

#[test]
fn trampoline_prefix_identical_across_inputs() {
    let mut l1 = GlobalLinker::new(config(vec![], 0, None));
    let img1 = l1.emit().expect("link");

    let mut text = insn(MOV64_IMM, 0, 0, 0, 42);
    text.extend_from_slice(&insn(EXIT, 0, 0, 0, 0));
    let obj = simple_object(text, b"\0entry\0".to_vec(), vec![sym(1, 1, 2, 1, 0)], None, None);
    let mut l2 = GlobalLinker::new(config(vec![], 0, None));
    l2.add_object(b"a.o".to_vec(), obj).expect("add");
    let img2 = l2.emit().expect("link");

    assert_eq!(&img1.code[0..104], &img2.code[0..104]);
    assert_eq!(&img2.code[0..104], trampoline_bytes().as_slice());
}

#[test]
fn single_leaf_function() {
    let mut text = insn(MOV64_IMM, 0, 0, 0, 42);
    text.extend_from_slice(&insn(EXIT, 0, 0, 0, 0));
    let obj = simple_object(text, b"\0entry\0".to_vec(), vec![sym(1, 1, 2, 1, 0)], None, None);
    let mut linker = GlobalLinker::new(config(vec![], 0, Some(vec!["entry"])));
    linker.add_object(b"a.o".to_vec(), obj).expect("add");
    let image = linker.emit().expect("link");
    assert_eq!(offset_of(&image.offset_table.func_offsets, "entry"), Some(104));
    assert_eq!(image.offset_table.func_offsets.len(), 1);
    assert_eq!(&image.code[104..112], insn(MOV64_IMM, 0, 0, 0, 42).as_slice());
    // The trailing EXIT is rewritten to the return form of JA.
    assert_eq!(&image.code[112..120], insn(JA, 0, 1, 0, 0).as_slice());
}

#[test]
fn cross_object_call_unresolved_without_global() {
    // Object A calls `foo`, undefined in A; object B defines `foo` as a
    // static, so it is merged under `b.o:foo` and the bare lookup fails.
    let mut text_a = insn(CALL, 0, 1, 0, -1);
    text_a.extend_from_slice(&insn(EXIT, 0, 0, 0, 0));
    let obj_a = simple_object(
        text_a,
        b"\0entry\0foo\0".to_vec(),
        vec![sym(1, 1, 2, 1, 0), sym(7, 1, 0, 0, 0)],
        Some(vec![rel(0, 1, 10)]),
        None,
    );
    let mut text_b = insn(MOV64_IMM, 0, 0, 0, 1);
    text_b.extend_from_slice(&insn(EXIT, 0, 0, 0, 0));
    let obj_b = simple_object(text_b, b"\0foo\0".to_vec(), vec![sym(1, 0, 2, 1, 0)], None, None);

    let mut linker = GlobalLinker::new(config(vec![], 0, None));
    linker.add_object(b"a.o".to_vec(), obj_a).expect("add a");
    linker.add_object(b"b.o".to_vec(), obj_b).expect("add b");
    let err = linker.emit().expect_err("unresolved");
    assert!(matches!(err.kind, LinkErrorKind::UnresolvedPseudoCall));
}

#[test]
fn cross_object_call_resolved_via_global() {
    let mut text_a = insn(CALL, 0, 1, 0, -1);
    text_a.extend_from_slice(&insn(EXIT, 0, 0, 0, 0));
    let obj_a = simple_object(
        text_a,
        b"\0entry\0foo\0".to_vec(),
        vec![sym(1, 1, 2, 1, 0), sym(7, 1, 0, 0, 0)],
        Some(vec![rel(0, 1, 10)]),
        None,
    );
    let mut text_b = insn(MOV64_IMM, 0, 0, 0, 1);
    text_b.extend_from_slice(&insn(EXIT, 0, 0, 0, 0));
    let obj_b = simple_object(text_b, b"\0foo\0".to_vec(), vec![sym(1, 1, 2, 1, 0)], None, None);

    let mut linker = GlobalLinker::new(config(vec![], 0, None));
    linker.add_object(b"a.o".to_vec(), obj_a).expect("add a");
    linker.add_object(b"b.o".to_vec(), obj_b).expect("add b");
    let image = linker.emit().expect("link");
    let entry = offset_of(&image.offset_table.func_offsets, "entry").unwrap();
    let foo = offset_of(&image.offset_table.func_offsets, "foo").unwrap();
    assert_eq!(entry, 104);
    assert_eq!(foo, 120);
    // The call was rewritten into the call form of JA with the displacement
    // to `foo`: (120 - 104) / 8 - 1 = 1, and the caller frame in `imm`.
    assert_eq!(&image.code[104..112], insn(JA, 0, 2, 1, -8).as_slice());
}

#[test]
fn image_carries_configured_descriptors() {
    let mut linker = GlobalLinker::new(config(vec![("printk", 7)], 0x40, None));
    let image = linker.emit().expect("link");
    assert_eq!(image.platform.data_offset, 0x40);
    assert_eq!(image.platform.helpers, vec![(b"printk".to_vec(), 7)]);
    assert!(image.machine.helpers.is_empty());
    // The linker handed its descriptors to the image; a second emit links
    // nothing, with empty descriptors.
    let second = linker.emit().expect("second link");
    assert_eq!(second.code, trampoline_bytes());
    assert_eq!(second.platform.data_offset, 0);
    assert!(second.platform.helpers.is_empty());
}

#[test]
fn helper_import_rewrite() {
    let mut text = insn(CALL, 0, 1, 0, -1);
    text.extend_from_slice(&insn(EXIT, 0, 0, 0, 0));
    let obj = simple_object(
        text,
        b"\0entry\0printk\0".to_vec(),
        vec![sym(1, 1, 2, 1, 0), sym(7, 1, 0, 0, 0)],
        Some(vec![rel(0, 1, 10)]),
        None,
    );
    let mut linker = GlobalLinker::new(config(vec![("printk", 7)], 0, None));
    linker.add_object(b"a.o".to_vec(), obj).expect("add");
    let image = linker.emit().expect("link");
    // The call instruction keeps its opcode but now carries the helper index
    // and a cleared pseudo-call marker.
    assert_eq!(&image.code[104..112], insn(CALL, 0, 0, 0, 7).as_slice());
}

#[test]
fn dead_code_elimination() {
    // main at 0 calls used at 16 (section-relative pseudo-call, no reloc):
    // imm = target/8 - this/8 - 1 = 2/1 - 0 - 1 = 1.
    let mut text = insn(CALL, 0, 1, 0, 1);
    text.extend_from_slice(&insn(EXIT, 0, 0, 0, 0));
    text.extend_from_slice(&insn(MOV64_IMM, 0, 0, 0, 2));
    text.extend_from_slice(&insn(EXIT, 0, 0, 0, 0));
    text.extend_from_slice(&insn(MOV64_IMM, 0, 0, 0, 3));
    text.extend_from_slice(&insn(EXIT, 0, 0, 0, 0));
    text.extend_from_slice(&insn(MOV64_IMM, 0, 0, 0, 4));
    text.extend_from_slice(&insn(EXIT, 0, 0, 0, 0));
    let strtab = b"\0main\0used\0unused_a\0unused_b\0".to_vec();
    let obj = simple_object(
        text,
        strtab,
        vec![
            sym(1, 1, 2, 1, 0),
            sym(6, 1, 2, 1, 16),
            sym(11, 1, 2, 1, 32),
            sym(20, 1, 2, 1, 48),
        ],
        None,
        None,
    );
    let mut linker = GlobalLinker::new(config(vec![], 0, Some(vec!["main"])));
    linker.add_object(b"a.o".to_vec(), obj).expect("add");
    let image = linker.emit().expect("link");
    let table = &image.offset_table.func_offsets;
    assert_eq!(table.len(), 2);
    assert!(offset_of(table, "main").is_some());
    assert!(offset_of(table, "used").is_some());
    assert!(offset_of(table, "unused_a").is_none());
    assert!(offset_of(table, "unused_b").is_none());
}

#[test]
fn callee_saved_spill() {
    let mut text = insn(MOV64_IMM, 6, 0, 0, 1);
    text.extend_from_slice(&insn(MOV64_IMM, 8, 0, 0, 2));
    text.extend_from_slice(&insn(EXIT, 0, 0, 0, 0));
    let obj_bytes = simple_object(text, b"\0f\0".to_vec(), vec![sym(1, 1, 2, 1, 0)], None, None);
    let ll = LocalLinker::new(LocalLinkerConfig {});
    let obj = ll.link(b"a.o".to_vec(), obj_bytes).expect("local link");
    assert_eq!(obj.functions.len(), 1);
    let f = &obj.functions[0];
    assert_eq!(f.stack_usage, 0);
    let opcodes: Vec<(u8, u8, u8, i16, i32)> =
        f.code.iter().map(|a| (a.insn.opc, a.insn.dst, a.insn.src, a.insn.off, a.insn.imm)).collect();
    assert_eq!(
        opcodes,
        vec![
            (SUB64_IMM, 10, 0, 0, 16),
            (ST_DW_REG, 10, 6, 0, 0),
            (ST_DW_REG, 10, 8, 8, 0),
            (MOV64_IMM, 6, 0, 0, 1),
            (MOV64_IMM, 8, 0, 0, 2),
            (LD_DW_REG, 6, 10, 0, 0),
            (LD_DW_REG, 8, 10, 8, 0),
            (ADD64_IMM, 10, 0, 0, 16),
            (EXIT, 0, 0, 0, 0),
        ]
    );
}

#[test]
fn stack_escape_sets_conservative_usage() {
    // A store 600 bytes deep, then the stack pointer escaping into register
    // arithmetic: the escape pins the usage at the conservative 512.
    let mut text = insn(ST_DW_REG, 10, 1, -600, 0);
    text.extend_from_slice(&insn(0x0f, 0, 10, 0, 0));
    text.extend_from_slice(&insn(EXIT, 0, 0, 0, 0));
    let obj_bytes = simple_object(text, b"\0f\0".to_vec(), vec![sym(1, 1, 2, 1, 0)], None, None);
    let ll = LocalLinker::new(LocalLinkerConfig {});
    let obj = ll.link(b"a.o".to_vec(), obj_bytes).expect("local link");
    assert_eq!(obj.functions[0].stack_usage, 512);
}

#[test]
fn store_depth_sets_stack_usage() {
    let mut text = insn(ST_DW_REG, 10, 1, -24, 0);
    text.extend_from_slice(&insn(EXIT, 0, 0, 0, 0));
    let obj_bytes = simple_object(text, b"\0f\0".to_vec(), vec![sym(1, 1, 2, 1, 0)], None, None);
    let ll = LocalLinker::new(LocalLinkerConfig {});
    let obj = ll.link(b"a.o".to_vec(), obj_bytes).expect("local link");
    assert_eq!(obj.functions[0].stack_usage, 24);
}

#[test]
fn data_relocation_single_word() {
    // A 32-bit data relocation over a local data symbol: the immediate gains
    // the section base (after the platform data offset) plus the symbol
    // value.
    let mut text = insn(MOV64_IMM, 1, 0, 0, 5);
    text.extend_from_slice(&insn(EXIT, 0, 0, 0, 0));
    let obj = simple_object(
        text,
        b"\0entry\0d\0".to_vec(),
        vec![sym(1, 1, 2, 1, 0), sym(7, 0, 1, 5, 4)],
        Some(vec![rel(0, 1, 10)]),
        Some(vec![9, 8, 7, 6, 5, 4, 3, 2]),
    );
    let mut linker = GlobalLinker::new(config(vec![], 0x100, None));
    linker.add_object(b"a.o".to_vec(), obj).expect("add");
    let image = linker.emit().expect("link");
    assert_eq!(&image.code[104..112], insn(MOV64_IMM, 1, 0, 0, 5 + 0x100 + 4).as_slice());
    assert_eq!(image.data, vec![9, 8, 7, 6, 5, 4, 3, 2]);
}

#[test]
fn data_relocation_double_word() {
    // A 64-bit relocation spans the two records of a wide immediate load.
    let mut text = insn(LD_DW_IMM, 1, 0, 0, 5);
    text.extend_from_slice(&insn(0, 0, 0, 0, 0));
    text.extend_from_slice(&insn(EXIT, 0, 0, 0, 0));
    let obj = simple_object(
        text,
        b"\0entry\0d\0".to_vec(),
        vec![sym(1, 1, 2, 1, 0), sym(7, 0, 1, 5, 8)],
        Some(vec![rel(0, 1, 1)]),
        Some(vec![0; 16]),
    );
    let mut linker = GlobalLinker::new(config(vec![], 0x20, None));
    linker.add_object(b"a.o".to_vec(), obj).expect("add");
    let image = linker.emit().expect("link");
    assert_eq!(&image.code[104..112], insn(LD_DW_IMM, 1, 0, 0, 5 + 0x20 + 8).as_slice());
    assert_eq!(&image.code[112..120], insn(0, 0, 0, 0, 0).as_slice());
}

#[test]
fn multiple_definition_rejected() {
    let mut text = insn(MOV64_IMM, 0, 0, 0, 1);
    text.extend_from_slice(&insn(EXIT, 0, 0, 0, 0));
    let obj_a = simple_object(text.clone(), b"\0f\0".to_vec(), vec![sym(1, 1, 2, 1, 0)], None, None);
    let obj_b = simple_object(text, b"\0f\0".to_vec(), vec![sym(1, 1, 2, 1, 0)], None, None);
    let mut linker = GlobalLinker::new(config(vec![], 0, None));
    linker.add_object(b"a.o".to_vec(), obj_a).expect("add a");
    linker.add_object(b"b.o".to_vec(), obj_b).expect("add b");
    let err = linker.emit().expect_err("duplicate global");
    assert!(matches!(err.kind, LinkErrorKind::MultipleDefinition));
}

#[test]
fn same_named_statics_coexist() {
    let mut text = insn(MOV64_IMM, 0, 0, 0, 1);
    text.extend_from_slice(&insn(EXIT, 0, 0, 0, 0));
    let obj_a = simple_object(text.clone(), b"\0f\0".to_vec(), vec![sym(1, 0, 2, 1, 0)], None, None);
    let obj_b = simple_object(text, b"\0f\0".to_vec(), vec![sym(1, 0, 2, 1, 0)], None, None);
    let mut linker = GlobalLinker::new(config(vec![], 0, None));
    linker.add_object(b"a.o".to_vec(), obj_a).expect("add a");
    linker.add_object(b"b.o".to_vec(), obj_b).expect("add b");
    let image = linker.emit().expect("link");
    // Both survive; the offset table keys them by bare name, the later one
    // replacing the earlier entry.
    assert_eq!(image.offset_table.func_offsets.len(), 1);
    assert_eq!(offset_of(&image.offset_table.func_offsets, "f"), Some(120));
}

#[test]
fn not_bpf_rejected() {
    let mut obj = simple_object(
        insn(EXIT, 0, 0, 0, 0),
        b"\0f\0".to_vec(),
        vec![sym(1, 1, 2, 1, 0)],
        None,
        None,
    );
    obj[18] = 62;  // EM_X86_64
    let mut linker = GlobalLinker::new(config(vec![], 0, None));
    let err = linker.add_object(b"a.o".to_vec(), obj).expect_err("not BPF");
    assert!(matches!(err.kind, LinkErrorKind::NotBpf));
}

#[test]
fn body_truncated_at_first_exit() {
    // Instructions after the first EXIT are not part of the function.
    let mut text = insn(MOV64_IMM, 0, 0, 0, 1);
    text.extend_from_slice(&insn(EXIT, 0, 0, 0, 0));
    text.extend_from_slice(&insn(MOV64_IMM, 0, 0, 0, 9));
    let obj = simple_object(text, b"\0entry\0".to_vec(), vec![sym(1, 1, 2, 1, 0)], None, None);
    let mut linker = GlobalLinker::new(config(vec![], 0, None));
    linker.add_object(b"a.o".to_vec(), obj).expect("add");
    let image = linker.emit().expect("link");
    // One function of two instructions: body + EXIT.
    assert_eq!(image.code.len(), 104 + 16);
}
