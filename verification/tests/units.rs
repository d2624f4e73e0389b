//! Unit checks of the instruction codec, the name tables, the ELF reader
//! and the device-interface records.

use wbpf::disasm::DisassembledImage;
use wbpf::device_api::{dm_access_plan, machine_state_dm_bytes, ExceptionState};
use wbpf::elf::parse_elf;
use wbpf::insn::{decode_at_byte, encode_insn, get_insn, Insn};
use wbpf::tables::{bytes_eq, lookup_i32, qualified_name};
use wbpf::global_linker::{GlobalLinker, GlobalLinkerConfig};
use wbpf::image::{HostPlatform, TargetMachine};

#[test]
fn insn_encode_decode_round_trip() {
    let i = Insn { opc: 0x85, dst: 3, src: 1, off: -2, imm: -100 };
    let bytes = encode_insn(&i);
    assert_eq!(bytes.len(), 8);
    assert_eq!(bytes, vec![0x85, 0x13, 0xfe, 0xff, 0x9c, 0xff, 0xff, 0xff]);
    let back = decode_at_byte(&bytes, 0);
    assert_eq!(back.opc, 0x85);
    assert_eq!(back.dst, 3);
    assert_eq!(back.src, 1);
    assert_eq!(back.off, -2);
    assert_eq!(back.imm, -100);
}

#[test]
fn insn_decode_at_index() {
    let mut code = encode_insn(&Insn { opc: 0xb7, dst: 0, src: 0, off: 0, imm: 42 });
    code.extend_from_slice(&encode_insn(&Insn { opc: 0x95, dst: 0, src: 0, off: 0, imm: 0 }));
    let first = get_insn(&code, 0);
    let second = get_insn(&code, 1);
    assert_eq!(first.opc, 0xb7);
    assert_eq!(first.imm, 42);
    assert_eq!(second.opc, 0x95);
}

#[test]
fn byte_names_and_lookup() {
    assert!(bytes_eq(&b"abc".to_vec(), &b"abc".to_vec()));
    assert!(!bytes_eq(&b"abc".to_vec(), &b"abd".to_vec()));
    let q = qualified_name(&b"obj".to_vec(), &b"fn1".to_vec());
    assert_eq!(q, b"obj:fn1".to_vec());
    let entries = vec![(b"a".to_vec(), 1), (b"b".to_vec(), 2), (b"a".to_vec(), 3)];
    assert_eq!(lookup_i32(&entries, &b"a".to_vec()), Some(1));
    assert_eq!(lookup_i32(&entries, &b"b".to_vec()), Some(2));
    assert_eq!(lookup_i32(&entries, &b"c".to_vec()), None);
}

#[test]
fn elf_rejects_garbage() {
    assert!(parse_elf(&vec![0u8; 10]).is_err());
    assert!(parse_elf(&vec![0u8; 200]).is_err());
}

#[test]
fn exception_state_codes() {
    let running = ExceptionState { pc: 4, code: 0, data: 0 };
    assert!(!running.terminated());
    assert!(!running.stopped_quiescent());
    let stopped = ExceptionState { pc: 4, code: 0x8000_0007, data: 0 };
    assert!(stopped.terminated());
    assert!(stopped.stopped_quiescent());
    let faulted = ExceptionState { pc: 4, code: 0x8000_0001, data: 0 };
    assert!(faulted.terminated());
    assert!(!faulted.stopped_quiescent());
}

#[test]
fn machine_state_memory_block() {
    let mut regs = vec![0i64; 11];
    regs[0] = 7;
    regs[9] = -1;
    regs[10] = 3;
    let bytes = machine_state_dm_bytes(&regs, 104);
    assert_eq!(bytes.len(), 88);
    assert_eq!(&bytes[0..8], &7u64.to_le_bytes());
    assert_eq!(&bytes[72..80], &u64::MAX.to_le_bytes());
    // The launch word: r10 in the upper half, the entry offset in the lower.
    assert_eq!(&bytes[80..88], &((3u64 << 32) | 104).to_le_bytes());
}

#[test]
fn disassembler_walks_records() {
    let mut linker = GlobalLinker::new(GlobalLinkerConfig {
        target_machine: TargetMachine { name: Vec::new(), version: Vec::new(), helpers: Vec::new() },
        host_platform: HostPlatform { data_offset: 0, helpers: Vec::new() },
        dce_roots: None,
    });
    let image = linker.emit().expect("empty link");
    let dis = DisassembledImage::new(image);
    let insns = dis.instructions();
    // The trampoline holds thirteen 8-byte records and no wide loads.
    assert_eq!(insns.len(), 13);
    assert_eq!(insns[0].offset, 0);
    assert_eq!(insns[0].insn.opc, 0xb4);
    assert_eq!(insns[12].insn.opc, 0x05);
    assert_eq!(insns[12].insn.src, 1);
    assert!(insns.iter().all(|d| d.width == 8));
}

#[test]
fn dm_access_plan_partitions_range() {
    // An unaligned range: bytes up to the word boundary, words, then a tail.
    let plan = dm_access_plan(3, 11);
    assert_eq!(
        plan,
        vec![(3, false), (4, true), (8, true), (12, false), (13, false)]
    );
    assert!(dm_access_plan(8, 0).is_empty());
    assert_eq!(dm_access_plan(0, 4), vec![(0, true)]);
    assert_eq!(dm_access_plan(1, 2), vec![(1, false), (2, false)]);
}
