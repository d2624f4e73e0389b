//! 64-bit BPF instruction codec.
//!
//! An instruction is an 8-byte record: opcode, a register byte holding the
//! destination register in its low 4 bits and the source register in its high
//! 4 bits, a signed 16-bit little-endian offset and a signed 32-bit
//! little-endian immediate. The wide immediate load `LD_DW_IMM` occupies two
//! such records; its second record carries the upper 32 bits of a 64-bit
//! immediate.

use vstd::prelude::*;
use vstd::bytes::{
    spec_u16_from_le_bytes, spec_u16_to_le_bytes, spec_u32_from_le_bytes, spec_u32_to_le_bytes,
    u16_from_le_bytes, u16_to_le_bytes, u32_from_le_bytes, u32_to_le_bytes,
    lemma_auto_spec_u16_to_from_le_bytes, lemma_auto_spec_u32_to_from_le_bytes,
};
use vstd::slice::slice_subrange;

verus! {

/// Opcode class mask: the low three bits of an opcode name its class.
pub const BPF_CLASS_MASK: u8 = 0x07;
/// Load-class opcode (immediate forms).
pub const BPF_LD: u8 = 0x00;
/// Load-class opcode (register forms).
pub const BPF_LDX: u8 = 0x01;
/// Store-class opcode (immediate forms).
pub const BPF_ST: u8 = 0x02;
/// Store-class opcode (register forms).
pub const BPF_STX: u8 = 0x03;

/// Load a 64-bit immediate; the encoding spans two 8-byte records.
pub const LD_DW_IMM: u8 = 0x18;
/// Load a 64-bit word from memory into a register.
pub const LD_DW_REG: u8 = 0x79;
/// Store a 64-bit register into memory.
pub const ST_DW_REG: u8 = 0x7b;
/// 32-bit move of an immediate into a register.
pub const MOV32_IMM: u8 = 0xb4;
/// 64-bit move of an immediate into a register.
pub const MOV64_IMM: u8 = 0xb7;
/// 64-bit add of an immediate to a register.
pub const ADD64_IMM: u8 = 0x07;
/// 64-bit subtract of an immediate from a register.
pub const SUB64_IMM: u8 = 0x17;
/// Unconditional jump; the target hardware overloads `src` to encode
/// call (`src == 2`) and return (`src == 1`) forms.
pub const JA: u8 = 0x05;
/// Function call; `src == 1` marks a pseudo-call to be resolved at link time.
pub const CALL: u8 = 0x85;
/// Return from function.
pub const EXIT: u8 = 0x95;

/// Size in bytes of one instruction record.
pub const INSN_SIZE: usize = 8;

/// A decoded BPF instruction.
#[derive(Clone, Copy, Debug, PartialEq, Eq, Structural)]
pub struct Insn {
    pub opc: u8,
    pub dst: u8,
    pub src: u8,
    pub off: i16,
    pub imm: i32,
}

impl Insn {
    /// The register fields each fit in 4 bits.
    pub open spec fn wf(self) -> bool {
        self.dst < 16 && self.src < 16
    }
}

/// The unsigned 16-bit word with the same bit pattern as `x`.
pub open spec fn u16_of_i16(x: i16) -> u16 {
    if x >= 0 {
        x as u16
    } else {
        (x + 0x10000) as u16
    }
}

/// The signed 16-bit word with the same bit pattern as `x`.
pub open spec fn i16_of_u16(x: u16) -> i16 {
    if x < 0x8000 {
        x as i16
    } else {
        (x - 0x10000) as i16
    }
}

/// The unsigned 32-bit word with the same bit pattern as `x`.
pub open spec fn u32_of_i32(x: i32) -> u32 {
    if x >= 0 {
        x as u32
    } else {
        (x + 0x1_0000_0000) as u32
    }
}

/// The signed 32-bit word with the same bit pattern as `x`.
pub open spec fn i32_of_u32(x: u32) -> i32 {
    if x < 0x8000_0000 {
        x as i32
    } else {
        (x - 0x1_0000_0000) as i32
    }
}

pub fn i16_to_u16(x: i16) -> (r: u16)
    ensures
        r == u16_of_i16(x),
{
    if x >= 0 {
        x as u16
    } else {
        ((x as i32) + 0x10000) as u16
    }
}

pub fn u16_to_i16(x: u16) -> (r: i16)
    ensures
        r == i16_of_u16(x),
{
    if x < 0x8000 {
        x as i16
    } else {
        ((x as i32) - 0x10000) as i16
    }
}

pub fn i32_to_u32(x: i32) -> (r: u32)
    ensures
        r == u32_of_i32(x),
{
    if x >= 0 {
        x as u32
    } else {
        ((x as i64) + 0x1_0000_0000) as u32
    }
}

pub fn u32_to_i32(x: u32) -> (r: i32)
    ensures
        r == i32_of_u32(x),
{
    if x < 0x8000_0000 {
        x as i32
    } else {
        ((x as i64) - 0x1_0000_0000) as i32
    }
}

/// The 8-byte encoding of an instruction.
pub open spec fn spec_encode(i: Insn) -> Seq<u8>
    recommends
        i.wf(),
{
    seq![i.opc, (i.dst + i.src * 16) as u8] + spec_u16_to_le_bytes(u16_of_i16(i.off))
        + spec_u32_to_le_bytes(u32_of_i32(i.imm))
}

/// The instruction encoded by an 8-byte sequence.
pub open spec fn spec_decode(b: Seq<u8>) -> Insn
    recommends
        b.len() == 8,
{
    Insn {
        opc: b[0],
        dst: (b[1] % 16) as u8,
        src: (b[1] / 16) as u8,
        off: i16_of_u16(spec_u16_from_le_bytes(b.subrange(2, 4))),
        imm: i32_of_u32(spec_u32_from_le_bytes(b.subrange(4, 8))),
    }
}

/// The instruction at record index `index` of `code`.
pub open spec fn spec_decode_at(code: Seq<u8>, index: int) -> Insn
    recommends
        0 <= index,
        8 * index + 8 <= code.len(),
{
    spec_decode(code.subrange(8 * index, 8 * index + 8))
}

/// A decoded instruction is well formed: its register fields fit in 4 bits.
pub proof fn lemma_decode_wf(b: Seq<u8>)
    requires
        b.len() == 8,
    ensures
        spec_decode(b).wf(),
{
}

/// Decoding inverts encoding on well-formed instructions.
pub proof fn lemma_encode_decode(i: Insn)
    requires
        i.wf(),
    ensures
        spec_encode(i).len() == 8,
        spec_decode(spec_encode(i)) == i,
{
    lemma_auto_spec_u16_to_from_le_bytes();
    lemma_auto_spec_u32_to_from_le_bytes();
    let e = spec_encode(i);
    assert(e.subrange(2, 4) =~= spec_u16_to_le_bytes(u16_of_i16(i.off)));
    assert(e.subrange(4, 8) =~= spec_u32_to_le_bytes(u32_of_i32(i.imm)));
    assert(spec_decode(e).off == i.off);
    assert(spec_decode(e).imm == i.imm);
}

/// Encoding inverts decoding: every 8-byte sequence is the encoding of the
/// instruction it decodes to.
pub proof fn lemma_decode_encode(b: Seq<u8>)
    requires
        b.len() == 8,
    ensures
        spec_encode(spec_decode(b)) =~= b,
{
    lemma_auto_spec_u16_to_from_le_bytes();
    lemma_auto_spec_u32_to_from_le_bytes();
    let i = spec_decode(b);
    assert(u16_of_i16(i16_of_u16(spec_u16_from_le_bytes(b.subrange(2, 4))))
        == spec_u16_from_le_bytes(b.subrange(2, 4)));
    assert(u32_of_i32(i32_of_u32(spec_u32_from_le_bytes(b.subrange(4, 8))))
        == spec_u32_from_le_bytes(b.subrange(4, 8)));
    assert(spec_u16_to_le_bytes(spec_u16_from_le_bytes(b.subrange(2, 4))) =~= b.subrange(2, 4));
    assert(spec_u32_to_le_bytes(spec_u32_from_le_bytes(b.subrange(4, 8))) =~= b.subrange(4, 8));
}

/// Decode the instruction whose record starts at byte `off` of `code`.
pub fn decode_at_byte(code: &[u8], off: usize) -> (r: Insn)
    requires
        off + 8 <= code.len(),
    ensures
        r == spec_decode(code@.subrange(off as int, off + 8)),
        r.wf(),
{
    let regs = code[off + 1];
    let off_bytes = slice_subrange(code, off + 2, off + 4);
    let imm_bytes = slice_subrange(code, off + 4, off + 8);
    let r = Insn {
        opc: code[off],
        dst: regs % 16,
        src: regs / 16,
        off: u16_to_i16(u16_from_le_bytes(off_bytes)),
        imm: u32_to_i32(u32_from_le_bytes(imm_bytes)),
    };
    proof {
        let b = code@.subrange(off as int, off + 8);
        assert(b[0] == code@[off as int]);
        assert(b[1] == code@[off + 1]);
        assert(off_bytes@ =~= b.subrange(2, 4));
        assert(imm_bytes@ =~= b.subrange(4, 8));
    }
    r
}

/// Decode the instruction at record index `index` of `code`.
pub fn get_insn(code: &[u8], index: usize) -> (r: Insn)
    requires
        8 * index + 8 <= code.len(),
    ensures
        r == spec_decode_at(code@, index as int),
        r.wf(),
{
    decode_at_byte(code, 8 * index)
}

/// Encode an instruction into its 8-byte record.
pub fn encode_insn(i: &Insn) -> (r: Vec<u8>)
    requires
        i.wf(),
    ensures
        r@ == spec_encode(*i),
        r@.len() == 8,
{
    let mut r: Vec<u8> = Vec::new();
    r.push(i.opc);
    r.push(i.dst + i.src * 16);
    let off_bytes = u16_to_le_bytes(i16_to_u16(i.off));
    let imm_bytes = u32_to_le_bytes(i32_to_u32(i.imm));
    r.push(off_bytes[0]);
    r.push(off_bytes[1]);
    r.push(imm_bytes[0]);
    r.push(imm_bytes[1]);
    r.push(imm_bytes[2]);
    r.push(imm_bytes[3]);
    proof {
        lemma_auto_spec_u16_to_from_le_bytes();
        lemma_auto_spec_u32_to_from_le_bytes();
        assert(r@ =~= spec_encode(*i));
    }
    r
}

} // verus!
