//! The data the device interface exchanges: per-element exception state,
//! the machine-state record a run starts from, and the argument records of
//! the driver's request interface.
//!
//! The device itself is driven by unverified code; what stands here is the
//! data and the arithmetic of the contract: how a machine state is encoded
//! into the device's data memory, and what the exception codes mean.

use vstd::prelude::*;
use vstd::bytes::{spec_u64_to_le_bytes, u64_to_le_bytes};

verus! {

/// One processing element's exception state.
#[derive(Clone, Copy, Debug, PartialEq, Eq, Structural)]
pub struct ExceptionState {
    pub pc: u32,
    pub code: u32,
    pub data: u64,
}

/// A run is over once the terminated bit of the exception code is set.
pub const ES_TERMINATED_BIT: u32 = 0x8000_0000;

/// The quiescent stopped-with-interrupt code a stop request waits for.
pub const ES_STOPPED_INTR: u32 = 0x8000_0007;

impl ExceptionState {
    /// Whether the element has terminated: the high bit of the code is set.
    pub fn terminated(&self) -> (r: bool)
        ensures
            r == (self.code & ES_TERMINATED_BIT != 0),
            r == (self.code >= 0x8000_0000),
    {
        let c = self.code;
        proof {
            assert((c & 0x8000_0000u32 != 0) == (c >= 0x8000_0000u32)) by (bit_vector);
        }
        c >= 0x8000_0000
    }

    /// Whether the element sits stopped with the interrupt flag raised.
    pub fn stopped_quiescent(&self) -> (r: bool)
        ensures
            r == (self.code == ES_STOPPED_INTR),
    {
        self.code == ES_STOPPED_INTR
    }
}

/// The state a run starts from: eleven register values and the function to
/// enter.
pub struct MachineState {
    pub registers: Vec<i64>,
    pub entry_point: Vec<u8>,
}

/// The unsigned 64-bit word with the same bit pattern as `x`.
pub open spec fn u64_of_i64(x: i64) -> u64 {
    if x >= 0 {
        x as u64
    } else {
        (x + 0x1_0000_0000_0000_0000) as u64
    }
}

pub fn i64_to_u64(x: i64) -> (r: u64)
    ensures
        r == u64_of_i64(x),
{
    if x >= 0 {
        x as u64
    } else {
        ((x as i128) + 0x1_0000_0000_0000_0000i128) as u64
    }
}

/// The 88-byte block the runner writes at data-memory offset zero before a
/// run: registers r0..r9 verbatim as little-endian 64-bit words, then one
/// word holding `registers[10]` in its upper half and the entry function's
/// code offset in its lower half.
pub open spec fn spec_machine_state_words(regs: Seq<i64>, entry_offset: u32) -> Seq<u64> {
    Seq::new(11, |i: int|
        if i < 10 {
            u64_of_i64(regs[i])
        } else {
            ((u64_of_i64(regs[10]) * 0x1_0000_0000) % 0x1_0000_0000_0000_0000 + entry_offset) as u64
        }
    )
}

/// Build the data-memory image of a machine state.
pub fn machine_state_dm_bytes(registers: &Vec<i64>, entry_offset: u32) -> (r: Vec<u8>)
    requires
        registers@.len() == 11,
    ensures
        r@.len() == 88,
        forall|w: int|
            0 <= w < 11 ==> r@.subrange(8 * w, 8 * w + 8) == spec_u64_to_le_bytes(
                #[trigger] spec_machine_state_words(registers@, entry_offset)[w],
            ),
{
    let ghost words = spec_machine_state_words(registers@, entry_offset);
    let mut out: Vec<u8> = Vec::new();
    let mut w: usize = 0;
    while w < 10
        invariant
            0 <= w <= 10,
            registers@.len() == 11,
            words == spec_machine_state_words(registers@, entry_offset),
            out@.len() == 8 * w,
            forall|ww: int|
                0 <= ww < w ==> out@.subrange(8 * ww, 8 * ww + 8) == spec_u64_to_le_bytes(
                    #[trigger] words[ww],
                ),
        decreases 10 - w,
    {
        let ghost pre = out@;
        let word = i64_to_u64(registers[w]);
        let bytes = u64_to_le_bytes(word);
        let mut j: usize = 0;
        while j < 8
            invariant
                0 <= j <= 8,
                bytes@.len() == 8,
                out@ =~= pre + bytes@.take(j as int),
            decreases 8 - j,
        {
            out.push(bytes[j]);
            j = j + 1;
        }
        proof {
            assert(out@.subrange(8 * w, 8 * w + 8) =~= bytes@);
            assert forall|ww: int|
                0 <= ww < w + 1 implies out@.subrange(8 * ww, 8 * ww + 8) == spec_u64_to_le_bytes(
                #[trigger] words[ww],
            ) by {
                if ww < w {
                    assert(out@.subrange(8 * ww, 8 * ww + 8) =~= pre.subrange(8 * ww, 8 * ww + 8));
                }
            }
        }
        w = w + 1;
    }
    let r10 = i64_to_u64(registers[10]);
    let hi = r10 % 0x1_0000_0000;
    let combined: u64 = hi * 0x1_0000_0000 + entry_offset as u64;
    proof {
        assert(hi * 0x1_0000_0000 <= 0xffff_ffff_0000_0000) by (nonlinear_arith)
            requires
                hi <= 0xffff_ffff,
        ;
        assert(combined as int == (u64_of_i64(registers@[10]) * 0x1_0000_0000)
            % 0x1_0000_0000_0000_0000 + entry_offset) by {
            vstd::arithmetic::div_mod::lemma_mul_mod_noop_right(
                u64_of_i64(registers@[10]) as int,
                0x1_0000_0000,
                0x1_0000_0000_0000_0000,
            );
        }
    }
    let ghost pre = out@;
    let bytes = u64_to_le_bytes(combined);
    let mut j: usize = 0;
    while j < 8
        invariant
            0 <= j <= 8,
            bytes@.len() == 8,
            out@ =~= pre + bytes@.take(j as int),
        decreases 8 - j,
    {
        out.push(bytes[j]);
        j = j + 1;
    }
    proof {
        assert(out@.subrange(80, 88) =~= bytes@);
        assert(combined == spec_machine_state_words(registers@, entry_offset)[10]);
        assert forall|ww: int|
            0 <= ww < 11 implies out@.subrange(8 * ww, 8 * ww + 8) == spec_u64_to_le_bytes(
            #[trigger] words[ww],
        ) by {
            if ww < 10 {
                assert(out@.subrange(8 * ww, 8 * ww + 8) =~= pre.subrange(8 * ww, 8 * ww + 8));
            }
        }
    }
    out
}

/// Stop-request arguments.
#[derive(Clone, Copy, Debug, PartialEq, Eq, Structural)]
pub struct wbpf_uapi_stop_args {
    pub pe_index: u32,
}

/// Start-request arguments.
#[derive(Clone, Copy, Debug, PartialEq, Eq, Structural)]
pub struct wbpf_uapi_start_args {
    pub pe_index: u32,
    pub pc: u32,
}

/// Hardware revision record.
#[derive(Clone, Copy, Debug, PartialEq, Eq, Structural)]
pub struct wbpf_uapi_hw_revision {
    pub major: u32,
    pub minor: u32,
}

/// Processing-element count record.
#[derive(Clone, Copy, Debug, PartialEq, Eq, Structural, Default)]
pub struct wbpf_uapi_num_pe {
    pub num_pe: u32,
}

/// Performance counter snapshot.
#[derive(Clone, Copy, Debug, PartialEq, Eq, Structural, Default)]
pub struct wbpf_uapi_performance_counters {
    pub cycles: u64,
    pub commits: u64,
}

/// Per-element exception state record.
#[derive(Clone, Copy, Debug, PartialEq, Eq, Structural, Default)]
pub struct wbpf_uapi_pe_exception_state {
    pub pc: u32,
    pub code: u32,
    pub data: u64,
}

/// Width in bytes of one planned access.
pub open spec fn spec_op_width(op: (usize, bool)) -> int {
    if op.1 {
        4int
    } else {
        1int
    }
}

/// The access plan for a data-memory range: single bytes up to the first
/// word boundary, then whole 4-byte words, then the trailing bytes. The
/// plan starts at `offset`, each access follows the one before it, word
/// accesses are 4-aligned, and together they cover exactly
/// `offset..offset + len`.
pub fn dm_access_plan(offset: usize, len: usize) -> (r: Vec<(usize, bool)>)
    requires
        offset + len <= usize::MAX,
    ensures
        r@.len() == 0 <==> len == 0,
        r@.len() > 0 ==> (#[trigger] r@[0]).0 == offset,
        forall|j: int|
            0 < j < r@.len() ==> (#[trigger] r@[j]).0 == r@[j - 1].0 + spec_op_width(r@[j - 1]),
        r@.len() > 0 ==> r@[r@.len() - 1].0 + spec_op_width(r@[r@.len() - 1]) == offset + len,
        forall|j: int| 0 <= j < r@.len() && (#[trigger] r@[j]).1 ==> r@[j].0 % 4 == 0,
{
    let mut r: Vec<(usize, bool)> = Vec::new();
    let mut cur = offset;
    let mut rem = len;
    while cur % 4 != 0 && rem > 0
        invariant
            cur + rem == offset + len,
            offset + len <= usize::MAX,
            cur >= offset,
            r@.len() == 0 <==> cur == offset,
            r@.len() > 0 ==> (#[trigger] r@[0]).0 == offset,
            forall|j: int|
                0 < j < r@.len() ==> (#[trigger] r@[j]).0 == r@[j - 1].0 + spec_op_width(
                    r@[j - 1],
                ),
            r@.len() > 0 ==> r@[r@.len() - 1].0 + spec_op_width(r@[r@.len() - 1]) == cur,
            forall|j: int| 0 <= j < r@.len() && (#[trigger] r@[j]).1 ==> r@[j].0 % 4 == 0,
        decreases rem,
    {
        r.push((cur, false));
        cur = cur + 1;
        rem = rem - 1;
    }
    while rem >= 4
        invariant
            cur + rem == offset + len,
            offset + len <= usize::MAX,
            cur >= offset,
            rem >= 4 ==> cur % 4 == 0,
            r@.len() == 0 <==> cur == offset,
            r@.len() > 0 ==> (#[trigger] r@[0]).0 == offset,
            forall|j: int|
                0 < j < r@.len() ==> (#[trigger] r@[j]).0 == r@[j - 1].0 + spec_op_width(
                    r@[j - 1],
                ),
            r@.len() > 0 ==> r@[r@.len() - 1].0 + spec_op_width(r@[r@.len() - 1]) == cur,
            forall|j: int| 0 <= j < r@.len() && (#[trigger] r@[j]).1 ==> r@[j].0 % 4 == 0,
        decreases rem,
    {
        r.push((cur, true));
        cur = cur + 4;
        rem = rem - 4;
    }
    while rem > 0
        invariant
            cur + rem == offset + len,
            offset + len <= usize::MAX,
            cur >= offset,
            r@.len() == 0 <==> cur == offset,
            r@.len() > 0 ==> (#[trigger] r@[0]).0 == offset,
            forall|j: int|
                0 < j < r@.len() ==> (#[trigger] r@[j]).0 == r@[j - 1].0 + spec_op_width(
                    r@[j - 1],
                ),
            r@.len() > 0 ==> r@[r@.len() - 1].0 + spec_op_width(r@[r@.len() - 1]) == cur,
            forall|j: int| 0 <= j < r@.len() && (#[trigger] r@[j]).1 ==> r@[j].0 % 4 == 0,
        decreases rem,
    {
        r.push((cur, false));
        cur = cur + 1;
        rem = rem - 1;
    }
    r
}

} // verus!
