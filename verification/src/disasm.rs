//! Structured decoding of an emitted image, for inspection.

use vstd::prelude::*;
use crate::image::Image;
use crate::insn::{decode_at_byte, spec_decode, Insn, LD_DW_IMM};

verus! {

/// An image prepared for inspection.
pub struct DisassembledImage {
    pub image: Image,
}

/// One decoded position: its byte offset, its instruction, and how many
/// bytes the encoding occupies (16 for the wide immediate load, 8 otherwise).
#[derive(Clone, Copy, Debug)]
pub struct DecodedInsn {
    pub offset: usize,
    pub insn: Insn,
    pub width: usize,
}

impl DisassembledImage {
    /// Wrap an image for inspection.
    pub fn new(image: Image) -> (r: DisassembledImage)
        ensures
            r.image == image,
    {
        DisassembledImage { image }
    }

    /// Decode the code image front to back: each record's instruction and
    /// width, a wide immediate load consuming two records.
    #[verifier::rlimit(100)]
    #[verifier::spinoff_prover]
    pub fn instructions(&self) -> (r: Vec<DecodedInsn>)
        ensures
            forall|j: int|
                0 <= j < r@.len() ==> {
                    let d = #[trigger] r@[j];
                    &&& d.offset + 8 <= self.image.code@.len()
                    &&& d.insn == spec_decode(
                        self.image.code@.subrange(d.offset as int, d.offset + 8),
                    )
                    &&& (d.width == 8 || d.width == 16)
                    &&& (d.width == 16 <==> d.insn.opc == LD_DW_IMM)
                },
            self.image.code@.len() <= usize::MAX - 16 ==> {
                &&& (r@.len() == 0 <==> self.image.code@.len() < 8)
                &&& (r@.len() > 0 ==> r@[0].offset == 0)
                &&& (forall|j: int|
                    0 < j < r@.len() ==> (#[trigger] r@[j]).offset == r@[j - 1].offset + r@[j
                        - 1].width)
                &&& (r@.len() > 0 ==> self.image.code@.len() - 8 < r@[r@.len() - 1].offset + r@[
                    r@.len() - 1
                ].width)
            },
    {
        let ghost gcode = self.image.code@;
        let code = &self.image.code;
        let n = code.len();
        if n > usize::MAX - 16 {
            return Vec::new();
        }
        let mut out: Vec<DecodedInsn> = Vec::new();
        let mut off: usize = 0;
        while off < n && n - off >= 8
            invariant
                0 <= off <= n + 8,
                n == code@.len(),
                n <= usize::MAX - 16,
                code@ == gcode,
                forall|j: int|
                    0 <= j < out@.len() ==> {
                        let d = #[trigger] out@[j];
                        &&& d.offset + 8 <= gcode.len()
                        &&& d.insn == spec_decode(gcode.subrange(d.offset as int, d.offset + 8))
                        &&& (d.width == 8 || d.width == 16)
                        &&& (d.width == 16 <==> d.insn.opc == LD_DW_IMM)
                    },
                out@.len() == 0 ==> off == 0,
                out@.len() > 0 ==> out@[0].offset == 0,
                forall|j: int|
                    0 < j < out@.len() ==> (#[trigger] out@[j]).offset == out@[j - 1].offset
                        + out@[j - 1].width,
                out@.len() > 0 ==> off == out@[out@.len() - 1].offset + out@[out@.len()
                    - 1].width,
            decreases n + 16 - off,
        {
            let insn = decode_at_byte(code.as_slice(), off);
            let width: usize = if insn.opc == LD_DW_IMM {
                16
            } else {
                8
            };
            out.push(DecodedInsn { offset: off, insn, width });
            off = off + width;
        }
        out
    }
}

} // verus!
