//! Per-object linking: split an object's sections into functions, attribute
//! relocations to functions, compute stack usage, and inject callee-saved
//! register save/restore sequences.

use vstd::prelude::*;
use crate::elf::{
    parse_elf, spec_e_machine, spec_elf_matches, spec_parse_ok, spec_strtab_at, spec_strtab_ok,
    strtab_get, ElfFile,
    Reloc, SectionHeader, Sym, EM_BPF, SHT_NOBITS, STB_GLOBAL, STT_FUNC,
};
use crate::error::{LinkError, LinkErrorKind};
use crate::insn::{
    decode_at_byte, spec_decode, Insn, ADD64_IMM, BPF_LD, BPF_LDX, BPF_ST, BPF_STX, EXIT,
    LD_DW_REG, ST_DW_REG, SUB64_IMM,
};
use crate::tables::bytes_eq;
use vstd::slice::slice_subrange;

verus! {

/// Configuration of the per-object linker. There are no knobs yet.
#[derive(Clone, Debug, Default)]
pub struct LocalLinkerConfig {}

/// The per-object linker.
pub struct LocalLinker {
    config: LocalLinkerConfig,
}

/// An instruction with its link-time annotations: the byte offset it had
/// within its source function (`-1` for injected prologue or epilogue
/// instructions), and the call target assigned by pseudo-call resolution.
#[derive(Clone, Copy, Debug)]
pub struct AnnotatedInsn {
    pub insn: Insn,
    pub original_offset: i64,
    pub call_target_function: Option<(usize, usize)>,
}

/// One function split out of an object.
#[derive(Clone, Debug)]
pub struct Function {
    pub name: Vec<u8>,
    pub section_index: usize,
    pub offset: usize,
    pub end_offset: usize,
    pub code: Vec<AnnotatedInsn>,
    pub global: bool,
    pub stack_usage: usize,
    pub global_linked_offset: usize,
}

/// One object after local linking.
pub struct LocalObject {
    pub name: Vec<u8>,
    pub elf: ElfFile,
    pub raw: Vec<u8>,
    pub functions: Vec<Function>,
    /// Relocations rekeyed as `(function index, byte offset within the
    /// function)`.
    pub reloc: Vec<(usize, usize, Reloc)>,
}

/// The canonical `EXIT` instruction appended to every function body.
pub open spec fn exit_insn() -> Insn {
    Insn { opc: EXIT, dst: 0, src: 0, off: 0, imm: 0 }
}

/// The bytes of a section within its object's file bytes.
pub open spec fn spec_section_bytes(raw: Seq<u8>, sh: SectionHeader) -> Seq<u8> {
    raw.subrange(sh.sh_offset as int, sh.sh_offset + sh.sh_size)
}

/// Number of instructions from byte `pos` of `sec` up to (not including) the
/// first `EXIT` or the end of the section.
pub open spec fn spec_body_count(sec: Seq<u8>, pos: int) -> nat
    decreases sec.len() - pos,
{
    if pos < 0 || pos + 8 > sec.len() {
        0
    } else if spec_decode(sec.subrange(pos, pos + 8)).opc == EXIT {
        0
    } else {
        1 + spec_body_count(sec, pos + 8)
    }
}

/// The body scan covers at most the bytes from `pos` to the section's end.
pub proof fn lemma_body_count_bound(sec: Seq<u8>, pos: int)
    requires
        0 <= pos,
    ensures
        pos <= sec.len() ==> 8 * spec_body_count(sec, pos) <= sec.len() - pos,
        pos > sec.len() ==> spec_body_count(sec, pos) == 0,
    decreases sec.len() - pos,
{
    if 0 <= pos && pos + 8 <= sec.len() {
        if spec_decode(sec.subrange(pos, pos + 8)).opc != EXIT {
            lemma_body_count_bound(sec, pos + 8);
        }
    }
}

/// A function as `populate_functions` builds it from symbol `s`: the
/// instructions of `sec` from `st_value` up to the first `EXIT`, then one
/// canonical `EXIT`.
pub open spec fn spec_function_populated(sec: Seq<u8>, name: Seq<u8>, s: Sym, f: Function) -> bool {
    let n = spec_body_count(sec, s.st_value as int) as int;
    &&& f.name@ == name
    &&& f.section_index == s.st_shndx as int
    &&& f.offset == s.st_value as int
    &&& f.end_offset == f.offset + 8 * (n + 1)
    &&& f.global == (s.spec_bind() == STB_GLOBAL)
    &&& f.stack_usage == 0
    &&& f.global_linked_offset == 0
    &&& f.code@.len() == n + 1
    &&& forall|i: int|
        0 <= i < n ==> (#[trigger] f.code@[i]).insn == spec_decode(
            sec.subrange(s.st_value + 8 * i, s.st_value + 8 * i + 8),
        )
    &&& forall|i: int| 0 <= i < n ==> (#[trigger] f.code@[i]).insn.opc != EXIT
    &&& f.code@[n].insn == exit_insn()
    &&& forall|i: int|
        0 <= i <= n ==> (#[trigger] f.code@[i]).original_offset == 8 * i
            && f.code@[i].call_target_function is None
}

/// What `populate_functions` needs of one function symbol: a real section
/// with bytes covering it, and a terminated name.
pub open spec fn spec_sym_linkable(elf: ElfFile, raw: Seq<u8>, k: int) -> bool {
    let s = elf.syms@[k];
    &&& (s.st_shndx as int) < elf.section_headers@.len()
    &&& {
        let sh = elf.section_headers@[s.st_shndx as int];
        &&& sh.sh_type != SHT_NOBITS
        &&& sh.sh_offset + sh.sh_size <= raw.len()
        &&& sh.sh_size <= usize::MAX as int / 16
        &&& s.st_value <= sh.sh_size
    }
    &&& spec_strtab_ok(elf.shdr_strtab@, s.st_name as int)
}

/// Some function symbol populates to `f`.
pub open spec fn spec_some_sym_populates(elf: ElfFile, raw: Seq<u8>, f: Function) -> bool {
    exists|k: int| spec_populated_from(elf, raw, k, f)
}

/// Some stored function carries the name `nm`.
pub open spec fn spec_has_function_named(funcs: Seq<Function>, nm: Seq<u8>) -> bool {
    exists|fi: int| 0 <= fi < funcs.len() && funcs[fi].name@ == nm
}

/// `f` is the populated form of function symbol `k`.
pub open spec fn spec_populated_from(elf: ElfFile, raw: Seq<u8>, k: int, f: Function) -> bool {
    let s = elf.syms@[k];
    &&& 0 <= k < elf.syms@.len()
    &&& s.spec_typ() == STT_FUNC
    &&& spec_sym_linkable(elf, raw, k)
    &&& spec_function_populated(
        spec_section_bytes(raw, elf.section_headers@[s.st_shndx as int]),
        spec_strtab_at(elf.shdr_strtab@, s.st_name as int),
        s,
        f,
    )
}

/// Split the object's function symbols into [`Function`]s, in symbol order;
/// a repeated name replaces the earlier function in place.
pub fn populate_functions(elf: &ElfFile, raw: &Vec<u8>) -> (r: Result<Vec<Function>, LinkError>)
    ensures
        r is Ok <==> (forall|k: int|
            0 <= k < elf.syms@.len() && (#[trigger] elf.syms@[k]).spec_typ() == STT_FUNC
                ==> spec_sym_linkable(*elf, raw@, k)),
        r is Ok ==> {
            let funcs = r->Ok_0;
            &&& forall|fi: int|
                0 <= fi < funcs@.len() ==> spec_some_sym_populates(*elf, raw@, #[trigger] funcs@[fi])
            &&& forall|fi: int, fj: int|
                0 <= fi < fj < funcs@.len() ==> funcs@[fi].name@ != funcs@[fj].name@
            &&& forall|k: int|
                0 <= k < elf.syms@.len() && (#[trigger] elf.syms@[k]).spec_typ() == STT_FUNC
                    ==> spec_has_function_named(
                        funcs@,
                        spec_strtab_at(elf.shdr_strtab@, elf.syms@[k].st_name as int),
                    )
        },
{
    let mut funcs: Vec<Function> = Vec::new();
    let n_syms = elf.syms.len();
    let mut k: usize = 0;
    while k < n_syms
        invariant
            0 <= k <= n_syms,
            n_syms == elf.syms@.len(),
            forall|kk: int|
                0 <= kk < k && (#[trigger] elf.syms@[kk]).spec_typ() == STT_FUNC
                    ==> spec_sym_linkable(*elf, raw@, kk),
            forall|fi: int|
                0 <= fi < funcs@.len() ==> spec_some_sym_populates(
                    *elf,
                    raw@,
                    #[trigger] funcs@[fi],
                ),
            forall|fi: int, fj: int|
                0 <= fi < fj < funcs@.len() ==> funcs@[fi].name@ != funcs@[fj].name@,
            forall|kk: int|
                0 <= kk < k && (#[trigger] elf.syms@[kk]).spec_typ() == STT_FUNC
                    ==> spec_has_function_named(
                        funcs@,
                        spec_strtab_at(elf.shdr_strtab@, elf.syms@[kk].st_name as int),
                    ),
        decreases n_syms - k,
    {
        let ghost pre = funcs@;
        let s = elf.syms[k];
        if s.typ() == STT_FUNC {
            let f = populate_one(elf, raw, k)?;
            let ghost nm = spec_strtab_at(elf.shdr_strtab@, elf.syms@[k as int].st_name as int);
            proof {
                assert(spec_populated_from(*elf, raw@, k as int, f));
                assert(f.name@ == nm);
            }
            // Insert, replacing an existing function of the same name.
            let n_funcs = funcs.len();
            let mut existing: usize = n_funcs;
            let mut fi: usize = 0;
            while fi < n_funcs && existing == n_funcs
                invariant
                    0 <= fi <= n_funcs,
                    n_funcs == funcs@.len(),
                    funcs@ == pre,
                    existing == n_funcs || (existing < n_funcs && funcs@[existing as int].name@
                        == f.name@),
                    existing == n_funcs ==> forall|jj: int|
                        0 <= jj < fi ==> funcs@[jj].name@ != f.name@,
                decreases n_funcs - fi + (if existing == n_funcs { 1int } else { 0int }),
            {
                if bytes_eq(&funcs[fi].name, &f.name) {
                    existing = fi;
                } else {
                    fi = fi + 1;
                }
            }
            let ghost slot: int = if existing < n_funcs { existing as int } else { pre.len() as int };
            if existing < n_funcs {
                funcs.set(existing, f);
            } else {
                funcs.push(f);
            }
            proof {
                assert(pre.len() <= funcs@.len());
                assert(funcs@[slot] == f);
                assert(forall|j: int| 0 <= j < pre.len() && j != slot ==> funcs@[j] == pre[j]);
                assert(forall|j: int|
                    0 <= j < pre.len() ==> (#[trigger] funcs@[j]).name@ == pre[j].name@);
                // Soundness of every stored function.
                assert forall|fj: int| 0 <= fj < funcs@.len() implies spec_some_sym_populates(
                    *elf,
                    raw@,
                    #[trigger] funcs@[fj],
                ) by {
                    if fj == slot {
                        assert(spec_populated_from(*elf, raw@, k as int, funcs@[fj]));
                    } else {
                        assert(funcs@[fj] == pre[fj]);
                        assert(spec_some_sym_populates(*elf, raw@, pre[fj]));
                    }
                }
                // Names stay pairwise distinct.
                assert forall|fa: int, fb: int| 0 <= fa < fb < funcs@.len() implies funcs@[fa].name@
                    != funcs@[fb].name@ by {
                    if fb < pre.len() {
                        assert(funcs@[fa].name@ == pre[fa].name@);
                        assert(funcs@[fb].name@ == pre[fb].name@);
                    } else {
                        assert(fb == pre.len() && slot == fb);
                        assert(funcs@[fa].name@ == pre[fa].name@);
                        assert(pre[fa].name@ != f.name@);
                    }
                }
                // Every processed function symbol's name is present.
                assert forall|kk: int|
                    0 <= kk < k + 1 && (#[trigger] elf.syms@[kk]).spec_typ() == STT_FUNC
                        implies spec_has_function_named(
                        funcs@,
                        spec_strtab_at(elf.shdr_strtab@, elf.syms@[kk].st_name as int),
                    ) by {
                    if kk == k {
                        assert(funcs@[slot].name@ == nm);
                        assert(0 <= slot < funcs@.len() && funcs@[slot].name@ == nm);
                    } else {
                        assert(spec_has_function_named(
                            pre,
                            spec_strtab_at(elf.shdr_strtab@, elf.syms@[kk].st_name as int),
                        ));
                        let fj = choose|fj: int|
                            0 <= fj < pre.len() && pre[fj].name@ == spec_strtab_at(
                                elf.shdr_strtab@,
                                elf.syms@[kk].st_name as int,
                            );
                        assert(funcs@[fj].name@ == pre[fj].name@);
                    }
                }
            }
        }
        k = k + 1;
    }
    Ok(funcs)
}

/// Build the [`Function`] of one function symbol.
fn populate_one(elf: &ElfFile, raw: &Vec<u8>, k: usize) -> (r: Result<Function, LinkError>)
    requires
        k < elf.syms@.len(),
        elf.syms@[k as int].spec_typ() == STT_FUNC,
    ensures
        r is Ok <==> spec_sym_linkable(*elf, raw@, k as int),
        r is Ok ==> spec_populated_from(*elf, raw@, k as int, r->Ok_0),
        r is Err ==> r->Err_0.kind == LinkErrorKind::BadSectionIndex || r->Err_0.kind
            == LinkErrorKind::MissingFileRange || r->Err_0.kind == LinkErrorKind::TruncatedSection
            || r->Err_0.kind == LinkErrorKind::FunctionOutOfRange || r->Err_0.kind
            == LinkErrorKind::BadStringIndex,
{
    let s = elf.syms[k];
    if !((s.st_shndx as usize) < elf.section_headers.len()) {
        return Err(LinkError::new(LinkErrorKind::BadSectionIndex));
    }
    let sh = elf.section_headers[s.st_shndx as usize];
    if sh.sh_type == SHT_NOBITS {
        return Err(LinkError::new(LinkErrorKind::MissingFileRange));
    }
    let n = raw.len();
    if sh.sh_size > n as u64 || sh.sh_offset > n as u64 - sh.sh_size {
        return Err(LinkError::new(LinkErrorKind::TruncatedSection));
    }
    if sh.sh_size > (usize::MAX / 16) as u64 {
        return Err(LinkError::new(LinkErrorKind::TruncatedSection));
    }
    if s.st_value > sh.sh_size {
        return Err(LinkError::new(LinkErrorKind::FunctionOutOfRange));
    }
    let name = match strtab_get(&elf.shdr_strtab, s.st_name as usize) {
        Ok(name) => name,
        Err(e) => {
            return Err(e);
        },
    };

    let sec_off = sh.sh_offset as usize;
    let sec_len = sh.sh_size as usize;
    let sec = slice_subrange(raw.as_slice(), sec_off, sec_off + sec_len);
    let ghost sec_seq = spec_section_bytes(raw@, sh);
    proof {
        assert(sec@ =~= sec_seq);
    }
    let start = s.st_value as usize;

    let mut code: Vec<AnnotatedInsn> = Vec::new();
    let mut pos: usize = start;
    let mut done = false;
    while !done
        invariant
            start <= pos <= sec_len,
            sec@ == sec_seq,
            sec_len == sec_seq.len(),
            pos - start == 8 * code@.len(),
            sec_len <= usize::MAX as int / 16,
            spec_body_count(sec_seq, start as int) == code@.len() + (if done {
                0int
            } else {
                spec_body_count(sec_seq, pos as int) as int
            }),
            forall|i: int|
                0 <= i < code@.len() ==> (#[trigger] code@[i]).insn == spec_decode(
                    sec_seq.subrange(start + 8 * i, start + 8 * i + 8),
                ),
            forall|i: int| 0 <= i < code@.len() ==> (#[trigger] code@[i]).insn.opc != EXIT,
            forall|i: int|
                0 <= i < code@.len() ==> (#[trigger] code@[i]).original_offset == 8 * i
                    && code@[i].call_target_function is None,
        decreases sec_len - pos + (if done { 0int } else { 1int }),
    {
        if pos >= sec_len || sec_len - pos < 8 {
            done = true;
        } else {
            let ins = decode_at_byte(sec, pos);
            if ins.opc == EXIT {
                done = true;
            } else {
                let n_so_far = code.len();
                code.push(AnnotatedInsn {
                    insn: ins,
                    original_offset: 8 * (n_so_far as i64),
                    call_target_function: None,
                });
                pos = pos + 8;
            }
        }
    }
    proof {
        assert(spec_body_count(sec_seq, start as int) == code@.len());
    }
    let body_len = code.len();
    code.push(AnnotatedInsn {
        insn: Insn { opc: EXIT, dst: 0, src: 0, off: 0, imm: 0 },
        original_offset: 8 * (body_len as i64),
        call_target_function: None,
    });

    let f = Function {
        name,
        section_index: s.st_shndx as usize,
        offset: start,
        end_offset: pos + 8,
        code,
        global: s.bind() == STB_GLOBAL,
        stack_usage: 0,
        global_linked_offset: 0,
    };
    Ok(f)
}

/// Stack usage scan, from instruction `i` with running maximum `acc`: the
/// deepest negative store offset through `r10`, or exactly 512 once the
/// stack pointer escapes into arithmetic (scanning then stops).
pub open spec fn spec_stack_usage(code: Seq<AnnotatedInsn>, i: int, acc: int) -> int
    decreases code.len() - i,
{
    if i < 0 || i >= code.len() {
        acc
    } else {
        let ins = code[i].insn;
        let cls = ins.opc % 8;
        if cls == BPF_ST || cls == BPF_STX {
            if ins.dst == 10 && ins.off < 0 {
                let o = -(ins.off as int);
                spec_stack_usage(code, i + 1, if acc >= o { acc } else { o })
            } else {
                spec_stack_usage(code, i + 1, acc)
            }
        } else if cls == BPF_LD || cls == BPF_LDX {
            spec_stack_usage(code, i + 1, acc)
        } else if ins.src == 10 {
            512
        } else {
            spec_stack_usage(code, i + 1, acc)
        }
    }
}

/// Stack usage never exceeds the deepest expressible store offset.
pub proof fn lemma_stack_usage_bound(code: Seq<AnnotatedInsn>, i: int, acc: int)
    requires
        0 <= acc <= 0x8000,
    ensures
        0 <= spec_stack_usage(code, i, acc) <= 0x8000,
    decreases code.len() - i,
{
    if 0 <= i < code.len() {
        let ins = code[i].insn;
        let cls = ins.opc % 8;
        if cls == BPF_ST || cls == BPF_STX {
            if ins.dst == 10 && ins.off < 0 {
                let o = -(ins.off as int);
                lemma_stack_usage_bound(code, i + 1, if acc >= o { acc } else { o });
            } else {
                lemma_stack_usage_bound(code, i + 1, acc);
            }
        } else {
            lemma_stack_usage_bound(code, i + 1, acc);
        }
    }
}

/// Compute a function's stack usage.
pub fn stack_usage_of(code: &Vec<AnnotatedInsn>) -> (r: usize)
    ensures
        r == spec_stack_usage(code@, 0, 0),
        r <= 0x8000,
{
    let n = code.len();
    let mut acc: usize = 0;
    let mut i: usize = 0;
    while i < n
        invariant
            0 <= i <= n,
            n == code@.len(),
            0 <= acc <= 0x8000,
            spec_stack_usage(code@, 0, 0) == spec_stack_usage(code@, i as int, acc as int),
        decreases n - i,
    {
        let ins = code[i].insn;
        let cls = ins.opc % 8;
        if cls == BPF_ST || cls == BPF_STX {
            if ins.dst == 10 && ins.off < 0 {
                let o = (-(ins.off as i32)) as usize;
                if o > acc {
                    acc = o;
                }
            }
        } else if cls == BPF_LD || cls == BPF_LDX {
        } else if ins.src == 10 {
            return 512;
        }
        i = i + 1;
    }
    acc
}

/// Set every function's `stack_usage` field from its code.
pub fn calculate_stack_usage(functions: Vec<Function>) -> (r: Vec<Function>)
    ensures
        r@.len() == functions@.len(),
        forall|i: int|
            0 <= i < functions@.len() ==> #[trigger] r@[i] == (Function {
                stack_usage: spec_stack_usage(functions@[i].code@, 0, 0) as usize,
                ..functions@[i]
            }),
{
    let ghost orig = functions@;
    let mut rest = functions;
    let mut out: Vec<Function> = Vec::new();
    proof {
        assert(rest@ =~= orig.skip(0));
    }
    while rest.len() > 0
        invariant
            out@.len() + rest@.len() == orig.len(),
            rest@ =~= orig.skip(out@.len() as int),
            forall|i: int|
                0 <= i < out@.len() ==> #[trigger] out@[i] == (Function {
                    stack_usage: spec_stack_usage(orig[i].code@, 0, 0) as usize,
                    ..orig[i]
                }),
        decreases rest@.len(),
    {
        let f = rest.remove(0);
        proof {
            assert(f == orig[out@.len() as int]);
            lemma_stack_usage_bound(f.code@, 0, 0);
        }
        let su = stack_usage_of(&f.code);
        out.push(Function { stack_usage: su, ..f });
        proof {
            assert(rest@ =~= orig.skip(out@.len() as int));
        }
    }
    out
}


/// Some instruction writes register `r`.
pub open spec fn spec_uses_reg(code: Seq<AnnotatedInsn>, r: u8) -> bool {
    exists|i: int| 0 <= i < code.len() && (#[trigger] code[i]).insn.dst == r
}

pub open spec fn spec_save_flag(code: Seq<AnnotatedInsn>, r: u8) -> int {
    if spec_uses_reg(code, r) { 1int } else { 0int }
}

/// How many callee-saved registers (r6..r9) the code writes.
pub open spec fn spec_save_count(code: Seq<AnnotatedInsn>) -> int {
    spec_save_flag(code, 6) + spec_save_flag(code, 7) + spec_save_flag(code, 8) + spec_save_flag(
        code,
        9,
    )
}

/// Slot of register `r` in the save area: its rank among the saved registers.
pub open spec fn spec_save_slot(code: Seq<AnnotatedInsn>, r: u8) -> int {
    if r == 6 {
        0int
    } else if r == 7 {
        spec_save_flag(code, 6)
    } else if r == 8 {
        spec_save_flag(code, 6) + spec_save_flag(code, 7)
    } else {
        spec_save_flag(code, 6) + spec_save_flag(code, 7) + spec_save_flag(code, 8)
    }
}

/// An injected instruction: no source offset, no call target.
pub open spec fn spec_anno(i: Insn) -> AnnotatedInsn {
    AnnotatedInsn { insn: i, original_offset: -1i64, call_target_function: None }
}

/// The spill of register `r` into its save slot, if it needs saving.
pub open spec fn spec_save_store(code: Seq<AnnotatedInsn>, r: u8) -> Seq<AnnotatedInsn> {
    if spec_uses_reg(code, r) {
        seq![
            spec_anno(
                Insn {
                    opc: ST_DW_REG,
                    dst: 10,
                    src: r,
                    off: (8 * spec_save_slot(code, r)) as i16,
                    imm: 0,
                },
            ),
        ]
    } else {
        Seq::empty()
    }
}

/// The reload of register `r` from its save slot, if it was saved.
pub open spec fn spec_save_load(code: Seq<AnnotatedInsn>, r: u8) -> Seq<AnnotatedInsn> {
    if spec_uses_reg(code, r) {
        seq![
            spec_anno(
                Insn {
                    opc: LD_DW_REG,
                    dst: r,
                    src: 10,
                    off: (8 * spec_save_slot(code, r)) as i16,
                    imm: 0,
                },
            ),
        ]
    } else {
        Seq::empty()
    }
}

/// The prologue: allocate the save area, then spill each saved register.
pub open spec fn spec_save_prologue(code: Seq<AnnotatedInsn>) -> Seq<AnnotatedInsn> {
    seq![
        spec_anno(
            Insn {
                opc: SUB64_IMM,
                dst: 10,
                src: 0,
                off: 0,
                imm: (8 * spec_save_count(code)) as i32,
            },
        ),
    ] + spec_save_store(code, 6) + spec_save_store(code, 7) + spec_save_store(code, 8)
        + spec_save_store(code, 9)
}

/// The epilogue, before the trailing `EXIT`: reload each saved register,
/// then release the save area.
pub open spec fn spec_save_epilogue(code: Seq<AnnotatedInsn>) -> Seq<AnnotatedInsn> {
    spec_save_load(code, 6) + spec_save_load(code, 7) + spec_save_load(code, 8) + spec_save_load(
        code,
        9,
    ) + seq![
        spec_anno(
            Insn {
                opc: ADD64_IMM,
                dst: 10,
                src: 0,
                off: 0,
                imm: (8 * spec_save_count(code)) as i32,
            },
        ),
    ]
}

/// The patched body: prologue, the body without its trailing `EXIT`, the
/// epilogue, and the original trailing `EXIT`.
pub open spec fn spec_patched(code: Seq<AnnotatedInsn>) -> Seq<AnnotatedInsn> {
    spec_save_prologue(code) + code.take(code.len() - 1) + spec_save_epilogue(code) + seq![
        code.last(),
    ]
}

/// Whether patching applies: a body that ends in `EXIT` and writes at least
/// one callee-saved register.
pub open spec fn spec_needs_patch(code: Seq<AnnotatedInsn>) -> bool {
    code.len() > 0 && code.last().insn.opc == EXIT && spec_save_count(code) > 0
}

/// Inject callee-saved register save/restore around a function body.
///
/// The patched body's length is the original length plus two instructions per
/// saved register plus two bookkeeping instructions when anything is saved,
/// and it still ends with the original `EXIT`.
#[verifier::rlimit(100)]
#[verifier::spinoff_prover]
pub fn patch_code(code: Vec<AnnotatedInsn>) -> (r: Vec<AnnotatedInsn>)
    ensures
        !spec_needs_patch(code@) ==> r@ == code@,
        spec_needs_patch(code@) ==> r@ == spec_patched(code@),
        r@.len() == code@.len() + (if spec_needs_patch(code@) {
            2 * spec_save_count(code@) + 2int
        } else {
            0int
        }),
        code@.len() > 0 && code@.last().insn.opc == EXIT ==> r@.len() > 0 && r@.last()
            == code@.last(),
{
    let n = code.len();
    if n == 0 {
        return code;
    }
    if code[n - 1].insn.opc != EXIT {
        return code;
    }
    let mut f6 = false;
    let mut f7 = false;
    let mut f8 = false;
    let mut f9 = false;
    let mut i: usize = 0;
    while i < n
        invariant
            0 <= i <= n,
            n == code@.len(),
            f6 <==> exists|j: int| 0 <= j < i && (#[trigger] code@[j]).insn.dst == 6,
            f7 <==> exists|j: int| 0 <= j < i && (#[trigger] code@[j]).insn.dst == 7,
            f8 <==> exists|j: int| 0 <= j < i && (#[trigger] code@[j]).insn.dst == 8,
            f9 <==> exists|j: int| 0 <= j < i && (#[trigger] code@[j]).insn.dst == 9,
        decreases n - i,
    {
        let d = code[i].insn.dst;
        if d == 6 {
            f6 = true;
        } else if d == 7 {
            f7 = true;
        } else if d == 8 {
            f8 = true;
        } else if d == 9 {
            f9 = true;
        }
        i = i + 1;
    }
    proof {
        assert(f6 == spec_uses_reg(code@, 6));
        assert(f7 == spec_uses_reg(code@, 7));
        assert(f8 == spec_uses_reg(code@, 8));
        assert(f9 == spec_uses_reg(code@, 9));
    }
    let mut count: usize = 0;
    if f6 {
        count = count + 1;
    }
    if f7 {
        count = count + 1;
    }
    if f8 {
        count = count + 1;
    }
    if f9 {
        count = count + 1;
    }
    proof {
        assert(count == spec_save_count(code@));
    }
    if count == 0 {
        return code;
    }

    let mut out: Vec<AnnotatedInsn> = Vec::new();
    out.push(AnnotatedInsn {
        insn: Insn { opc: SUB64_IMM, dst: 10, src: 0, off: 0, imm: (8 * count) as i32 },
        original_offset: -1,
        call_target_function: None,
    });
    let mut slot: usize = 0;
    if f6 {
        out.push(AnnotatedInsn {
            insn: Insn { opc: ST_DW_REG, dst: 10, src: 6, off: (8 * slot) as i16, imm: 0 },
            original_offset: -1,
            call_target_function: None,
        });
        slot = slot + 1;
    }
    if f7 {
        out.push(AnnotatedInsn {
            insn: Insn { opc: ST_DW_REG, dst: 10, src: 7, off: (8 * slot) as i16, imm: 0 },
            original_offset: -1,
            call_target_function: None,
        });
        slot = slot + 1;
    }
    if f8 {
        out.push(AnnotatedInsn {
            insn: Insn { opc: ST_DW_REG, dst: 10, src: 8, off: (8 * slot) as i16, imm: 0 },
            original_offset: -1,
            call_target_function: None,
        });
        slot = slot + 1;
    }
    if f9 {
        out.push(AnnotatedInsn {
            insn: Insn { opc: ST_DW_REG, dst: 10, src: 9, off: (8 * slot) as i16, imm: 0 },
            original_offset: -1,
            call_target_function: None,
        });
        slot = slot + 1;
    }
    proof {
        assert(out@ =~= spec_save_prologue(code@));
    }
    let ghost prologue = out@;
    let mut i2: usize = 0;
    while i2 < n - 1
        invariant
            0 <= i2 <= n - 1,
            n == code@.len(),
            out@ =~= prologue + code@.take(i2 as int),
        decreases n - 1 - i2,
    {
        let a = code[i2];
        out.push(a);
        i2 = i2 + 1;
    }
    let mut slot2: usize = 0;
    if f6 {
        out.push(AnnotatedInsn {
            insn: Insn { opc: LD_DW_REG, dst: 6, src: 10, off: (8 * slot2) as i16, imm: 0 },
            original_offset: -1,
            call_target_function: None,
        });
        slot2 = slot2 + 1;
    }
    if f7 {
        out.push(AnnotatedInsn {
            insn: Insn { opc: LD_DW_REG, dst: 7, src: 10, off: (8 * slot2) as i16, imm: 0 },
            original_offset: -1,
            call_target_function: None,
        });
        slot2 = slot2 + 1;
    }
    if f8 {
        out.push(AnnotatedInsn {
            insn: Insn { opc: LD_DW_REG, dst: 8, src: 10, off: (8 * slot2) as i16, imm: 0 },
            original_offset: -1,
            call_target_function: None,
        });
        slot2 = slot2 + 1;
    }
    if f9 {
        out.push(AnnotatedInsn {
            insn: Insn { opc: LD_DW_REG, dst: 9, src: 10, off: (8 * slot2) as i16, imm: 0 },
            original_offset: -1,
            call_target_function: None,
        });
        slot2 = slot2 + 1;
    }
    out.push(AnnotatedInsn {
        insn: Insn { opc: ADD64_IMM, dst: 10, src: 0, off: 0, imm: (8 * count) as i32 },
        original_offset: -1,
        call_target_function: None,
    });
    proof {
        assert(out@ =~= prologue + code@.take(n - 1) + spec_save_epilogue(code@));
    }
    let last = code[n - 1];
    out.push(last);
    proof {
        assert(out@ =~= spec_patched(code@));
    }
    out
}

/// Patching injects only well-formed bookkeeping instructions without call
/// targets; what held of every original instruction holds of every patched
/// one.
pub proof fn lemma_patched_propagation(code: Seq<AnnotatedInsn>)
    requires
        code.len() > 0,
    ensures
        (forall|j: int| 0 <= j < code.len() ==> (#[trigger] code[j]).call_target_function is None)
            ==> (forall|j: int|
            0 <= j < spec_patched(code).len() ==> (
            #[trigger] spec_patched(code)[j]).call_target_function is None),
        (forall|j: int| 0 <= j < code.len() ==> (#[trigger] code[j]).insn.wf()) ==> (forall|j: int|
            0 <= j < spec_patched(code).len() ==> (#[trigger] spec_patched(code)[j]).insn.wf()),
{
    let pro = spec_save_prologue(code);
    let mid = code.take(code.len() - 1);
    let epi = spec_save_epilogue(code);
    let pat = spec_patched(code);
    assert(forall|j: int|
        0 <= j < pro.len() ==> (#[trigger] pro[j]).call_target_function is None && pro[j].insn.wf());
    assert(forall|j: int|
        0 <= j < epi.len() ==> (#[trigger] epi[j]).call_target_function is None && epi[j].insn.wf());
    assert(pat =~= pro + mid + epi + seq![code.last()]);
    if forall|j: int| 0 <= j < code.len() ==> (#[trigger] code[j]).call_target_function is None {
        assert forall|j: int| 0 <= j < pat.len() implies (
        #[trigger] pat[j]).call_target_function is None by {
            if j < pro.len() {
                assert(pat[j] == pro[j]);
            } else if j < pro.len() + mid.len() {
                assert(pat[j] == code[j - pro.len()]);
            } else if j < pro.len() + mid.len() + epi.len() {
                assert(pat[j] == epi[j - pro.len() - mid.len()]);
            } else {
                assert(pat[j] == code.last());
            }
        }
    }
    if forall|j: int| 0 <= j < code.len() ==> (#[trigger] code[j]).insn.wf() {
        assert forall|j: int| 0 <= j < pat.len() implies (#[trigger] pat[j]).insn.wf() by {
            if j < pro.len() {
                assert(pat[j] == pro[j]);
            } else if j < pro.len() + mid.len() {
                assert(pat[j] == code[j - pro.len()]);
            } else if j < pro.len() + mid.len() + epi.len() {
                assert(pat[j] == epi[j - pro.len() - mid.len()]);
            } else {
                assert(pat[j] == code.last());
            }
        }
    }
}

/// Whether a function is left alone by patching and how it changes otherwise.
pub open spec fn spec_patched_function(f0: Function, f: Function) -> bool {
    &&& f == (Function { code: f.code, ..f0 })
    &&& if spec_needs_patch(f0.code@) {
        f.code@ == spec_patched(f0.code@)
    } else {
        f.code@ == f0.code@
    }
}

/// Inject callee-saved register save/restore into every function that ends
/// with `EXIT` and writes one of r6..r9.
pub fn patch_callee_saved_regs(functions: Vec<Function>) -> (r: Vec<Function>)
    ensures
        r@.len() == functions@.len(),
        forall|i: int|
            0 <= i < functions@.len() ==> spec_patched_function(functions@[i], #[trigger] r@[i]),
        forall|i: int|
            0 <= i < functions@.len() ==> #[trigger] r@[i].code@.len() == functions@[i].code@.len()
                + (if spec_needs_patch(functions@[i].code@) {
                2 * spec_save_count(functions@[i].code@) + 2int
            } else {
                0int
            }),
        forall|i: int|
            0 <= i < functions@.len() && functions@[i].code@.len() > 0
                && functions@[i].code@.last().insn.opc == EXIT ==> #[trigger] r@[i].code@.len() > 0
                && r@[i].code@.last() == functions@[i].code@.last(),
        forall|i: int| #![trigger r@[i]]
            0 <= i < functions@.len() ==> ((forall|j: int|
                0 <= j < functions@[i].code@.len() ==> (
                #[trigger] functions@[i].code@[j]).call_target_function is None) ==> (forall|
                j: int,
            |
                0 <= j < r@[i].code@.len() ==> (
                #[trigger] r@[i].code@[j]).call_target_function is None)),
        forall|i: int| #![trigger r@[i]]
            0 <= i < functions@.len() ==> ((forall|j: int|
                0 <= j < functions@[i].code@.len() ==> (#[trigger] functions@[i].code@[j]).insn.wf())
                ==> (forall|j: int|
                0 <= j < r@[i].code@.len() ==> (#[trigger] r@[i].code@[j]).insn.wf())),
{
    let ghost orig = functions@;
    let mut rest = functions;
    let mut out: Vec<Function> = Vec::new();
    proof {
        assert(rest@ =~= orig.skip(0));
    }
    while rest.len() > 0
        invariant
            out@.len() + rest@.len() == orig.len(),
            rest@ =~= orig.skip(out@.len() as int),
            forall|i: int|
                0 <= i < out@.len() ==> spec_patched_function(orig[i], #[trigger] out@[i]),
            forall|i: int|
                0 <= i < out@.len() ==> #[trigger] out@[i].code@.len() == orig[i].code@.len() + (
                if spec_needs_patch(orig[i].code@) {
                    2 * spec_save_count(orig[i].code@) + 2int
                } else {
                    0int
                }),
            forall|i: int|
                0 <= i < out@.len() && orig[i].code@.len() > 0 && orig[i].code@.last().insn.opc
                    == EXIT ==> #[trigger] out@[i].code@.len() > 0 && out@[i].code@.last()
                    == orig[i].code@.last(),
            forall|i: int| #![trigger out@[i]]
                0 <= i < out@.len() ==> ((forall|j: int|
                    0 <= j < orig[i].code@.len() ==> (
                    #[trigger] orig[i].code@[j]).call_target_function is None) ==> (forall|j: int|
                    0 <= j < out@[i].code@.len() ==> (
                    #[trigger] out@[i].code@[j]).call_target_function is None)),
            forall|i: int| #![trigger out@[i]]
                0 <= i < out@.len() ==> ((forall|j: int|
                    0 <= j < orig[i].code@.len() ==> (#[trigger] orig[i].code@[j]).insn.wf()) ==> (
                forall|j: int|
                    0 <= j < out@[i].code@.len() ==> (#[trigger] out@[i].code@[j]).insn.wf())),
        decreases rest@.len(),
    {
        let f = rest.remove(0);
        proof {
            assert(f == orig[out@.len() as int]);
            if spec_needs_patch(f.code@) {
                lemma_patched_propagation(f.code@);
            }
        }
        let code = patch_code(f.code);
        out.push(Function { code, ..f });
        proof {
            assert(rest@ =~= orig.skip(out@.len() as int));
        }
    }
    out
}


/// The function a relocation at `(sec, off)` is attributed to: scanning all
/// functions, the latest one in `sec` starting at the greatest offset not
/// beyond `off`; `-1` when there is none.
pub open spec fn spec_reloc_target_fn(
    functions: Seq<Function>,
    sec: int,
    off: int,
    i: int,
    best: int,
) -> int
    decreases functions.len() - i,
{
    if i < 0 || i >= functions.len() {
        best
    } else {
        let better = functions[i].section_index == sec && functions[i].offset <= off && (best < 0
            || functions[i].offset >= functions[best].offset);
        spec_reloc_target_fn(functions, sec, off, i + 1, if better { i } else { best })
    }
}

/// The attribution scan returns either `-1`, the running candidate, or a
/// matching function index.
pub proof fn lemma_reloc_target_fn_range(
    functions: Seq<Function>,
    sec: int,
    off: int,
    i: int,
    best: int,
)
    requires
        -1 <= best < functions.len(),
        best >= 0 ==> functions[best].section_index == sec && functions[best].offset <= off,
    ensures
        -1 <= spec_reloc_target_fn(functions, sec, off, i, best) < functions.len(),
        spec_reloc_target_fn(functions, sec, off, i, best) >= 0 ==> {
            let t = spec_reloc_target_fn(functions, sec, off, i, best);
            functions[t].section_index == sec && functions[t].offset <= off
        },
    decreases functions.len() - i,
{
    if 0 <= i < functions.len() {
        let better = functions[i].section_index == sec && functions[i].offset <= off && (best < 0
            || functions[i].offset >= functions[best].offset);
        lemma_reloc_target_fn_range(functions, sec, off, i + 1, if better { i } else { best });
    }
}

/// A stored relocation entry is consistent: it names a function, the site
/// lies inside that function, the stored offset is function-relative, and
/// the record came from a relocation section aimed at that function's
/// section.
pub open spec fn spec_reloc_entry_ok(
    elf: ElfFile,
    functions: Seq<Function>,
    e: (usize, usize, Reloc),
) -> bool {
    &&& (e.0 as int) < functions.len()
    &&& {
        let f = functions[e.0 as int];
        &&& f.offset <= e.2.r_offset < f.end_offset
        &&& e.1 == e.2.r_offset - f.offset
        &&& exists|si: int, mi: int|
            0 <= si < elf.shdr_relocs@.len() && 0 <= mi < elf.shdr_relocs@[si].relocs@.len() && (
            #[trigger] elf.shdr_relocs@[si].relocs@[mi]) == e.2
                && elf.shdr_relocs@[si].target_section == f.section_index
    }
}

/// Some stored entry is keyed by `(fi, off)`.
pub open spec fn spec_has_reloc_key(reloc: Seq<(usize, usize, Reloc)>, fi: int, off: int) -> bool {
    exists|j: int| 0 <= j < reloc.len() && (#[trigger] reloc[j]).0 == fi && reloc[j].1 == off
}

/// Attribute each relocation record to the function containing its site and
/// rekey it by `(function index, offset within the function)`. A record
/// whose site lies in no function is dropped; a second record at the same
/// site replaces the first.
pub fn populate_reloc(elf: &ElfFile, functions: &Vec<Function>) -> (r: Vec<(usize, usize, Reloc)>)
    ensures
        forall|j: int| 0 <= j < r@.len() ==> spec_reloc_entry_ok(*elf, functions@, #[trigger] r@[j]),
        forall|j1: int, j2: int|
            0 <= j1 < j2 < r@.len() ==> !(r@[j1].0 == r@[j2].0 && r@[j1].1 == r@[j2].1),
        forall|si: int, mi: int|
            0 <= si < elf.shdr_relocs@.len() && 0 <= mi < elf.shdr_relocs@[si].relocs@.len() ==> {
                let rel = #[trigger] elf.shdr_relocs@[si].relocs@[mi];
                let t = spec_reloc_target_fn(
                    functions@,
                    elf.shdr_relocs@[si].target_section as int,
                    rel.r_offset as int,
                    0,
                    -1,
                );
                (t >= 0 && rel.r_offset < functions@[t].end_offset) ==> spec_has_reloc_key(
                    r@,
                    t,
                    rel.r_offset - functions@[t].offset,
                )
            },
{
    let mut out: Vec<(usize, usize, Reloc)> = Vec::new();
    let n_secs = elf.shdr_relocs.len();
    let mut si: usize = 0;
    while si < n_secs
        invariant
            0 <= si <= n_secs,
            n_secs == elf.shdr_relocs@.len(),
            forall|j: int|
                0 <= j < out@.len() ==> spec_reloc_entry_ok(*elf, functions@, #[trigger] out@[j]),
            forall|j1: int, j2: int|
                0 <= j1 < j2 < out@.len() ==> !(out@[j1].0 == out@[j2].0 && out@[j1].1
                    == out@[j2].1),
            forall|si2: int, mi: int|
                0 <= si2 < si && 0 <= mi < elf.shdr_relocs@[si2].relocs@.len() ==> {
                    let rel = #[trigger] elf.shdr_relocs@[si2].relocs@[mi];
                    let t = spec_reloc_target_fn(
                        functions@,
                        elf.shdr_relocs@[si2].target_section as int,
                        rel.r_offset as int,
                        0,
                        -1,
                    );
                    (t >= 0 && rel.r_offset < functions@[t].end_offset) ==> spec_has_reloc_key(
                        out@,
                        t,
                        rel.r_offset - functions@[t].offset,
                    )
                },
        decreases n_secs - si,
    {
        let target_section = elf.shdr_relocs[si].target_section;
        let n_rel = elf.shdr_relocs[si].relocs.len();
        let mut mi: usize = 0;
        while mi < n_rel
            invariant
                0 <= mi <= n_rel,
                0 <= si < n_secs,
                n_secs == elf.shdr_relocs@.len(),
                n_rel == elf.shdr_relocs@[si as int].relocs@.len(),
                target_section == elf.shdr_relocs@[si as int].target_section,
                forall|j: int|
                    0 <= j < out@.len() ==> spec_reloc_entry_ok(
                        *elf,
                        functions@,
                        #[trigger] out@[j],
                    ),
                forall|j1: int, j2: int|
                    0 <= j1 < j2 < out@.len() ==> !(out@[j1].0 == out@[j2].0 && out@[j1].1
                        == out@[j2].1),
                forall|si2: int, mi2: int|
                    0 <= si2 < si && 0 <= mi2 < elf.shdr_relocs@[si2].relocs@.len() ==> {
                        let rel = #[trigger] elf.shdr_relocs@[si2].relocs@[mi2];
                        let t = spec_reloc_target_fn(
                            functions@,
                            elf.shdr_relocs@[si2].target_section as int,
                            rel.r_offset as int,
                            0,
                            -1,
                        );
                        (t >= 0 && rel.r_offset < functions@[t].end_offset)
                            ==> spec_has_reloc_key(
                            out@,
                            t,
                            rel.r_offset - functions@[t].offset,
                        )
                    },
                forall|mi2: int|
                    0 <= mi2 < mi && 0 <= mi2 < elf.shdr_relocs@[si as int].relocs@.len() ==> {
                        let rel = #[trigger] elf.shdr_relocs@[si as int].relocs@[mi2];
                        let t = spec_reloc_target_fn(
                            functions@,
                            elf.shdr_relocs@[si as int].target_section as int,
                            rel.r_offset as int,
                            0,
                            -1,
                        );
                        (t >= 0 && rel.r_offset < functions@[t].end_offset)
                            ==> spec_has_reloc_key(
                            out@,
                            t,
                            rel.r_offset - functions@[t].offset,
                        )
                    },
            decreases n_rel - mi,
        {
            let rel = elf.shdr_relocs[si].relocs[mi];
            // Attribute the record to a function.
            let n_funcs = functions.len();
            let mut best: usize = n_funcs;
            let mut fi: usize = 0;
            while fi < n_funcs
                invariant
                    0 <= fi <= n_funcs,
                    n_funcs == functions@.len(),
                    best <= n_funcs,
                    best < n_funcs ==> functions@[best as int].section_index
                        == target_section as int && functions@[best as int].offset <= rel.r_offset,
                    spec_reloc_target_fn(
                        functions@,
                        target_section as int,
                        rel.r_offset as int,
                        0,
                        -1,
                    ) == spec_reloc_target_fn(
                        functions@,
                        target_section as int,
                        rel.r_offset as int,
                        fi as int,
                        if best == n_funcs {
                            -1int
                        } else {
                            best as int
                        },
                    ),
                decreases n_funcs - fi,
            {
                let f_sec = functions[fi].section_index;
                let f_off = functions[fi].offset;
                let cond = (f_sec == target_section as usize) && (f_off as u64 <= rel.r_offset)
                    && (best == n_funcs || f_off >= functions[best].offset);
                if cond {
                    best = fi;
                }
                fi = fi + 1;
            }
            let ghost t = spec_reloc_target_fn(
                functions@,
                target_section as int,
                rel.r_offset as int,
                0,
                -1,
            );
            proof {
                assert(t == if best == n_funcs {
                    -1int
                } else {
                    best as int
                });
            }
            if best < n_funcs {
                let f_off = functions[best].offset;
                let f_end = functions[best].end_offset;
                if rel.r_offset < f_end as u64 {
                    let off_in_fn = (rel.r_offset - f_off as u64) as usize;
                    let ghost pre = out@;
                    // Insert, replacing an entry at the same site.
                    let n_out = out.len();
                    let mut existing: usize = n_out;
                    let mut j: usize = 0;
                    while j < n_out && existing == n_out
                        invariant
                            0 <= j <= n_out,
                            n_out == out@.len(),
                            out@ == pre,
                            existing == n_out || (existing < n_out && out@[existing as int].0
                                == best && out@[existing as int].1 == off_in_fn),
                            existing == n_out ==> forall|jj: int|
                                0 <= jj < j ==> !((#[trigger] out@[jj]).0 == best && out@[jj].1
                                    == off_in_fn),
                        decreases n_out - j + (if existing == n_out { 1int } else { 0int }),
                    {
                        if out[j].0 == best && out[j].1 == off_in_fn {
                            existing = j;
                        } else {
                            j = j + 1;
                        }
                    }
                    let entry = (best, off_in_fn, rel);
                    let ghost slot: int = if existing < n_out {
                        existing as int
                    } else {
                        pre.len() as int
                    };
                    if existing < n_out {
                        out.set(existing, entry);
                    } else {
                        out.push(entry);
                    }
                    proof {
                        assert(out@[slot] == entry);
                        assert(forall|jj: int|
                            0 <= jj < pre.len() && jj != slot ==> out@[jj] == pre[jj]);
                        assert(spec_reloc_entry_ok(*elf, functions@, entry)) by {
                            assert(elf.shdr_relocs@[si as int].relocs@[mi as int] == rel);
                            assert(elf.shdr_relocs@[si as int].target_section as int
                                == functions@[best as int].section_index);
                        }
                        assert forall|j1: int, j2: int|
                            0 <= j1 < j2 < out@.len() implies !(out@[j1].0 == out@[j2].0
                            && out@[j1].1 == out@[j2].1) by {
                            if j2 < pre.len() {
                                if j1 != slot && j2 != slot {
                                    assert(out@[j1] == pre[j1]);
                                    assert(out@[j2] == pre[j2]);
                                } else if j1 == slot {
                                    assert(out@[j2] == pre[j2]);
                                    assert(!(pre[j2].0 == best && pre[j2].1 == off_in_fn));
                                } else {
                                    assert(out@[j1] == pre[j1]);
                                    assert(!(pre[j1].0 == best && pre[j1].1 == off_in_fn));
                                }
                            } else {
                                assert(j2 == pre.len() && slot == j2);
                                assert(out@[j1] == pre[j1]);
                                assert(!(pre[j1].0 == best && pre[j1].1 == off_in_fn));
                            }
                        }
                        assert(spec_has_reloc_key(out@, best as int, off_in_fn as int));
                        assert forall|fi2: int, off2: int|
                            spec_has_reloc_key(pre, fi2, off2) implies spec_has_reloc_key(
                            out@,
                            fi2,
                            off2,
                        ) by {
                            let jw = choose|jw: int|
                                0 <= jw < pre.len() && (#[trigger] pre[jw]).0 == fi2
                                    && pre[jw].1 == off2;
                            if jw == slot {
                                assert(out@[slot].0 == fi2 && out@[slot].1 == off2);
                            } else {
                                assert(out@[jw] == pre[jw]);
                            }
                        }
                    }
                }
            }
            mi = mi + 1;
        }
        si = si + 1;
    }
    out
}


/// `f` is the fully locally-linked form of function symbol `k`: populated,
/// stack usage computed, callee-saved registers patched.
pub open spec fn spec_local_linked(elf: ElfFile, raw: Seq<u8>, k: int, f: Function) -> bool {
    exists|f0: Function, f1: Function|
        {
            &&& spec_populated_from(elf, raw, k, f0)
            &&& f1 == (Function { stack_usage: spec_stack_usage(f0.code@, 0, 0) as usize, ..f0 })
            &&& spec_patched_function(f1, f)
        }
}

/// Some function symbol locally links to `f`.
pub open spec fn spec_some_sym_links(elf: ElfFile, raw: Seq<u8>, f: Function) -> bool {
    exists|k: int| spec_local_linked(elf, raw, k, f)
}

/// When local linking succeeds: the bytes parse as a BPF ELF object and
/// every function symbol can be split out.
pub open spec fn spec_object_linkable(b: Seq<u8>) -> bool {
    &&& spec_parse_ok(b)
    &&& spec_e_machine(b) == EM_BPF
    &&& forall|e: ElfFile, k: int|
        spec_elf_matches(b, e) && 0 <= k < e.syms@.len() && (#[trigger] e.syms@[k]).spec_typ()
            == STT_FUNC ==> spec_sym_linkable(e, b, k)
}

/// What every locally-linked function satisfies: a nonempty body of
/// well-formed instructions ending in `EXIT`, a bounded stack, and a size
/// that keeps all later offset arithmetic in range.
pub open spec fn spec_function_wf(f: Function) -> bool {
    &&& 1 <= f.code@.len()
    &&& 8 * f.code@.len() <= usize::MAX as int / 8
    &&& f.code@.last().insn.opc == EXIT
    &&& forall|i: int| 0 <= i < f.code@.len() ==> (#[trigger] f.code@[i]).insn.wf()
    &&& f.stack_usage <= 0x8000
}

/// What a [`LocalObject`] promises about its parts.
pub open spec fn spec_local_object_wf(obj: LocalObject) -> bool {
    &&& spec_parse_ok(obj.raw@)
    &&& spec_elf_matches(obj.raw@, obj.elf)
    &&& obj.elf.e_machine == EM_BPF
    &&& forall|fi: int|
        0 <= fi < obj.functions@.len() ==> spec_some_sym_links(
            obj.elf,
            obj.raw@,
            #[trigger] obj.functions@[fi],
        )
    &&& forall|fi: int, fj: int|
        0 <= fi < fj < obj.functions@.len() ==> obj.functions@[fi].name@
            != obj.functions@[fj].name@
    &&& forall|k: int|
        0 <= k < obj.elf.syms@.len() && (#[trigger] obj.elf.syms@[k]).spec_typ() == STT_FUNC
            ==> spec_has_function_named(
            obj.functions@,
            spec_strtab_at(obj.elf.shdr_strtab@, obj.elf.syms@[k].st_name as int),
        )
    &&& forall|j: int|
        0 <= j < obj.reloc@.len() ==> spec_reloc_entry_ok(
            obj.elf,
            obj.functions@,
            #[trigger] obj.reloc@[j],
        )
    &&& forall|j1: int, j2: int|
        0 <= j1 < j2 < obj.reloc@.len() ==> !(obj.reloc@[j1].0 == obj.reloc@[j2].0
            && obj.reloc@[j1].1 == obj.reloc@[j2].1)
    &&& forall|fi: int|
        0 <= fi < obj.functions@.len() ==> spec_function_wf(#[trigger] obj.functions@[fi])
    &&& forall|fi: int, i: int|
        0 <= fi < obj.functions@.len() && 0 <= i < obj.functions@[fi].code@.len() ==> (
        #[trigger] obj.functions@[fi].code@[i]).call_target_function is None
}

impl LocalLinker {
    /// A local linker with the given configuration.
    pub fn new(config: LocalLinkerConfig) -> (r: LocalLinker) {
        LocalLinker { config }
    }

    /// Link one relocatable object: parse it, check its machine type, split
    /// its functions, attribute its relocations, compute stack usage, and
    /// patch callee-saved registers.
    pub fn link(&self, object_name: Vec<u8>, object_file: Vec<u8>) -> (r: Result<
        LocalObject,
        LinkError,
    >)
        ensures
            r is Ok <==> spec_object_linkable(object_file@),
            r is Ok ==> {
                let obj = r->Ok_0;
                &&& obj.name@ == object_name@
                &&& obj.raw@ == object_file@
                &&& spec_local_object_wf(obj)
            },
    {
        let elf = match parse_elf(&object_file) {
            Ok(elf) => elf,
            Err(e) => {
                return Err(e);
            },
        };
        if elf.e_machine != EM_BPF {
            return Err(LinkError::new(LinkErrorKind::NotBpf));
        }
        let funcs0 = match populate_functions(&elf, &object_file) {
            Ok(funcs0) => funcs0,
            Err(e) => {
                proof {
                    if spec_object_linkable(object_file@) {
                        let bad = choose|k: int|
                            0 <= k < elf.syms@.len() && (#[trigger] elf.syms@[k]).spec_typ()
                                == STT_FUNC && !spec_sym_linkable(elf, object_file@, k);
                        assert(elf.syms@[bad] == elf.syms@[bad]);
                        assert(spec_sym_linkable(elf, object_file@, bad));
                        assert(false);
                    }
                }
                return Err(e);
            },
        };
        proof {
            assert forall|e2: ElfFile, k: int|
                spec_elf_matches(object_file@, e2) && 0 <= k < e2.syms@.len() && (
                #[trigger] e2.syms@[k]).spec_typ() == STT_FUNC implies spec_sym_linkable(
                e2,
                object_file@,
                k,
            ) by {
                assert(e2.section_headers@ =~= elf.section_headers@);
                assert(e2.shdr_strtab@ =~= elf.shdr_strtab@);
                assert(e2.section_headers@ == elf.section_headers@);
                assert(e2.syms@ =~= elf.syms@);
                assert(elf.syms@[k].spec_typ() == STT_FUNC);
                assert(spec_sym_linkable(elf, object_file@, k));
            }
        }
        let reloc = populate_reloc(&elf, &funcs0);
        let ghost g_funcs0 = funcs0@;
        let funcs1 = calculate_stack_usage(funcs0);
        let ghost g_funcs1 = funcs1@;
        let functions = patch_callee_saved_regs(funcs1);
        proof {
            assert forall|fi: int| 0 <= fi < functions@.len() implies spec_some_sym_links(
                elf,
                object_file@,
                #[trigger] functions@[fi],
            ) by {
                assert(spec_some_sym_populates(elf, object_file@, g_funcs0[fi]));
                let k = choose|k: int| spec_populated_from(elf, object_file@, k, g_funcs0[fi]);
                assert(g_funcs1[fi] == (Function {
                    stack_usage: spec_stack_usage(g_funcs0[fi].code@, 0, 0) as usize,
                    ..g_funcs0[fi]
                }));
                assert(spec_patched_function(g_funcs1[fi], functions@[fi]));
                assert(spec_local_linked(elf, object_file@, k, functions@[fi]));
            }
            assert forall|fi: int, fj: int| 0 <= fi < fj < functions@.len() implies functions@[
                fi
            ].name@ != functions@[fj].name@ by {
                assert(g_funcs1[fi].name@ == g_funcs0[fi].name@);
                assert(g_funcs1[fj].name@ == g_funcs0[fj].name@);
                assert(functions@[fi].name@ == g_funcs1[fi].name@);
                assert(functions@[fj].name@ == g_funcs1[fj].name@);
            }
            assert forall|k: int|
                0 <= k < elf.syms@.len() && (#[trigger] elf.syms@[k]).spec_typ() == STT_FUNC
                    implies spec_has_function_named(
                functions@,
                spec_strtab_at(elf.shdr_strtab@, elf.syms@[k].st_name as int),
            ) by {
                let nm = spec_strtab_at(elf.shdr_strtab@, elf.syms@[k].st_name as int);
                assert(spec_has_function_named(g_funcs0, nm));
                let fi = choose|fi: int| 0 <= fi < g_funcs0.len() && g_funcs0[fi].name@ == nm;
                assert(functions@[fi].name@ == g_funcs1[fi].name@);
                assert(g_funcs1[fi].name@ == g_funcs0[fi].name@);
            }
            assert forall|fi: int| 0 <= fi < functions@.len() implies spec_function_wf(
                #[trigger] functions@[fi],
            ) && (forall|i: int|
                0 <= i < functions@[fi].code@.len() ==> (
                #[trigger] functions@[fi].code@[i]).call_target_function is None) by {
                let f0 = g_funcs0[fi];
                assert(spec_some_sym_populates(elf, object_file@, f0));
                let k = choose|k: int| spec_populated_from(elf, object_file@, k, f0);
                let s = elf.syms@[k];
                let sh = elf.section_headers@[s.st_shndx as int];
                let sec = spec_section_bytes(object_file@, sh);
                let n = spec_body_count(sec, s.st_value as int) as int;
                lemma_body_count_bound(sec, s.st_value as int);
                assert(sec.len() == sh.sh_size);
                assert(8 * f0.code@.len() <= sh.sh_size + 8);
                assert forall|i: int| 0 <= i < f0.code@.len() implies (
                #[trigger] f0.code@[i]).insn.wf() && f0.code@[i].call_target_function is None by {
                    if i < n {
                        assert(f0.code@[i].insn == spec_decode(
                            sec.subrange(s.st_value + 8 * i, s.st_value + 8 * i + 8),
                        ));
                    } else {
                        assert(f0.code@[i].insn == exit_insn());
                    }
                }
                let f1 = g_funcs1[fi];
                assert(f1 == (Function {
                    stack_usage: spec_stack_usage(f0.code@, 0, 0) as usize,
                    ..f0
                }));
                lemma_stack_usage_bound(f0.code@, 0, 0);
                assert(f1.code@ == f0.code@);
                let fp = functions@[fi];
                assert(spec_patched_function(f1, fp));
                assert(fp.stack_usage == f1.stack_usage);
                assert(fp.code@.len() == f1.code@.len() + (if spec_needs_patch(f1.code@) {
                    2 * spec_save_count(f1.code@) + 2int
                } else {
                    0int
                }));
                assert(spec_save_count(f1.code@) <= 4);
                assert(8 * fp.code@.len() <= 8 * f1.code@.len() + 80);
                assert(usize::MAX >= 0xffff_ffff) by {
                    assert(usize::BITS == 32 || usize::BITS == 64);
                }
                assert(sh.sh_size + 88 <= usize::MAX as int / 16 + 88);
                assert(usize::MAX as int / 16 + 88 <= usize::MAX as int / 8) by (nonlinear_arith)
                    requires
                        usize::MAX >= 0xffff_ffff,
                ;
                assert(fp.code@.len() > 0 && fp.code@.last() == f1.code@.last());
                if spec_needs_patch(f1.code@) {
                    lemma_patched_propagation(f1.code@);
                    assert(fp.code@ == spec_patched(f1.code@));
                }
            }
        }
        Ok(LocalObject { name: object_name, elf, raw: object_file, functions, reloc })
    }
}

} // verus!
