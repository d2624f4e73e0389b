//! Global linking: merge the functions of all objects, resolve pseudo-calls
//! and data relocations, eliminate dead code, and emit the final image with
//! the target's call/return rewrite.

use vstd::prelude::*;
use crate::elf::{spec_strtab_at, spec_strtab_ok, Reloc, SectionHeader, R_BPF_64_32, R_BPF_64_64,
    SHF_ALLOC, SHF_EXECINSTR, SHT_PROGBITS, STB_LOCAL};
use crate::error::{LinkError, LinkErrorKind};
use crate::image::{HostPlatform, Image, OffsetTable, TargetMachine};
use crate::insn::{
    encode_insn, i32_of_u32, i32_to_u32, spec_encode, u32_of_i32, u32_to_i32, Insn, ADD64_IMM,
    CALL, EXIT, JA, LD_DW_IMM, LD_DW_REG, MOV32_IMM,
};
use crate::local_linker::{
    spec_function_wf, spec_local_object_wf, spec_object_linkable, spec_section_bytes,
    AnnotatedInsn, Function, LocalLinker, LocalLinkerConfig, LocalObject,
};
use crate::tables::{bytes_eq, copy_bytes, entries_view, lookup_i32, lookup_pair, qualified_name,
    spec_lookup, spec_qualified};
use crate::reach::{reachable_nodes, spec_has_edge, spec_path_connects, spec_reachable};

verus! {

/// Configuration of a link: the two descriptors and, optionally, the root
/// functions dead-code elimination keeps.
pub struct GlobalLinkerConfig {
    pub target_machine: TargetMachine,
    pub host_platform: HostPlatform,
    pub dce_roots: Option<Vec<Vec<u8>>>,
}

/// The global linker: objects are added one by one, then `emit` produces the
/// image.
pub struct GlobalLinker {
    pub config: GlobalLinkerConfig,
    pub objects: Vec<LocalObject>,
}

/// The key a function is merged under: its bare name when global, otherwise
/// qualified by its object's name.
pub open spec fn spec_merged_key(obj: LocalObject, f: Function) -> Seq<u8> {
    if f.global {
        f.name@
    } else {
        spec_qualified(obj.name@, f.name@)
    }
}

/// One merged-table entry is consistent with the objects.
pub open spec fn spec_merged_entry_ok(
    objects: Seq<LocalObject>,
    e: (Vec<u8>, (usize, usize)),
) -> bool {
    &&& (e.1.0 as int) < objects.len()
    &&& (e.1.1 as int) < objects[e.1.0 as int].functions@.len()
    &&& e.0@ == spec_merged_key(
        objects[e.1.0 as int],
        objects[e.1.0 as int].functions@[e.1.1 as int],
    )
}

/// Some merged entry refers to function `f` of object `o`.
pub open spec fn spec_merged_has_pair(
    merged: Seq<(Vec<u8>, (usize, usize))>,
    o: int,
    f: int,
) -> bool {
    exists|k: int|
        0 <= k < merged.len() && (#[trigger] merged[k]).1.0 == o && merged[k].1.1 == f
}

/// The merged table: every entry consistent, every function present, entries
/// in object order then function order, and all pairs and keys distinct.
pub open spec fn spec_merged_ok(
    objects: Seq<LocalObject>,
    merged: Seq<(Vec<u8>, (usize, usize))>,
) -> bool {
    &&& forall|k: int| 0 <= k < merged.len() ==> spec_merged_entry_ok(objects, #[trigger] merged[k])
    &&& forall|o: int, f: int|
        0 <= o < objects.len() && 0 <= f < objects[o].functions@.len()
            ==> #[trigger] spec_merged_has_pair(merged, o, f)
    &&& forall|k1: int, k2: int|
        0 <= k1 < k2 < merged.len() ==> ((#[trigger] merged[k1]).1.0 < (#[trigger] merged[k2]).1.0
            || (merged[k1].1.0 == merged[k2].1.0 && merged[k1].1.1 < merged[k2].1.1))
    &&& forall|k1: int, k2: int|
        0 <= k1 < k2 < merged.len() ==> (#[trigger] merged[k1]).0@ != (#[trigger] merged[k2]).0@
}

/// No two functions, across all objects, share a merged key.
pub open spec fn spec_merged_keys_unique(objects: Seq<LocalObject>) -> bool {
    forall|o1: int, f1: int, o2: int, f2: int|
        0 <= o1 < objects.len() && 0 <= f1 < objects[o1].functions@.len() && 0 <= o2
            < objects.len() && 0 <= f2 < objects[o2].functions@.len() && !(o1 == o2 && f1 == f2)
            ==> spec_merged_key(objects[o1], #[trigger] objects[o1].functions@[f1])
            != spec_merged_key(objects[o2], #[trigger] objects[o2].functions@[f2])
}

/// Merge the functions of all objects into one ordered table. Global
/// functions are keyed by bare name, static ones by `object:name`; a
/// duplicate key is a multiple-definition error.
pub fn populate_all_functions(objects: &Vec<LocalObject>) -> (r: Result<
    Vec<(Vec<u8>, (usize, usize))>,
    LinkError,
>)
    requires
        forall|o: int|
            0 <= o < objects@.len() ==> (#[trigger] objects@[o].functions@.len()) < 0x1000_0000,
    ensures
        r is Ok <==> spec_merged_keys_unique(objects@),
        r is Ok ==> spec_merged_ok(objects@, r->Ok_0@),
        r is Err ==> r->Err_0.kind == LinkErrorKind::MultipleDefinition,
{
    let mut merged: Vec<(Vec<u8>, (usize, usize))> = Vec::new();
    let n_objs = objects.len();
    let mut o: usize = 0;
    while o < n_objs
        invariant
            0 <= o <= n_objs,
            n_objs == objects@.len(),
            forall|oo: int|
                0 <= oo < objects@.len() ==> (#[trigger] objects@[oo].functions@.len())
                    < 0x1000_0000,
            forall|k: int|
                0 <= k < merged@.len() ==> spec_merged_entry_ok(objects@, #[trigger] merged@[k]),
            forall|k: int| 0 <= k < merged@.len() ==> (#[trigger] merged@[k]).1.0 < o,
            forall|oo: int, ff: int|
                0 <= oo < o && 0 <= ff < objects@[oo].functions@.len()
                    ==> #[trigger] spec_merged_has_pair(merged@, oo, ff),
            forall|k1: int, k2: int|
                0 <= k1 < k2 < merged@.len() ==> ((#[trigger] merged@[k1]).1.0 < (
                #[trigger] merged@[k2]).1.0 || (merged@[k1].1.0 == merged@[k2].1.0
                    && merged@[k1].1.1 < merged@[k2].1.1)),
            forall|k1: int, k2: int|
                0 <= k1 < k2 < merged@.len() ==> (#[trigger] merged@[k1]).0@ != (
                #[trigger] merged@[k2]).0@,
        decreases n_objs - o,
    {
        let n_funcs = objects[o].functions.len();
        let mut f: usize = 0;
        while f < n_funcs
            invariant
                0 <= f <= n_funcs,
                0 <= o < n_objs,
                n_objs == objects@.len(),
                n_funcs == objects@[o as int].functions@.len(),
                n_funcs < 0x1000_0000,
                forall|oo: int|
                    0 <= oo < objects@.len() ==> (#[trigger] objects@[oo].functions@.len())
                        < 0x1000_0000,
                forall|k: int|
                    0 <= k < merged@.len() ==> spec_merged_entry_ok(
                        objects@,
                        #[trigger] merged@[k],
                    ),
                forall|k: int|
                    0 <= k < merged@.len() ==> ((#[trigger] merged@[k]).1.0 < o || (merged@[k].1.0
                        == o && merged@[k].1.1 < f)),
                forall|oo: int, ff: int|
                    0 <= oo < o && 0 <= ff < objects@[oo].functions@.len()
                        ==> #[trigger] spec_merged_has_pair(merged@, oo, ff),
                forall|ff: int|
                    0 <= ff < f ==> #[trigger] spec_merged_has_pair(merged@, o as int, ff),
                forall|k1: int, k2: int|
                    0 <= k1 < k2 < merged@.len() ==> ((#[trigger] merged@[k1]).1.0 < (
                    #[trigger] merged@[k2]).1.0 || (merged@[k1].1.0 == merged@[k2].1.0
                        && merged@[k1].1.1 < merged@[k2].1.1)),
                forall|k1: int, k2: int|
                    0 <= k1 < k2 < merged@.len() ==> (#[trigger] merged@[k1]).0@ != (
                    #[trigger] merged@[k2]).0@,
            decreases n_funcs - f,
        {
            let func_global = objects[o].functions[f].global;
            let key: Vec<u8> = if func_global {
                copy_bytes(&objects[o].functions[f].name)
            } else {
                qualified_name(&objects[o].name, &objects[o].functions[f].name)
            };
            proof {
                assert(key@ == spec_merged_key(
                    objects@[o as int],
                    objects@[o as int].functions@[f as int],
                ));
            }
            // A duplicate key is a multiple-definition error.
            let n_merged = merged.len();
            let mut k: usize = 0;
            while k < n_merged
                invariant
                    0 <= k <= n_merged,
                    n_merged == merged@.len(),
                    0 <= o < n_objs,
                    0 <= f < n_funcs,
                    n_objs == objects@.len(),
                    n_funcs == objects@[o as int].functions@.len(),
                    key@ == spec_merged_key(
                        objects@[o as int],
                        objects@[o as int].functions@[f as int],
                    ),
                    forall|kk: int|
                        0 <= kk < merged@.len() ==> spec_merged_entry_ok(
                            objects@,
                            #[trigger] merged@[kk],
                        ),
                    forall|kk: int|
                        0 <= kk < merged@.len() ==> ((#[trigger] merged@[kk]).1.0 < o || (
                        merged@[kk].1.0 == o && merged@[kk].1.1 < f)),
                    forall|kk: int| 0 <= kk < k ==> (#[trigger] merged@[kk]).0@ != key@,
                decreases n_merged - k,
            {
                if bytes_eq(&merged[k].0, &key) {
                    proof {
                        let e = merged@[k as int];
                        assert(spec_merged_entry_ok(objects@, e));
                        assert(!(e.1.0 == o && e.1.1 == f));
                        assert(spec_merged_key(
                            objects@[e.1.0 as int],
                            objects@[e.1.0 as int].functions@[e.1.1 as int],
                        ) == spec_merged_key(
                            objects@[o as int],
                            objects@[o as int].functions@[f as int],
                        ));
                        assert(!spec_merged_keys_unique(objects@));
                    }
                    return Err(LinkError::in_function(
                        LinkErrorKind::MultipleDefinition,
                        &objects[o].name,
                        &objects[o].functions[f].name,
                        0,
                    ));
                }
                k = k + 1;
            }
            let ghost pre = merged@;
            merged.push((key, (o, f)));
            proof {
                assert(merged@[pre.len() as int].1 == (o, f));
                assert forall|ff: int| 0 <= ff < f + 1 implies spec_merged_has_pair(
                    merged@,
                    o as int,
                    ff,
                ) by {
                    if ff < f {
                        assert(spec_merged_has_pair(pre, o as int, ff));
                        let kw = choose|kw: int|
                            0 <= kw < pre.len() && (#[trigger] pre[kw]).1.0 == o as int
                                && pre[kw].1.1 == ff;
                        assert(merged@[kw] == pre[kw]);
                    } else {
                        assert(merged@[pre.len() as int].1.0 == o as int);
                    }
                }
                assert forall|oo: int, ff: int|
                    0 <= oo < o && 0 <= ff
                        < objects@[oo].functions@.len() implies #[trigger] spec_merged_has_pair(
                    merged@,
                    oo,
                    ff,
                ) by {
                    assert(spec_merged_has_pair(pre, oo, ff));
                    let kw = choose|kw: int|
                        0 <= kw < pre.len() && (#[trigger] pre[kw]).1.0 == oo && pre[kw].1.1 == ff;
                    assert(merged@[kw] == pre[kw]);
                }
            }
            f = f + 1;
        }
        o = o + 1;
    }
    proof {
        assert forall|o1: int, f1: int, o2: int, f2: int|
            0 <= o1 < objects@.len() && 0 <= f1 < objects@[o1].functions@.len() && 0 <= o2
                < objects@.len() && 0 <= f2 < objects@[o2].functions@.len() && !(o1 == o2 && f1
                == f2) implies spec_merged_key(
            objects@[o1],
            #[trigger] objects@[o1].functions@[f1],
        ) != spec_merged_key(objects@[o2], #[trigger] objects@[o2].functions@[f2]) by {
            assert(spec_merged_has_pair(merged@, o1, f1));
            assert(spec_merged_has_pair(merged@, o2, f2));
            let k1 = choose|k1: int|
                0 <= k1 < merged@.len() && (#[trigger] merged@[k1]).1.0 == o1 && merged@[k1].1.1
                    == f1;
            let k2 = choose|k2: int|
                0 <= k2 < merged@.len() && (#[trigger] merged@[k2]).1.0 == o2 && merged@[k2].1.1
                    == f2;
            assert(k1 != k2);
            assert(spec_merged_entry_ok(objects@, merged@[k1]));
            assert(spec_merged_entry_ok(objects@, merged@[k2]));
            if k1 < k2 {
                assert(merged@[k1].0@ != merged@[k2].0@);
            } else {
                assert(merged@[k2].0@ != merged@[k1].0@);
            }
        }
    }
    Ok(merged)
}

/// A section whose bytes belong in the data image: allocated program bits
/// that are not executable.
pub open spec fn spec_is_data_section(sh: SectionHeader) -> bool {
    sh.sh_type == SHT_PROGBITS && (sh.sh_flags & SHF_ALLOC) != 0 && (sh.sh_flags & SHF_EXECINSTR)
        == 0
}

/// A data-base entry records where a section was placed: its bytes stand at
/// `base - data_offset` in the data image.
pub open spec fn spec_data_base_ok(
    objects: Seq<LocalObject>,
    data: Seq<u8>,
    data_offset: u32,
    e: (usize, usize, u64),
) -> bool {
    &&& (e.0 as int) < objects.len()
    &&& (e.1 as int) < objects[e.0 as int].elf.section_headers@.len()
    &&& {
        let sh = objects[e.0 as int].elf.section_headers@[e.1 as int];
        &&& spec_is_data_section(sh)
        &&& e.2 >= data_offset
        &&& e.2 - data_offset + sh.sh_size <= data.len()
        &&& data.subrange(e.2 - data_offset, e.2 - data_offset + sh.sh_size)
            == spec_section_bytes(objects[e.0 as int].raw@, sh)
    }
}

/// The bytes object `obj` contributes to the data image from its first `s`
/// sections: each allocated, non-executable program-bits section's raw
/// bytes, in section order.
pub open spec fn spec_object_data(obj: LocalObject, s: int) -> Seq<u8>
    decreases s,
{
    if s <= 0 {
        Seq::empty()
    } else {
        spec_object_data(obj, s - 1) + (if (s - 1) < obj.elf.section_headers@.len()
            && spec_is_data_section(obj.elf.section_headers@[s - 1]) {
            spec_section_bytes(obj.raw@, obj.elf.section_headers@[s - 1])
        } else {
            Seq::empty()
        })
    }
}

/// The whole data image of the first `o` objects, in object order.
pub open spec fn spec_data_image(objects: Seq<LocalObject>, o: int) -> Seq<u8>
    decreases o,
{
    if o <= 0 {
        Seq::empty()
    } else {
        spec_data_image(objects, o - 1) + spec_object_data(
            objects[o - 1],
            objects[o - 1].elf.section_headers@.len() as int,
        )
    }
}

/// An object's data contribution only grows with its section count.
pub proof fn lemma_object_data_mono(obj: LocalObject, s1: int, s2: int)
    requires
        s1 <= s2,
    ensures
        spec_object_data(obj, s1).len() <= spec_object_data(obj, s2).len(),
    decreases s2 - s1,
{
    if s1 < s2 {
        lemma_object_data_mono(obj, s1, s2 - 1);
    }
}

/// The data image only grows with the object count.
pub proof fn lemma_data_image_mono(objects: Seq<LocalObject>, o1: int, o2: int)
    requires
        o1 <= o2,
    ensures
        spec_data_image(objects, o1).len() <= spec_data_image(objects, o2).len(),
    decreases o2 - o1,
{
    if o1 < o2 {
        lemma_data_image_mono(objects, o1, o2 - 1);
    }
}

/// Some data-base entry covers section `s` of object `o`.
pub open spec fn spec_has_data_base(bases: Seq<(usize, usize, u64)>, o: int, s: int) -> bool {
    exists|j: int| 0 <= j < bases.len() && (#[trigger] bases[j]).0 == o && bases[j].1 == s
}

/// Copy every allocated, non-executable program-bits section into the data
/// image, in object order then section order, and record each section's
/// placement (offset by the platform's data offset).
pub fn emit_data(objects: &Vec<LocalObject>, data_offset: u32) -> (r: Result<
    (Vec<u8>, Vec<(usize, usize, u64)>),
    LinkError,
>)
    ensures
        r is Ok <==> ({
            &&& forall|o: int, s: int|
                0 <= o < objects@.len() && 0 <= s < objects@[o].elf.section_headers@.len()
                    && spec_is_data_section(#[trigger] objects@[o].elf.section_headers@[s]) ==> ({
                    let sh = objects@[o].elf.section_headers@[s];
                    sh.sh_offset + sh.sh_size <= objects@[o].raw@.len()
                })
            &&& spec_data_image(objects@, objects@.len() as int).len() <= usize::MAX
            &&& spec_data_image(objects@, objects@.len() as int).len() + data_offset <= u64::MAX
        }),
        r is Ok ==> {
            let (data, bases) = r->Ok_0;
            &&& data@ == spec_data_image(objects@, objects@.len() as int)
            &&& forall|j: int|
                0 <= j < bases@.len() ==> spec_data_base_ok(
                    objects@,
                    data@,
                    data_offset,
                    #[trigger] bases@[j],
                )
            &&& forall|o: int, s: int|
                0 <= o < objects@.len() && 0 <= s < objects@[o].elf.section_headers@.len()
                    && spec_is_data_section(#[trigger] objects@[o].elf.section_headers@[s])
                    ==> spec_has_data_base(bases@, o, s)
            &&& forall|j1: int, j2: int|
                0 <= j1 < j2 < bases@.len() ==> !((#[trigger] bases@[j1]).0 == (
                #[trigger] bases@[j2]).0 && bases@[j1].1 == bases@[j2].1)
        },
        r is Err ==> r->Err_0.kind == LinkErrorKind::TruncatedSection || r->Err_0.kind
            == LinkErrorKind::ImageTooLarge,
{
    let mut data: Vec<u8> = Vec::new();
    let mut bases: Vec<(usize, usize, u64)> = Vec::new();
    let n_objs = objects.len();
    let mut o: usize = 0;
    while o < n_objs
        invariant
            0 <= o <= n_objs,
            n_objs == objects@.len(),
            data@ == spec_data_image(objects@, o as int),
            data@.len() + data_offset <= u64::MAX,
            forall|oo: int, ss: int|
                0 <= oo < o && 0 <= ss < objects@[oo].elf.section_headers@.len()
                    && spec_is_data_section(#[trigger] objects@[oo].elf.section_headers@[ss])
                    ==> ({
                    let sh = objects@[oo].elf.section_headers@[ss];
                    sh.sh_offset + sh.sh_size <= objects@[oo].raw@.len()
                }),
            forall|j: int|
                0 <= j < bases@.len() ==> spec_data_base_ok(
                    objects@,
                    data@,
                    data_offset,
                    #[trigger] bases@[j],
                ),
            forall|j: int| 0 <= j < bases@.len() ==> (#[trigger] bases@[j]).0 < o,
            forall|oo: int, s: int|
                0 <= oo < o && 0 <= s < objects@[oo].elf.section_headers@.len()
                    && spec_is_data_section(#[trigger] objects@[oo].elf.section_headers@[s])
                    ==> spec_has_data_base(bases@, oo, s),
            forall|j1: int, j2: int|
                0 <= j1 < j2 < bases@.len() ==> !((#[trigger] bases@[j1]).0 == (
                #[trigger] bases@[j2]).0 && bases@[j1].1 == bases@[j2].1),
        decreases n_objs - o,
    {
        let n_secs = objects[o].elf.section_headers.len();
        let mut s: usize = 0;
        while s < n_secs
            invariant
                0 <= s <= n_secs,
                0 <= o < n_objs,
                n_objs == objects@.len(),
                n_secs == objects@[o as int].elf.section_headers@.len(),
                data@ == spec_data_image(objects@, o as int) + spec_object_data(
                    objects@[o as int],
                    s as int,
                ),
                data@.len() + data_offset <= u64::MAX,
                forall|oo: int, ss: int|
                    0 <= oo < o && 0 <= ss < objects@[oo].elf.section_headers@.len()
                        && spec_is_data_section(#[trigger] objects@[oo].elf.section_headers@[ss])
                        ==> ({
                        let sh = objects@[oo].elf.section_headers@[ss];
                        sh.sh_offset + sh.sh_size <= objects@[oo].raw@.len()
                    }),
                forall|ss: int|
                    0 <= ss < s && spec_is_data_section(
                        #[trigger] objects@[o as int].elf.section_headers@[ss],
                    ) ==> ({
                        let sh = objects@[o as int].elf.section_headers@[ss];
                        sh.sh_offset + sh.sh_size <= objects@[o as int].raw@.len()
                    }),
                forall|j: int|
                    0 <= j < bases@.len() ==> spec_data_base_ok(
                        objects@,
                        data@,
                        data_offset,
                        #[trigger] bases@[j],
                    ),
                forall|j: int|
                    0 <= j < bases@.len() ==> ((#[trigger] bases@[j]).0 < o || (bases@[j].0 == o
                        && bases@[j].1 < s)),
                forall|oo: int, ss: int|
                    0 <= oo < o && 0 <= ss < objects@[oo].elf.section_headers@.len()
                        && spec_is_data_section(#[trigger] objects@[oo].elf.section_headers@[ss])
                        ==> spec_has_data_base(bases@, oo, ss),
                forall|ss: int|
                    0 <= ss < s && spec_is_data_section(
                        objects@[o as int].elf.section_headers@[ss],
                    ) ==> spec_has_data_base(bases@, o as int, ss),
                forall|j1: int, j2: int|
                    0 <= j1 < j2 < bases@.len() ==> !((#[trigger] bases@[j1]).0 == (
                    #[trigger] bases@[j2]).0 && bases@[j1].1 == bases@[j2].1),
            decreases n_secs - s,
        {
            let sh = objects[o].elf.section_headers[s];
            if sh.sh_type == SHT_PROGBITS && (sh.sh_flags & SHF_ALLOC) != 0 && (sh.sh_flags
                & SHF_EXECINSTR) == 0 {
                let raw_len = objects[o].raw.len();
                if sh.sh_size > raw_len as u64 || sh.sh_offset > raw_len as u64 - sh.sh_size {
                    return Err(LinkError::new(LinkErrorKind::TruncatedSection));
                }
                let sec_off = sh.sh_offset as usize;
                let sec_len = sh.sh_size as usize;
                let raw_len_b = raw_len;
                let pos = data.len();
                proof {
                    assert(spec_object_data(objects@[o as int], s + 1)
                        =~= spec_object_data(objects@[o as int], s as int) + spec_section_bytes(
                        objects@[o as int].raw@,
                        sh,
                    ));
                    lemma_object_data_mono(objects@[o as int], s + 1, n_secs as int);
                    assert(spec_data_image(objects@, o + 1) == spec_data_image(objects@, o as int)
                        + spec_object_data(objects@[o as int], n_secs as int));
                    lemma_data_image_mono(objects@, o + 1, n_objs as int);
                }
                if sec_len > usize::MAX - pos {
                    return Err(LinkError::new(LinkErrorKind::ImageTooLarge));
                }
                if (pos + sec_len) as u64 > u64::MAX - data_offset as u64 {
                    return Err(LinkError::new(LinkErrorKind::ImageTooLarge));
                }
                let base: u64 = pos as u64 + data_offset as u64;
                let ghost old_data = data@;
                let ghost old_bases = bases@;
                // Append the section bytes.
                let mut i: usize = 0;
                while i < sec_len
                    invariant
                        0 <= i <= sec_len,
                        0 <= o < n_objs,
                        n_objs == objects@.len(),
                        raw_len_b == objects@[o as int].raw@.len(),
                        sec_off + sec_len <= raw_len_b,
                        data@ =~= old_data + objects@[o as int].raw@.subrange(
                            sec_off as int,
                            sec_off + i,
                        ),
                        sec_len <= usize::MAX - old_data.len(),
                    decreases sec_len - i,
                {
                    let b = objects[o].raw[sec_off + i];
                    data.push(b);
                    i = i + 1;
                }
                bases.push((o, s, base));
                proof {
                    assert(data@.subrange(pos as int, pos + sec_len)
                        =~= spec_section_bytes(objects@[o as int].raw@, sh));
                    assert(forall|j: int| 0 <= j < old_data.len() ==> data@[j] == old_data[j]);
                    assert(bases@[old_bases.len() as int] == (o, s, base));
                    assert forall|j: int| 0 <= j < bases@.len() implies spec_data_base_ok(
                        objects@,
                        data@,
                        data_offset,
                        #[trigger] bases@[j],
                    ) by {
                        if j < old_bases.len() {
                            assert(bases@[j] == old_bases[j]);
                            assert(spec_data_base_ok(objects@, old_data, data_offset, old_bases[j]));
                            let e = old_bases[j];
                            let sh2 = objects@[e.0 as int].elf.section_headers@[e.1 as int];
                            assert(data@.subrange(e.2 - data_offset, e.2 - data_offset
                                + sh2.sh_size) =~= old_data.subrange(e.2 - data_offset, e.2
                                - data_offset + sh2.sh_size));
                        } else {
                            assert(bases@[j] == (o, s, base));
                        }
                    }
                    assert forall|oo: int, ss: int|
                        (0 <= oo < o && 0 <= ss < objects@[oo].elf.section_headers@.len()
                            && spec_is_data_section(
                            #[trigger] objects@[oo].elf.section_headers@[ss],
                        )) implies spec_has_data_base(bases@, oo, ss) by {
                        assert(spec_has_data_base(old_bases, oo, ss));
                        let jw = choose|jw: int|
                            0 <= jw < old_bases.len() && (#[trigger] old_bases[jw]).0 == oo
                                && old_bases[jw].1 == ss;
                        assert(bases@[jw] == old_bases[jw]);
                    }
                    assert forall|ss: int|
                        0 <= ss < s + 1 && spec_is_data_section(
                            objects@[o as int].elf.section_headers@[ss],
                        ) implies spec_has_data_base(bases@, o as int, ss) by {
                        if ss < s {
                            assert(spec_has_data_base(old_bases, o as int, ss));
                            let jw = choose|jw: int|
                                0 <= jw < old_bases.len() && (#[trigger] old_bases[jw]).0
                                    == o as int && old_bases[jw].1 == ss;
                            assert(bases@[jw] == old_bases[jw]);
                        } else {
                            assert(bases@[old_bases.len() as int].0 == o as int);
                        }
                    }
                    assert(data@ =~= spec_data_image(objects@, o as int) + spec_object_data(
                        objects@[o as int],
                        s + 1,
                    ));
                }
            } else {
                proof {
                    assert(spec_object_data(objects@[o as int], s + 1) =~= spec_object_data(
                        objects@[o as int],
                        s as int,
                    ));
                    assert(data@ =~= spec_data_image(objects@, o as int) + spec_object_data(
                        objects@[o as int],
                        s + 1,
                    ));
                }
            }
            s = s + 1;
        }
        proof {
            assert(spec_data_image(objects@, o + 1) =~= spec_data_image(objects@, o as int)
                + spec_object_data(objects@[o as int], n_secs as int));
        }
        o = o + 1;
    }
    let total = data.len();
    proof {
        assert(total as int == spec_data_image(objects@, objects@.len() as int).len());
    }
    Ok((data, bases))
}


/// What one pseudo-call resolves to: a merged function, or a numbered
/// helper.
#[derive(Clone, Copy, Debug)]
pub enum CallResolution {
    Target((usize, usize)),
    Helper(i32),
}

/// Resolve a pseudo-call's symbol name, as the merged table and the two
/// helper registries dictate: first the bare name, then the caller-qualified
/// name; an import that is neither may be a helper, registered with the host
/// platform first and the target machine second; anything else is an
/// unresolved pseudo-call.
pub fn resolve_call_symbol(
    merged: &Vec<(Vec<u8>, (usize, usize))>,
    object_name: &Vec<u8>,
    sym_name: &Vec<u8>,
    sym_is_import: bool,
    host_helpers: &Vec<(Vec<u8>, i32)>,
    target_helpers: &Vec<(Vec<u8>, i32)>,
) -> (r: Result<CallResolution, LinkError>)
    ensures
        ({
            let direct = spec_lookup(entries_view(merged@), sym_name@);
            let qualified = spec_lookup(
                entries_view(merged@),
                spec_qualified(object_name@, sym_name@),
            );
            let helper = if spec_lookup(entries_view(host_helpers@), sym_name@) is Some {
                spec_lookup(entries_view(host_helpers@), sym_name@)
            } else {
                spec_lookup(entries_view(target_helpers@), sym_name@)
            };
            match r {
                Ok(CallResolution::Target(p)) => direct == Some(p) || (direct is None && qualified
                    == Some(p)),
                Ok(CallResolution::Helper(h)) => direct is None && qualified is None
                    && sym_is_import && helper == Some(h),
                Err(e) => direct is None && qualified is None && !(sym_is_import
                    && helper is Some) && e.kind == LinkErrorKind::UnresolvedPseudoCall,
            }
        }),
{
    if let Some(p) = lookup_pair(merged, sym_name) {
        return Ok(CallResolution::Target(p));
    }
    let qualified = qualified_name(object_name, sym_name);
    if let Some(p) = lookup_pair(merged, &qualified) {
        return Ok(CallResolution::Target(p));
    }
    if sym_is_import {
        if let Some(h) = lookup_i32(host_helpers, sym_name) {
            return Ok(CallResolution::Helper(h));
        }
        if let Some(h) = lookup_i32(target_helpers, sym_name) {
            return Ok(CallResolution::Helper(h));
        }
    }
    Err(LinkError::new(LinkErrorKind::UnresolvedPseudoCall))
}

/// Record a resolution on a call instruction: an internal target is
/// annotated for the later rewrite; a helper call gets the helper's index as
/// its immediate and drops the pseudo-call marker.
pub fn apply_call_resolution(insn: AnnotatedInsn, res: &CallResolution) -> (r: AnnotatedInsn)
    ensures
        match *res {
            CallResolution::Target(p) => r == (AnnotatedInsn {
                call_target_function: Some(p),
                ..insn
            }),
            CallResolution::Helper(h) => r == (AnnotatedInsn {
                insn: Insn { src: 0, imm: h, ..insn.insn },
                ..insn
            }),
        },
{
    match res {
        CallResolution::Target(p) => AnnotatedInsn { call_target_function: Some(*p), ..insn },
        CallResolution::Helper(h) => AnnotatedInsn {
            insn: Insn { src: 0, imm: *h, ..insn.insn },
            ..insn
        },
    }
}

/// The latest merged function of object `o` in section `sec` that starts
/// exactly at byte `off`, looking at the first `k` merged entries.
pub open spec fn spec_function_at(
    functions: Seq<Function>,
    merged: Seq<(Vec<u8>, (usize, usize))>,
    o: int,
    sec: int,
    off: int,
    k: int,
) -> Option<(usize, usize)>
    decreases k,
{
    if k <= 0 {
        None
    } else {
        let e = merged[k - 1];
        if e.1.0 == o && (e.1.1 as int) < functions.len() && functions[e.1.1 as int].section_index
            == sec && functions[e.1.1 as int].offset == off {
            Some(e.1)
        } else {
            spec_function_at(functions, merged, o, sec, off, k - 1)
        }
    }
}

/// Find the merged function of object `o` in section `sec` starting exactly
/// at byte `off`.
pub fn find_function_at(
    merged: &Vec<(Vec<u8>, (usize, usize))>,
    functions: &Vec<Function>,
    o: usize,
    sec: usize,
    off: usize,
) -> (r: Option<(usize, usize)>)
    ensures
        r == spec_function_at(
            functions@,
            merged@,
            o as int,
            sec as int,
            off as int,
            merged@.len() as int,
        ),
{
    let mut k: usize = merged.len();
    while k > 0
        invariant
            0 <= k <= merged@.len(),
            spec_function_at(
                functions@,
                merged@,
                o as int,
                sec as int,
                off as int,
                merged@.len() as int,
            ) == spec_function_at(functions@, merged@, o as int, sec as int, off as int, k as int),
        decreases k,
    {
        let e = merged[k - 1].1;
        if e.0 == o && e.1 < functions.len() {
            let f_sec = functions[e.1].section_index;
            let f_off = functions[e.1].offset;
            if f_sec == sec && f_off == off {
                return Some(e);
            }
        }
        k = k - 1;
    }
    None
}

/// The relocation record keyed `(f, off)`, if any: the first match, and
/// with the per-object key uniqueness the only one.
pub open spec fn spec_reloc_at_key(
    reloc: Seq<(usize, usize, Reloc)>,
    f: int,
    off: int,
) -> Option<Reloc>
    decreases reloc.len(),
{
    if reloc.len() == 0 {
        None
    } else if reloc[0].0 == f && reloc[0].1 == off {
        Some(reloc[0].2)
    } else {
        spec_reloc_at_key(reloc.drop_first(), f, off)
    }
}

/// No relocation is keyed outside the range of its key type.
pub proof fn lemma_reloc_key_range(reloc: Seq<(usize, usize, Reloc)>, f: int, off: int)
    requires
        off < 0 || off > usize::MAX,
    ensures
        spec_reloc_at_key(reloc, f, off) is None,
    decreases reloc.len(),
{
    if reloc.len() > 0 {
        lemma_reloc_key_range(reloc.drop_first(), f, off);
    }
}

/// Find the relocation record keyed `(f, off)`.
fn find_reloc(reloc: &Vec<(usize, usize, Reloc)>, f: usize, off: usize) -> (r: Option<Reloc>)
    ensures
        r == spec_reloc_at_key(reloc@, f as int, off as int),
{
    let n = reloc.len();
    proof {
        assert(reloc@.skip(0) =~= reloc@);
    }
    let mut j: usize = 0;
    while j < n
        invariant
            0 <= j <= n,
            n == reloc@.len(),
            spec_reloc_at_key(reloc@, f as int, off as int) == spec_reloc_at_key(
                reloc@.skip(j as int),
                f as int,
                off as int,
            ),
        decreases n - j,
    {
        proof {
            assert(reloc@.skip(j as int)[0] == reloc@[j as int]);
            assert(reloc@.skip(j as int).drop_first() =~= reloc@.skip(j + 1));
        }
        if reloc[j].0 == f && reloc[j].1 == off {
            return Some(reloc[j].2);
        }
        j = j + 1;
    }
    proof {
        assert(reloc@.skip(n as int).len() == 0);
    }
    None
}

/// Function `f` has a pseudo-call instruction at source offset `off`.
pub open spec fn spec_is_pseudo_call_site(functions: Seq<Function>, f: int, off: int) -> bool {
    &&& 0 <= f < functions.len()
    &&& exists|i: int|
        0 <= i < functions[f].code@.len() && {
            let a = #[trigger] functions[f].code@[i];
            a.insn.opc == CALL && a.insn.src == 1 && a.original_offset == off
        }
}

/// Whether function `f` of `functions` carries a pseudo-call at `off`.
fn is_pseudo_call_site(functions: &Vec<Function>, f: usize, off: usize) -> (r: bool)
    ensures
        r == spec_is_pseudo_call_site(functions@, f as int, off as int),
{
    if f >= functions.len() {
        return false;
    }
    let n = functions[f].code.len();
    let mut i: usize = 0;
    while i < n
        invariant
            0 <= i <= n,
            (f as int) < functions@.len(),
            n == functions@[f as int].code@.len(),
            forall|ii: int|
                0 <= ii < i ==> !({
                    let a = #[trigger] functions@[f as int].code@[ii];
                    a.insn.opc == CALL && a.insn.src == 1 && a.original_offset == off
                }),
        decreases n - i,
    {
        let a = functions[f].code[i];
        if a.insn.opc == CALL && a.insn.src == 1 && a.original_offset >= 0 && a.original_offset
            as u64 == off as u64 {
            return true;
        }
        i = i + 1;
    }
    false
}

/// Keep the relocations that no pseudo-call consumed: the calls take the
/// records at their own sites, the rest stay for data relocation.
fn strip_call_relocs(reloc: &Vec<(usize, usize, Reloc)>, functions: &Vec<Function>) -> (r: Vec<
    (usize, usize, Reloc),
>)
    requires
        forall|j1: int, j2: int|
            0 <= j1 < j2 < reloc@.len() ==> !(reloc@[j1].0 == reloc@[j2].0 && reloc@[j1].1
                == reloc@[j2].1),
    ensures
        forall|j: int|
            0 <= j < r@.len() ==> spec_reloc_from(reloc@, #[trigger] r@[j])
                && !spec_is_pseudo_call_site(functions@, r@[j].0 as int, r@[j].1 as int),
        forall|j: int|
            0 <= j < reloc@.len() && !spec_is_pseudo_call_site(
                functions@,
                (#[trigger] reloc@[j]).0 as int,
                reloc@[j].1 as int,
            ) ==> spec_reloc_from(r@, reloc@[j]),
        forall|j1: int, j2: int|
            0 <= j1 < j2 < r@.len() ==> !(r@[j1].0 == r@[j2].0 && r@[j1].1 == r@[j2].1),
{
    let n = reloc.len();
    let mut out: Vec<(usize, usize, Reloc)> = Vec::new();
    let ghost mut srcs: Seq<int> = Seq::empty();
    let mut j: usize = 0;
    while j < n
        invariant
            0 <= j <= n,
            n == reloc@.len(),
            forall|ja: int, jb: int|
                0 <= ja < jb < reloc@.len() ==> !(reloc@[ja].0 == reloc@[jb].0 && reloc@[ja].1
                    == reloc@[jb].1),
            srcs.len() == out@.len(),
            forall|jj: int| 0 <= jj < srcs.len() ==> 0 <= #[trigger] srcs[jj] < j,
            forall|j1: int, j2: int| 0 <= j1 < j2 < srcs.len() ==> srcs[j1] < srcs[j2],
            forall|jj: int| 0 <= jj < out@.len() ==> #[trigger] out@[jj] == reloc@[srcs[jj]],
            forall|jj: int|
                0 <= jj < out@.len() ==> !spec_is_pseudo_call_site(
                    functions@,
                    (#[trigger] out@[jj]).0 as int,
                    out@[jj].1 as int,
                ),
            forall|jr: int|
                0 <= jr < j && !spec_is_pseudo_call_site(
                    functions@,
                    (#[trigger] reloc@[jr]).0 as int,
                    reloc@[jr].1 as int,
                ) ==> spec_reloc_from(out@, reloc@[jr]),
        decreases n - j,
    {
        let ghost pre = out@;
        let (fi, off, rl) = reloc[j];
        if !is_pseudo_call_site(functions, fi, off) {
            out.push((fi, off, rl));
            proof {
                srcs = srcs.push(j as int);
            }
        }
        proof {
            assert forall|jr: int|
                0 <= jr < j + 1 && !spec_is_pseudo_call_site(
                    functions@,
                    (#[trigger] reloc@[jr]).0 as int,
                    reloc@[jr].1 as int,
                ) implies spec_reloc_from(out@, reloc@[jr]) by {
                if jr < j {
                    assert(spec_reloc_from(pre, reloc@[jr]));
                    let jw = choose|jw: int|
                        0 <= jw < pre.len() && #[trigger] pre[jw] == reloc@[jr];
                    assert(out@[jw] == pre[jw]);
                } else {
                    assert(out@[out@.len() - 1] == reloc@[j as int]);
                }
            }
        }
        j = j + 1;
    }
    proof {
        assert forall|j1: int, j2: int| 0 <= j1 < j2 < out@.len() implies !(out@[j1].0
            == out@[j2].0 && out@[j1].1 == out@[j2].1) by {
            assert(out@[j1] == reloc@[srcs[j1]]);
            assert(out@[j2] == reloc@[srcs[j2]]);
            assert(srcs[j1] < srcs[j2]);
        }
        assert forall|jj: int| 0 <= jj < out@.len() implies spec_reloc_from(
            reloc@,
            #[trigger] out@[jj],
        ) by {
            assert(out@[jj] == reloc@[srcs[jj]]);
        }
    }
    out
}

/// How a pseudo-call instruction `a` of function `f` resolves into `b`,
/// exactly. With a relocation at its site, the record's symbol decides:
/// first the bare name in the merged table, then the caller-qualified name
/// (the target is recorded, the instruction untouched); an import matching
/// neither may be a helper, host platform before target machine (the
/// immediate becomes the helper's index and the pseudo-call marker clears).
/// Without a relocation the call is section-relative: the function starting
/// at `offset + original_offset + (imm + 1) * 8` in the same section of the
/// same object is recorded.
pub open spec fn spec_call_resolved(
    merged: Seq<(Vec<u8>, (usize, usize))>,
    hostv: Seq<(Seq<u8>, i32)>,
    targetv: Seq<(Seq<u8>, i32)>,
    obj: LocalObject,
    o: int,
    f: int,
    a: AnnotatedInsn,
    b: AnnotatedInsn,
) -> bool {
    match spec_reloc_at_key(obj.reloc@, f, a.original_offset as int) {
        Some(rel) => {
            &&& (rel.r_sym as int) < obj.elf.syms@.len()
            &&& {
                let sym = obj.elf.syms@[rel.r_sym as int];
                &&& spec_strtab_ok(obj.elf.shdr_strtab@, sym.st_name as int)
                &&& {
                    let nm = spec_strtab_at(obj.elf.shdr_strtab@, sym.st_name as int);
                    let direct = spec_lookup(entries_view(merged), nm);
                    let qualified = spec_lookup(
                        entries_view(merged),
                        spec_qualified(obj.name@, nm),
                    );
                    let helper = if spec_lookup(hostv, nm) is Some {
                        spec_lookup(hostv, nm)
                    } else {
                        spec_lookup(targetv, nm)
                    };
                    if direct is Some {
                        b == (AnnotatedInsn { call_target_function: Some(direct->0), ..a })
                    } else if qualified is Some {
                        b == (AnnotatedInsn { call_target_function: Some(qualified->0), ..a })
                    } else {
                        &&& sym.spec_is_import()
                        &&& helper is Some
                        &&& b == (AnnotatedInsn {
                            insn: Insn { src: 0, imm: helper->0, ..a.insn },
                            ..a
                        })
                    }
                }
            }
        },
        None => {
            &&& 0 <= a.original_offset <= usize::MAX
            &&& (f as int) < obj.functions@.len()
            &&& {
                let t = obj.functions@[f].offset + a.original_offset + (a.insn.imm + 1) * 8;
                let hit = spec_function_at(
                    obj.functions@,
                    merged,
                    o,
                    obj.functions@[f].section_index as int,
                    t,
                    merged.len() as int,
                );
                &&& 0 <= t <= usize::MAX
                &&& hit is Some
                &&& b == (AnnotatedInsn { call_target_function: Some(hit->0), ..a })
            }
        },
    }
}

/// The conditions under which a pseudo-call resolves at all: the success
/// half of [`spec_call_resolved`], with the outcome left out.
pub open spec fn spec_call_resolvable(
    merged: Seq<(Vec<u8>, (usize, usize))>,
    hostv: Seq<(Seq<u8>, i32)>,
    targetv: Seq<(Seq<u8>, i32)>,
    obj: LocalObject,
    o: int,
    f: int,
    a: AnnotatedInsn,
) -> bool {
    match spec_reloc_at_key(obj.reloc@, f, a.original_offset as int) {
        Some(rel) => {
            &&& (rel.r_sym as int) < obj.elf.syms@.len()
            &&& {
                let sym = obj.elf.syms@[rel.r_sym as int];
                &&& spec_strtab_ok(obj.elf.shdr_strtab@, sym.st_name as int)
                &&& {
                    let nm = spec_strtab_at(obj.elf.shdr_strtab@, sym.st_name as int);
                    ||| spec_lookup(entries_view(merged), nm) is Some
                    ||| spec_lookup(entries_view(merged), spec_qualified(obj.name@, nm)) is Some
                    ||| (sym.spec_is_import() && (spec_lookup(hostv, nm) is Some || spec_lookup(
                        targetv,
                        nm,
                    ) is Some))
                }
            }
        },
        None => {
            &&& 0 <= a.original_offset <= usize::MAX
            &&& (f as int) < obj.functions@.len()
            &&& {
                let t = obj.functions@[f].offset + a.original_offset + (a.insn.imm + 1) * 8;
                &&& 0 <= t <= usize::MAX
                &&& spec_function_at(
                    obj.functions@,
                    merged,
                    o,
                    obj.functions@[f].section_index as int,
                    t,
                    merged.len() as int,
                ) is Some
            }
        },
    }
}

/// Every pseudo-call of the object resolves.
pub open spec fn spec_object_calls_resolvable(
    merged: Seq<(Vec<u8>, (usize, usize))>,
    hostv: Seq<(Seq<u8>, i32)>,
    targetv: Seq<(Seq<u8>, i32)>,
    obj: LocalObject,
    o: int,
) -> bool {
    forall|f: int, i: int|
        0 <= f < obj.functions@.len() && 0 <= i < obj.functions@[f].code@.len() && (
        #[trigger] obj.functions@[f].code@[i]).insn.opc == CALL
            && obj.functions@[f].code@[i].insn.src == 1 ==> spec_call_resolvable(
            merged,
            hostv,
            targetv,
            obj,
            o,
            f,
            obj.functions@[f].code@[i],
        )
}

/// How function `f` of `obj` changes under pseudo-call resolution: each
/// pseudo-call per [`spec_call_resolved`], everything else untouched.
pub open spec fn spec_resolved_function(
    merged: Seq<(Vec<u8>, (usize, usize))>,
    hostv: Seq<(Seq<u8>, i32)>,
    targetv: Seq<(Seq<u8>, i32)>,
    obj: LocalObject,
    o: int,
    f: int,
    post: Function,
) -> bool {
    let pre = obj.functions@[f];
    &&& post.name@ == pre.name@
    &&& post.section_index == pre.section_index
    &&& post.offset == pre.offset
    &&& post.end_offset == pre.end_offset
    &&& post.global == pre.global
    &&& post.stack_usage == pre.stack_usage
    &&& post.global_linked_offset == pre.global_linked_offset
    &&& post.code@.len() == pre.code@.len()
    &&& forall|i: int|
        0 <= i < pre.code@.len() ==> {
            let a = #[trigger] pre.code@[i];
            if a.insn.opc == CALL && a.insn.src == 1 {
                spec_call_resolved(merged, hostv, targetv, obj, o, f, a, post.code@[i])
            } else {
                post.code@[i] == a
            }
        }
}

/// `e` is one of the entries of `pre`.
pub open spec fn spec_reloc_from(pre: Seq<(usize, usize, Reloc)>, e: (usize, usize, Reloc)) -> bool {
    exists|j: int| 0 <= j < pre.len() && #[trigger] pre[j] == e
}

/// How one object changes under pseudo-call resolution: its functions per
/// [`spec_resolved_function`], and its relocation list keeps exactly the
/// records whose sites are not pseudo-calls.
pub open spec fn spec_resolved_object(
    merged: Seq<(Vec<u8>, (usize, usize))>,
    hostv: Seq<(Seq<u8>, i32)>,
    targetv: Seq<(Seq<u8>, i32)>,
    pre: LocalObject,
    o: int,
    post: LocalObject,
) -> bool {
    &&& post.name == pre.name
    &&& post.elf == pre.elf
    &&& post.raw == pre.raw
    &&& post.functions@.len() == pre.functions@.len()
    &&& forall|f: int|
        0 <= f < pre.functions@.len() ==> spec_resolved_function(
            merged,
            hostv,
            targetv,
            pre,
            o,
            f,
            #[trigger] post.functions@[f],
        )
    &&& forall|j: int|
        0 <= j < post.reloc@.len() ==> spec_reloc_from(pre.reloc@, #[trigger] post.reloc@[j])
            && !spec_is_pseudo_call_site(
            pre.functions@,
            post.reloc@[j].0 as int,
            post.reloc@[j].1 as int,
        )
    &&& forall|j: int|
        0 <= j < pre.reloc@.len() && !spec_is_pseudo_call_site(
            pre.functions@,
            (#[trigger] pre.reloc@[j]).0 as int,
            pre.reloc@[j].1 as int,
        ) ==> spec_reloc_from(post.reloc@, pre.reloc@[j])
    &&& forall|j1: int, j2: int|
        0 <= j1 < j2 < post.reloc@.len() ==> !(post.reloc@[j1].0 == post.reloc@[j2].0
            && post.reloc@[j1].1 == post.reloc@[j2].1)
}

/// A resolved call was resolvable.
pub proof fn lemma_resolved_implies_resolvable(
    merged: Seq<(Vec<u8>, (usize, usize))>,
    hostv: Seq<(Seq<u8>, i32)>,
    targetv: Seq<(Seq<u8>, i32)>,
    obj: LocalObject,
    o: int,
    f: int,
    a: AnnotatedInsn,
    b: AnnotatedInsn,
)
    requires
        spec_call_resolved(merged, hostv, targetv, obj, o, f, a, b),
    ensures
        spec_call_resolvable(merged, hostv, targetv, obj, o, f, a),
{
}

/// A name that looks up to a pair names a merged entry.
pub proof fn lemma_lookup_pair_member(merged: Seq<(Vec<u8>, (usize, usize))>, name: Seq<u8>)
    ensures
        spec_lookup(entries_view(merged), name) is Some ==> ({
            let p = spec_lookup(entries_view(merged), name)->0;
            spec_merged_has_pair(merged, p.0 as int, p.1 as int)
        }),
    decreases merged.len(),
{
    if merged.len() > 0 {
        assert(entries_view(merged)[0] == (merged[0].0@, merged[0].1));
        if merged[0].0@ == name {
            assert(merged[0].1 == spec_lookup(entries_view(merged), name)->0);
        } else {
            assert(entries_view(merged).drop_first() =~= entries_view(merged.drop_first()));
            lemma_lookup_pair_member(merged.drop_first(), name);
            if spec_lookup(entries_view(merged), name) is Some {
                let p = spec_lookup(entries_view(merged), name)->0;
                assert(spec_merged_has_pair(merged.drop_first(), p.0 as int, p.1 as int));
                let kw = choose|kw: int|
                    0 <= kw < merged.drop_first().len() && (#[trigger] merged.drop_first()[kw]).1.0
                        == p.0 as int && merged.drop_first()[kw].1.1 == p.1 as int;
                assert(merged[kw + 1] == merged.drop_first()[kw]);
            }
        }
    }
}

/// A positive section-relative lookup names a merged entry.
pub proof fn lemma_function_at_member(
    functions: Seq<Function>,
    merged: Seq<(Vec<u8>, (usize, usize))>,
    o: int,
    sec: int,
    off: int,
    k: int,
)
    requires
        k <= merged.len(),
    ensures
        spec_function_at(functions, merged, o, sec, off, k) is Some ==> ({
            let p = spec_function_at(functions, merged, o, sec, off, k)->0;
            spec_merged_has_pair(merged, p.0 as int, p.1 as int)
        }),
    decreases k,
{
    if k > 0 {
        lemma_function_at_member(functions, merged, o, sec, off, k - 1);
    }
}

/// Resolve every pseudo-call of one object (`o` is its index among the
/// objects): a relocated call goes by its symbol, an unrelocated one is a
/// section-relative call to a function start of the same object.
#[verifier::rlimit(100)]
fn resolve_object_calls(
    obj: LocalObject,
    o: usize,
    merged: &Vec<(Vec<u8>, (usize, usize))>,
    host_helpers: &Vec<(Vec<u8>, i32)>,
    target_helpers: &Vec<(Vec<u8>, i32)>,
) -> (r: Result<LocalObject, LinkError>)
    requires
        forall|j1: int, j2: int|
            0 <= j1 < j2 < obj.reloc@.len() ==> !(obj.reloc@[j1].0 == obj.reloc@[j2].0
                && obj.reloc@[j1].1 == obj.reloc@[j2].1),
    ensures
        r is Ok <==> spec_object_calls_resolvable(
            merged@,
            entries_view(host_helpers@),
            entries_view(target_helpers@),
            obj,
            o as int,
        ),
        r is Ok ==> spec_resolved_object(
            merged@,
            entries_view(host_helpers@),
            entries_view(target_helpers@),
            obj,
            o as int,
            r->Ok_0,
        ),
{
    let ghost hostv = entries_view(host_helpers@);
    let ghost targetv = entries_view(target_helpers@);
    let n_funcs = obj.functions.len();
    let mut new_functions: Vec<Function> = Vec::new();
    let mut f: usize = 0;
    while f < n_funcs
        invariant
            0 <= f <= n_funcs,
            n_funcs == obj.functions@.len(),
            new_functions@.len() == f,
            hostv == entries_view(host_helpers@),
            targetv == entries_view(target_helpers@),
            forall|ff: int|
                0 <= ff < f ==> spec_resolved_function(
                    merged@,
                    hostv,
                    targetv,
                    obj,
                    o as int,
                    ff,
                    #[trigger] new_functions@[ff],
                ),
        decreases n_funcs - f,
    {
        let n_insns = obj.functions[f].code.len();
        let mut new_code: Vec<AnnotatedInsn> = Vec::new();
        let mut i: usize = 0;
        while i < n_insns
            invariant
                0 <= i <= n_insns,
                0 <= f < n_funcs,
                n_funcs == obj.functions@.len(),
                n_insns == obj.functions@[f as int].code@.len(),
                new_code@.len() == i,
                hostv == entries_view(host_helpers@),
                targetv == entries_view(target_helpers@),
                forall|ii: int|
                    0 <= ii < i ==> {
                        let a = #[trigger] obj.functions@[f as int].code@[ii];
                        if a.insn.opc == CALL && a.insn.src == 1 {
                            spec_call_resolved(
                                merged@,
                                hostv,
                                targetv,
                                obj,
                                o as int,
                                f as int,
                                a,
                                new_code@[ii],
                            )
                        } else {
                            new_code@[ii] == a
                        }
                    },
            decreases n_insns - i,
        {
            let a = obj.functions[f].code[i];
            if a.insn.opc == CALL && a.insn.src == 1 {
                if a.original_offset < 0 || a.original_offset as u64 > usize::MAX as u64 {
                    proof {
                        lemma_reloc_key_range(obj.reloc@, f as int, a.original_offset as int);
                        assert(!spec_call_resolvable(
                            merged@,
                            hostv,
                            targetv,
                            obj,
                            o as int,
                            f as int,
                            a,
                        ));
                        assert(!spec_object_calls_resolvable(
                            merged@,
                            hostv,
                            targetv,
                            obj,
                            o as int,
                        ));
                    }
                    return Err(LinkError::in_function(
                        LinkErrorKind::MissingLocalCallTarget,
                        &obj.name,
                        &obj.functions[f].name,
                        0,
                    ));
                }
                let ooff = (a.original_offset as u64) as usize;
                proof {
                    assert(ooff as int == a.original_offset as int);
                }
                match find_reloc(&obj.reloc, f, ooff) {
                    Some(rel) => {
                        if !((rel.r_sym as usize) < obj.elf.syms.len()) {
                            proof {
                                assert(!spec_object_calls_resolvable(
                                    merged@,
                                    hostv,
                                    targetv,
                                    obj,
                                    o as int,
                                ));
                            }
                            return Err(LinkError::in_function(
                                LinkErrorKind::BadSymbolIndex,
                                &obj.name,
                                &obj.functions[f].name,
                                ooff,
                            ));
                        }
                        let sym = obj.elf.syms[rel.r_sym as usize];
                        let sym_name = match crate::elf::strtab_get(
                            &obj.elf.shdr_strtab,
                            sym.st_name as usize,
                        ) {
                            Ok(n) => n,
                            Err(e) => {
                                proof {
                                    assert(!spec_object_calls_resolvable(
                                        merged@,
                                        hostv,
                                        targetv,
                                        obj,
                                        o as int,
                                    ));
                                }
                                return Err(e);
                            },
                        };
                        let res = match resolve_call_symbol(
                            merged,
                            &obj.name,
                            &sym_name,
                            sym.is_import(),
                            host_helpers,
                            target_helpers,
                        ) {
                            Ok(res) => res,
                            Err(e) => {
                                proof {
                                    assert(!spec_call_resolvable(
                                        merged@,
                                        hostv,
                                        targetv,
                                        obj,
                                        o as int,
                                        f as int,
                                        a,
                                    ));
                                    assert(!spec_object_calls_resolvable(
                                        merged@,
                                        hostv,
                                        targetv,
                                        obj,
                                        o as int,
                                    ));
                                }
                                return Err(e);
                            },
                        };
                        let b = apply_call_resolution(a, &res);
                        proof {
                            assert(spec_call_resolved(
                                merged@,
                                hostv,
                                targetv,
                                obj,
                                o as int,
                                f as int,
                                a,
                                b,
                            ));
                        }
                        new_code.push(b);
                    },
                    None => {
                        let t: i128 = obj.functions[f].offset as i128 + ooff as i128 + (
                        a.insn.imm as i128 + 1) * 8;
                        if t < 0 || t > usize::MAX as i128 {
                            proof {
                                assert(!spec_call_resolvable(
                                    merged@,
                                    hostv,
                                    targetv,
                                    obj,
                                    o as int,
                                    f as int,
                                    a,
                                ));
                                assert(!spec_object_calls_resolvable(
                                    merged@,
                                    hostv,
                                    targetv,
                                    obj,
                                    o as int,
                                ));
                            }
                            return Err(LinkError::in_function(
                                LinkErrorKind::MissingLocalCallTarget,
                                &obj.name,
                                &obj.functions[f].name,
                                ooff,
                            ));
                        }
                        let toff = t as usize;
                        let sec = obj.functions[f].section_index;
                        match find_function_at(merged, &obj.functions, o, sec, toff) {
                            Some(p) => {
                                let b = AnnotatedInsn { call_target_function: Some(p), ..a };
                                proof {
                                    assert(spec_call_resolved(
                                        merged@,
                                        hostv,
                                        targetv,
                                        obj,
                                        o as int,
                                        f as int,
                                        a,
                                        b,
                                    ));
                                }
                                new_code.push(b);
                            },
                            None => {
                                proof {
                                    assert(!spec_call_resolvable(
                                        merged@,
                                        hostv,
                                        targetv,
                                        obj,
                                        o as int,
                                        f as int,
                                        a,
                                    ));
                                    assert(!spec_object_calls_resolvable(
                                        merged@,
                                        hostv,
                                        targetv,
                                        obj,
                                        o as int,
                                    ));
                                }
                                return Err(LinkError::in_function(
                                    LinkErrorKind::MissingLocalCallTarget,
                                    &obj.name,
                                    &obj.functions[f].name,
                                    ooff,
                                ));
                            },
                        }
                    },
                }
            } else {
                new_code.push(a);
            }
            i = i + 1;
        }
        let nf = Function {
            name: copy_bytes(&obj.functions[f].name),
            section_index: obj.functions[f].section_index,
            offset: obj.functions[f].offset,
            end_offset: obj.functions[f].end_offset,
            code: new_code,
            global: obj.functions[f].global,
            stack_usage: obj.functions[f].stack_usage,
            global_linked_offset: obj.functions[f].global_linked_offset,
        };
        proof {
            assert(spec_resolved_function(merged@, hostv, targetv, obj, o as int, f as int, nf));
        }
        new_functions.push(nf);
        f = f + 1;
    }
    let reloc_rem = strip_call_relocs(&obj.reloc, &obj.functions);
    proof {
        assert forall|ff: int, ii: int|
            0 <= ff < obj.functions@.len() && 0 <= ii < obj.functions@[ff].code@.len() && (
            #[trigger] obj.functions@[ff].code@[ii]).insn.opc == CALL
                && obj.functions@[ff].code@[ii].insn.src == 1 implies spec_call_resolvable(
            merged@,
            hostv,
            targetv,
            obj,
            o as int,
            ff,
            obj.functions@[ff].code@[ii],
        ) by {
            assert(spec_resolved_function(
                merged@,
                hostv,
                targetv,
                obj,
                o as int,
                ff,
                new_functions@[ff],
            ));
            let a = obj.functions@[ff].code@[ii];
            assert(spec_call_resolved(
                merged@,
                hostv,
                targetv,
                obj,
                o as int,
                ff,
                a,
                new_functions@[ff].code@[ii],
            ));
            lemma_resolved_implies_resolvable(
                merged@,
                hostv,
                targetv,
                obj,
                o as int,
                ff,
                a,
                new_functions@[ff].code@[ii],
            );
        }
    }
    Ok(LocalObject {
        name: obj.name,
        elf: obj.elf,
        raw: obj.raw,
        functions: new_functions,
        reloc: reloc_rem,
    })
}

/// Resolve every pseudo-call of every object. Succeeds exactly when every
/// pseudo-call resolves by its relocation's symbol or its section-relative
/// target.
pub fn resolve_pseudo_calls(
    objects: Vec<LocalObject>,
    merged: &Vec<(Vec<u8>, (usize, usize))>,
    host_helpers: &Vec<(Vec<u8>, i32)>,
    target_helpers: &Vec<(Vec<u8>, i32)>,
) -> (r: Result<Vec<LocalObject>, LinkError>)
    requires
        forall|oo: int|
            0 <= oo < objects@.len() ==> spec_local_object_wf(#[trigger] objects@[oo]),
    ensures
        r is Ok <==> (forall|oo: int|
            0 <= oo < objects@.len() ==> #[trigger] spec_object_calls_resolvable(
                merged@,
                entries_view(host_helpers@),
                entries_view(target_helpers@),
                objects@[oo],
                oo,
            )),
        r is Ok ==> {
            let out = r->Ok_0;
            &&& out@.len() == objects@.len()
            &&& forall|oo: int|
                0 <= oo < objects@.len() ==> spec_resolved_object(
                    merged@,
                    entries_view(host_helpers@),
                    entries_view(target_helpers@),
                    objects@[oo],
                    oo,
                    #[trigger] out@[oo],
                )
        },
{
    let ghost orig = objects@;
    let ghost hostv = entries_view(host_helpers@);
    let ghost targetv = entries_view(target_helpers@);
    let mut rest = objects;
    let mut out: Vec<LocalObject> = Vec::new();
    proof {
        assert(rest@ =~= orig.skip(0));
    }
    while rest.len() > 0
        invariant
            out@.len() + rest@.len() == orig.len(),
            orig == objects@,
            rest@ =~= orig.skip(out@.len() as int),
            hostv == entries_view(host_helpers@),
            targetv == entries_view(target_helpers@),
            forall|oo: int| 0 <= oo < orig.len() ==> spec_local_object_wf(#[trigger] orig[oo]),
            forall|oo: int|
                0 <= oo < out@.len() ==> spec_resolved_object(
                    merged@,
                    hostv,
                    targetv,
                    orig[oo],
                    oo,
                    #[trigger] out@[oo],
                ),
            forall|oo: int|
                0 <= oo < out@.len() ==> #[trigger] spec_object_calls_resolvable(
                    merged@,
                    hostv,
                    targetv,
                    orig[oo],
                    oo,
                ),
        decreases rest@.len(),
    {
        let obj = rest.remove(0);
        let o = out.len();
        proof {
            assert(obj == orig[o as int]);
            assert(spec_local_object_wf(orig[o as int]));
        }
        let resolved = match resolve_object_calls(obj, o, merged, host_helpers, target_helpers) {
            Ok(x) => x,
            Err(e) => {
                proof {
                    assert(!spec_object_calls_resolvable(
                        merged@,
                        hostv,
                        targetv,
                        orig[o as int],
                        o as int,
                    ));
                }
                return Err(e);
            },
        };
        proof {
            assert(spec_object_calls_resolvable(merged@, hostv, targetv, orig[o as int], o as int));
        }
        out.push(resolved);
        proof {
            assert(rest@ =~= orig.skip(out@.len() as int));
        }
    }
    proof {
        assert forall|oo: int|
            0 <= oo < objects@.len() implies #[trigger] spec_object_calls_resolvable(
            merged@,
            entries_view(host_helpers@),
            entries_view(target_helpers@),
            objects@[oo],
            oo,
        ) by {
            assert(spec_object_calls_resolvable(merged@, hostv, targetv, orig[oo], oo));
        }
    }
    Ok(out)
}

/// Index of the first instruction whose source offset is `off`, or the code
/// length if none.
pub open spec fn spec_find_ooff(code: Seq<AnnotatedInsn>, off: int, i: int) -> int
    decreases code.len() - i,
{
    if i < 0 || i >= code.len() {
        code.len() as int
    } else if code[i].original_offset == off {
        i
    } else {
        spec_find_ooff(code, off, i + 1)
    }
}

/// The found index is in range and names the right instruction.
pub proof fn lemma_find_ooff(code: Seq<AnnotatedInsn>, off: int, i: int)
    requires
        0 <= i,
    ensures
        spec_find_ooff(code, off, i) <= code.len(),
        spec_find_ooff(code, off, i) < code.len() ==> i <= spec_find_ooff(code, off, i) && code[
            spec_find_ooff(code, off, i)
        ].original_offset == off,
    decreases code.len() - i,
{
    if 0 <= i < code.len() && code[i].original_offset != off {
        lemma_find_ooff(code, off, i + 1);
    }
}

/// Find the instruction carrying source offset `off`.
fn find_insn_at_offset(code: &Vec<AnnotatedInsn>, off: i64) -> (r: usize)
    ensures
        r == spec_find_ooff(code@, off as int, 0),
        r <= code@.len(),
        r < code@.len() ==> code@[r as int].original_offset == off,
{
    let n = code.len();
    let mut i: usize = 0;
    while i < n
        invariant
            0 <= i <= n,
            n == code@.len(),
            spec_find_ooff(code@, off as int, 0) == spec_find_ooff(code@, off as int, i as int),
        decreases n - i,
    {
        if code[i].original_offset == off {
            return i;
        }
        i = i + 1;
    }
    n
}

/// A single-word relocation's effect: `add` enters the 32-bit immediate,
/// modulo 32 bits.
pub open spec fn spec_patched_imm32(a: AnnotatedInsn, add: u64) -> AnnotatedInsn {
    AnnotatedInsn {
        insn: Insn {
            imm: i32_of_u32(((u32_of_i32(a.insn.imm) + add) % 0x1_0000_0000) as u32),
            ..a.insn
        },
        ..a
    }
}

/// The 64-bit immediate spread over an instruction pair.
pub open spec fn spec_imm64_of(lo: AnnotatedInsn, hi: AnnotatedInsn) -> int {
    u32_of_i32(lo.insn.imm) + 0x1_0000_0000 * u32_of_i32(hi.insn.imm)
}

/// The low word of a pair after a double-word relocation adds `add`.
pub open spec fn spec_patched_imm64_lo(lo: AnnotatedInsn, hi: AnnotatedInsn, add: u64) -> AnnotatedInsn {
    let new64 = (spec_imm64_of(lo, hi) + add) % 0x1_0000_0000_0000_0000;
    AnnotatedInsn {
        insn: Insn { imm: i32_of_u32((new64 % 0x1_0000_0000) as u32), ..lo.insn },
        ..lo
    }
}

/// The high word of a pair after a double-word relocation adds `add`.
pub open spec fn spec_patched_imm64_hi(lo: AnnotatedInsn, hi: AnnotatedInsn, add: u64) -> AnnotatedInsn {
    let new64 = (spec_imm64_of(lo, hi) + add) % 0x1_0000_0000_0000_0000;
    AnnotatedInsn {
        insn: Insn { imm: i32_of_u32((new64 / 0x1_0000_0000) as u32), ..hi.insn },
        ..hi
    }
}

/// Apply one data relocation to a function body. `off` is the relocation's
/// byte offset within the function and `add` the resolved symbol address
/// (its section's base plus its value).
///
/// For `R_BPF_64_32`, the instruction at `off` has `add` added to its 32-bit
/// immediate, modulo 32 bits. For `R_BPF_64_64`, the pair at `off` and
/// `off + 8` carries a 64-bit immediate; `add` enters it modulo 64 bits, and
/// the sum is split back over the pair. Anything else is refused.
#[verifier::rlimit(100)]
#[verifier::spinoff_prover]
pub fn apply_data_reloc(code: Vec<AnnotatedInsn>, off: i64, r_type: u32, add: u64) -> (r: Result<
    Vec<AnnotatedInsn>,
    LinkError,
>)
    ensures
        ({
            let i = spec_find_ooff(code@, off as int, 0);
            let j = spec_find_ooff(code@, off + 8, 0);
            &&& (r is Ok <==> (r_type == R_BPF_64_32 && i < code@.len()) || (r_type == R_BPF_64_64
                && i < code@.len() && j < code@.len() && i != j && code@[i].insn.opc == LD_DW_IMM))
            &&& (r is Ok && r_type == R_BPF_64_32 ==> r->Ok_0@ =~= code@.update(
                i,
                spec_patched_imm32(code@[i], add),
            ))
            &&& (r is Ok && r_type == R_BPF_64_64 ==> r->Ok_0@ =~= code@.update(
                i,
                spec_patched_imm64_lo(code@[i], code@[j], add),
            ).update(j, spec_patched_imm64_hi(code@[i], code@[j], add)))
            &&& (r is Err ==> r->Err_0.kind == LinkErrorKind::UnsupportedRelocType
                || r->Err_0.kind == LinkErrorKind::BadRelocSite)
        }),
{
    let i = find_insn_at_offset(&code, off);
    proof {
        lemma_find_ooff(code@, off as int, 0);
    }
    if r_type == R_BPF_64_32 {
        if i >= code.len() {
            return Err(LinkError::new(LinkErrorKind::BadRelocSite));
        }
        let a = code[i];
        let sum = (i32_to_u32(a.insn.imm) as u64).wrapping_add(add);
        let new_imm = u32_to_i32((sum % 0x1_0000_0000) as u32);
        proof {
            vstd::arithmetic::div_mod::lemma_mod_mod(
                u32_of_i32(a.insn.imm) + add,
                0x1_0000_0000,
                0x1_0000_0000,
            );
            assert((0x1_0000_0000int) * (0x1_0000_0000int) == 0x1_0000_0000_0000_0000int);
        }
        let mut out = code;
        out.set(i, AnnotatedInsn { insn: Insn { imm: new_imm, ..a.insn }, ..a });
        return Ok(out);
    }
    if r_type == R_BPF_64_64 {
        if i >= code.len() {
            return Err(LinkError::new(LinkErrorKind::BadRelocSite));
        }
        if off > i64::MAX - 8 {
            proof {
                lemma_find_ooff(code@, off + 8, 0);
                if spec_find_ooff(code@, off + 8, 0) < code@.len() {
                    assert(code@[spec_find_ooff(code@, off + 8, 0)].original_offset == off + 8);
                    assert(false);
                }
            }
            return Err(LinkError::new(LinkErrorKind::BadRelocSite));
        }
        let j = find_insn_at_offset(&code, off + 8);
        proof {
            lemma_find_ooff(code@, off + 8, 0);
        }
        if j >= code.len() {
            return Err(LinkError::new(LinkErrorKind::BadRelocSite));
        }
        if i == j {
            return Err(LinkError::new(LinkErrorKind::BadRelocSite));
        }
        let lo = code[i];
        let hi = code[j];
        if lo.insn.opc != LD_DW_IMM {
            return Err(LinkError::new(LinkErrorKind::BadRelocSite));
        }
        let imm64: u64 = i32_to_u32(lo.insn.imm) as u64 + (i32_to_u32(hi.insn.imm) as u64)
            * 0x1_0000_0000;
        let new64 = imm64.wrapping_add(add);
        let new_lo = u32_to_i32((new64 % 0x1_0000_0000) as u32);
        let new_hi = u32_to_i32((new64 / 0x1_0000_0000) as u32);
        let mut out = code;
        out.set(i, AnnotatedInsn { insn: Insn { imm: new_lo, ..lo.insn }, ..lo });
        out.set(j, AnnotatedInsn { insn: Insn { imm: new_hi, ..hi.insn }, ..hi });
        return Ok(out);
    }
    Err(LinkError::new(LinkErrorKind::UnsupportedRelocType))
}


/// The base recorded for section `sec` of object `o`, if any: the first
/// match, and with the per-link key uniqueness the only one.
pub open spec fn spec_data_base_of(bases: Seq<(usize, usize, u64)>, o: int, sec: int) -> Option<
    u64,
>
    decreases bases.len(),
{
    if bases.len() == 0 {
        None
    } else if bases[0].0 == o && bases[0].1 == sec {
        Some(bases[0].2)
    } else {
        spec_data_base_of(bases.drop_first(), o, sec)
    }
}

/// Find the recorded base of section `sec` of object `o`.
fn lookup_data_base(bases: &Vec<(usize, usize, u64)>, o: usize, sec: usize) -> (r: Option<u64>)
    ensures
        r == spec_data_base_of(bases@, o as int, sec as int),
{
    let n = bases.len();
    proof {
        assert(bases@.skip(0) =~= bases@);
    }
    let mut j: usize = 0;
    while j < n
        invariant
            0 <= j <= n,
            n == bases@.len(),
            spec_data_base_of(bases@, o as int, sec as int) == spec_data_base_of(
                bases@.skip(j as int),
                o as int,
                sec as int,
            ),
        decreases n - j,
    {
        proof {
            assert(bases@.skip(j as int)[0] == bases@[j as int]);
            assert(bases@.skip(j as int).drop_first() =~= bases@.skip(j + 1));
        }
        if bases[j].0 == o && bases[j].1 == sec {
            return Some(bases[j].2);
        }
        j = j + 1;
    }
    proof {
        assert(bases@.skip(n as int).len() == 0);
    }
    None
}

/// `b` differs from `a` at most in its immediate field.
pub open spec fn spec_imm_only_insn(a: AnnotatedInsn, b: AnnotatedInsn) -> bool {
    b == (AnnotatedInsn { insn: Insn { imm: b.insn.imm, ..a.insn }, ..a })
}

/// `post` differs from `pre` at most in its instructions' immediates.
pub open spec fn spec_imm_only_function(pre: Function, post: Function) -> bool {
    &&& post.name@ == pre.name@
    &&& post.section_index == pre.section_index
    &&& post.offset == pre.offset
    &&& post.end_offset == pre.end_offset
    &&& post.global == pre.global
    &&& post.stack_usage == pre.stack_usage
    &&& post.global_linked_offset == pre.global_linked_offset
    &&& post.code@.len() == pre.code@.len()
    &&& forall|i: int|
        0 <= i < pre.code@.len() ==> spec_imm_only_insn(pre.code@[i], #[trigger] post.code@[i])
}

/// How one object changes under data-relocation application.
pub open spec fn spec_generic_object(pre: LocalObject, post: LocalObject) -> bool {
    &&& post.name == pre.name
    &&& post.elf == pre.elf
    &&& post.raw == pre.raw
    &&& post.reloc == pre.reloc
    &&& post.functions@.len() == pre.functions@.len()
    &&& forall|f: int|
        0 <= f < pre.functions@.len() ==> spec_imm_only_function(
            pre.functions@[f],
            #[trigger] post.functions@[f],
        )
}

/// What applying relocation record `e` needs: a supported type, a local
/// symbol with a recorded data base, and an instruction site of the right
/// shape inside the named function.
pub open spec fn spec_reloc_applicable(
    elf: crate::elf::ElfFile,
    bases: Seq<(usize, usize, u64)>,
    o: int,
    e: (usize, usize, Reloc),
    funcs: Seq<Function>,
) -> bool {
    &&& (e.0 as int) < funcs.len()
    &&& (e.2.r_type == R_BPF_64_32 || e.2.r_type == R_BPF_64_64)
    &&& (e.2.r_sym as int) < elf.syms@.len()
    &&& elf.syms@[e.2.r_sym as int].spec_bind() == STB_LOCAL
    &&& spec_data_base_of(bases, o, elf.syms@[e.2.r_sym as int].st_shndx as int) is Some
    &&& e.1 <= i64::MAX
    &&& {
        let code = funcs[e.0 as int].code@;
        let i = spec_find_ooff(code, e.1 as int, 0);
        let j = spec_find_ooff(code, e.1 as int + 8, 0);
        if e.2.r_type == R_BPF_64_32 {
            i < code.len()
        } else {
            i < code.len() && j < code.len() && i != j && code[i].insn.opc == LD_DW_IMM
        }
    }
}

/// Every relocation record of the object applies.
pub open spec fn spec_object_relocs_applicable(
    obj: LocalObject,
    bases: Seq<(usize, usize, u64)>,
    o: int,
) -> bool {
    forall|j: int|
        0 <= j < obj.reloc@.len() ==> spec_reloc_applicable(
            obj.elf,
            bases,
            o,
            #[trigger] obj.reloc@[j],
            obj.functions@,
        )
}

/// The exact effect of one relocation record: the addend is the symbol's
/// section base plus its value, entering the immediate the record's type
/// names; every other function and instruction is untouched.
pub open spec fn spec_one_reloc_applied(
    elf: crate::elf::ElfFile,
    bases: Seq<(usize, usize, u64)>,
    o: int,
    e: (usize, usize, Reloc),
    pre: Seq<Function>,
    post: Seq<Function>,
) -> bool {
    &&& spec_reloc_applicable(elf, bases, o, e, pre)
    &&& post.len() == pre.len()
    &&& forall|g: int| 0 <= g < pre.len() && g != e.0 ==> post[g] == #[trigger] pre[g]
    &&& spec_imm_only_function(pre[e.0 as int], post[e.0 as int])
    &&& {
        let sym = elf.syms@[e.2.r_sym as int];
        let base = spec_data_base_of(bases, o, sym.st_shndx as int)->0;
        let add = ((base + sym.st_value) % 0x1_0000_0000_0000_0000) as u64;
        let oldc = pre[e.0 as int].code@;
        let i = spec_find_ooff(oldc, e.1 as int, 0);
        let j = spec_find_ooff(oldc, e.1 as int + 8, 0);
        if e.2.r_type == R_BPF_64_32 {
            post[e.0 as int].code@ == oldc.update(i, spec_patched_imm32(oldc[i], add))
        } else {
            post[e.0 as int].code@ == oldc.update(
                i,
                spec_patched_imm64_lo(oldc[i], oldc[j], add),
            ).update(j, spec_patched_imm64_hi(oldc[i], oldc[j], add))
        }
    }
}

/// `states` witnesses the record-by-record application of `relocs`.
pub open spec fn spec_relocs_chain(
    elf: crate::elf::ElfFile,
    bases: Seq<(usize, usize, u64)>,
    o: int,
    relocs: Seq<(usize, usize, Reloc)>,
    states: Seq<Seq<Function>>,
) -> bool {
    &&& states.len() == relocs.len() + 1
    &&& forall|j: int|
        0 <= j < relocs.len() ==> spec_one_reloc_applied(
            elf,
            bases,
            o,
            #[trigger] relocs[j],
            states[j],
            states[j + 1],
        )
}

/// `post` is `pre` with every record of `relocs` applied in order.
pub open spec fn spec_relocs_applied(
    elf: crate::elf::ElfFile,
    bases: Seq<(usize, usize, u64)>,
    o: int,
    relocs: Seq<(usize, usize, Reloc)>,
    pre: Seq<Function>,
    post: Seq<Function>,
) -> bool {
    exists|states: Seq<Seq<Function>>|
        {
            &&& #[trigger] spec_relocs_chain(elf, bases, o, relocs, states)
            &&& states[0] == pre
            &&& states[states.len() - 1] == post
        }
}

/// Every function is an imm-only change of itself.
pub proof fn lemma_imm_only_refl(f: Function)
    ensures
        spec_imm_only_function(f, f),
{
    assert forall|i: int| 0 <= i < f.code@.len() implies spec_imm_only_insn(
        f.code@[i],
        #[trigger] f.code@[i],
    ) by {
    }
}

/// Imm-only changes compose.
pub proof fn lemma_imm_only_trans(a: Function, b: Function, c: Function)
    requires
        spec_imm_only_function(a, b),
        spec_imm_only_function(b, c),
    ensures
        spec_imm_only_function(a, c),
{
    assert forall|i: int| 0 <= i < a.code@.len() implies spec_imm_only_insn(
        a.code@[i],
        #[trigger] c.code@[i],
    ) by {
        assert(spec_imm_only_insn(a.code@[i], b.code@[i]));
        assert(spec_imm_only_insn(b.code@[i], c.code@[i]));
    }
}

/// An imm-only change moves no instruction: the site search sees the same
/// source offsets.
pub proof fn lemma_find_ooff_imm_only(a: Seq<AnnotatedInsn>, b: Seq<AnnotatedInsn>, off: int, i: int)
    requires
        a.len() == b.len(),
        forall|ii: int| 0 <= ii < a.len() ==> spec_imm_only_insn(a[ii], #[trigger] b[ii]),
    ensures
        spec_find_ooff(a, off, i) == spec_find_ooff(b, off, i),
    decreases a.len() - i,
{
    if 0 <= i < a.len() {
        assert(spec_imm_only_insn(a[i], b[i]));
        if a[i].original_offset != off {
            lemma_find_ooff_imm_only(a, b, off, i + 1);
        }
    }
}

/// Whether a record applies does not change as immediates change: the sites,
/// opcodes, symbols and bases it reads are all untouched.
pub proof fn lemma_applicable_imm_only(
    elf: crate::elf::ElfFile,
    bases: Seq<(usize, usize, u64)>,
    o: int,
    e: (usize, usize, Reloc),
    f1: Seq<Function>,
    f2: Seq<Function>,
)
    requires
        f1.len() == f2.len(),
        forall|f: int| 0 <= f < f1.len() ==> spec_imm_only_function(f1[f], #[trigger] f2[f]),
    ensures
        spec_reloc_applicable(elf, bases, o, e, f1) == spec_reloc_applicable(elf, bases, o, e, f2),
{
    if (e.0 as int) < f1.len() {
        assert(spec_imm_only_function(f1[e.0 as int], f2[e.0 as int]));
        let c1 = f1[e.0 as int].code@;
        let c2 = f2[e.0 as int].code@;
        assert(c1.len() == c2.len());
        lemma_find_ooff_imm_only(c1, c2, e.1 as int, 0);
        lemma_find_ooff_imm_only(c1, c2, e.1 as int + 8, 0);
        assert(spec_find_ooff(c1, e.1 as int, 0) == spec_find_ooff(c2, e.1 as int, 0));
        assert(spec_find_ooff(c1, e.1 as int + 8, 0) == spec_find_ooff(c2, e.1 as int + 8, 0));
        let i = spec_find_ooff(c1, e.1 as int, 0);
        if 0 <= i < c1.len() {
            assert(spec_imm_only_insn(c1[i], c2[i]));
            assert(c2[i].insn.opc == c1[i].insn.opc);
        }
    }
    if spec_reloc_applicable(elf, bases, o, e, f1) {
        assert((e.0 as int) < f2.len());
        assert(e.2.r_type == R_BPF_64_32 || e.2.r_type == R_BPF_64_64);
        assert((e.2.r_sym as int) < elf.syms@.len());
        assert(elf.syms@[e.2.r_sym as int].spec_bind() == STB_LOCAL);
        assert(spec_data_base_of(bases, o, elf.syms@[e.2.r_sym as int].st_shndx as int) is Some);
        assert(e.1 <= i64::MAX);
        let c1x = f1[e.0 as int].code@;
        let c2x = f2[e.0 as int].code@;
        assert(spec_find_ooff(c2x, e.1 as int, 0) == spec_find_ooff(c1x, e.1 as int, 0));
        assert(spec_find_ooff(c2x, e.1 as int + 8, 0) == spec_find_ooff(c1x, e.1 as int + 8, 0));
        assert(c2x.len() == c1x.len());
        let ix = spec_find_ooff(c1x, e.1 as int, 0);
        lemma_find_ooff(c1x, e.1 as int, 0);
        if e.2.r_type == R_BPF_64_32 {
            assert(ix < c2x.len());
        } else {
            assert(0 <= ix < c1x.len());
            assert(c2x[ix].insn.opc == c1x[ix].insn.opc);
        }
        assert(spec_reloc_applicable(elf, bases, o, e, f2));
    }
    if spec_reloc_applicable(elf, bases, o, e, f2) {
        assert((e.0 as int) < f1.len());
        let c1x = f1[e.0 as int].code@;
        let c2x = f2[e.0 as int].code@;
        assert(spec_find_ooff(c2x, e.1 as int, 0) == spec_find_ooff(c1x, e.1 as int, 0));
        assert(spec_find_ooff(c2x, e.1 as int + 8, 0) == spec_find_ooff(c1x, e.1 as int + 8, 0));
        assert(c2x.len() == c1x.len());
        let ix = spec_find_ooff(c1x, e.1 as int, 0);
        lemma_find_ooff(c1x, e.1 as int, 0);
        if e.2.r_type != R_BPF_64_32 {
            assert(0 <= ix < c1x.len());
            assert(c2x[ix].insn.opc == c1x[ix].insn.opc);
        }
        assert(spec_reloc_applicable(elf, bases, o, e, f1));
    }
}

/// A relocation's update touches only immediates.
#[verifier::spinoff_prover]
pub proof fn lemma_applied_imm_only(
    oldc: Seq<AnnotatedInsn>,
    newc: Seq<AnnotatedInsn>,
    off: int,
    r_type: u32,
    add: u64,
)
    requires
        r_type == R_BPF_64_32 || r_type == R_BPF_64_64,
        r_type == R_BPF_64_32 ==> ({
            let i = spec_find_ooff(oldc, off, 0);
            0 <= i < oldc.len() && newc == oldc.update(i, spec_patched_imm32(oldc[i], add))
        }),
        r_type == R_BPF_64_64 ==> ({
            let i = spec_find_ooff(oldc, off, 0);
            let j = spec_find_ooff(oldc, off + 8, 0);
            0 <= i < oldc.len() && 0 <= j < oldc.len() && i != j && newc == oldc.update(
                i,
                spec_patched_imm64_lo(oldc[i], oldc[j], add),
            ).update(j, spec_patched_imm64_hi(oldc[i], oldc[j], add))
        }),
    ensures
        newc.len() == oldc.len(),
        forall|i: int| 0 <= i < oldc.len() ==> spec_imm_only_insn(oldc[i], #[trigger] newc[i]),
{
    assert forall|i: int| 0 <= i < oldc.len() implies spec_imm_only_insn(
        oldc[i],
        #[trigger] newc[i],
    ) by {
        if r_type == R_BPF_64_32 {
            let ix = spec_find_ooff(oldc, off, 0);
            if i == ix {
                assert(newc[i] == spec_patched_imm32(oldc[i], add));
            } else {
                assert(newc[i] == oldc[i]);
            }
        } else {
            let i1 = spec_find_ooff(oldc, off, 0);
            let i2 = spec_find_ooff(oldc, off + 8, 0);
            if i == i2 {
                assert(newc[i] == spec_patched_imm64_hi(oldc[i1], oldc[i2], add));
            } else if i == i1 {
                assert(newc[i] == spec_patched_imm64_lo(oldc[i1], oldc[i2], add));
            } else {
                assert(newc[i] == oldc[i]);
            }
        }
    }
}

/// Apply one relocation record to the functions of object `o`.
#[verifier::rlimit(100)]
#[verifier::spinoff_prover]
fn apply_object_reloc(
    funcs: Vec<Function>,
    elf: &crate::elf::ElfFile,
    o: usize,
    fi: usize,
    off_in_fn: usize,
    rel: Reloc,
    data_bases: &Vec<(usize, usize, u64)>,
) -> (r: Result<Vec<Function>, LinkError>)
    ensures
        r is Ok <==> spec_reloc_applicable(*elf, data_bases@, o as int, (fi, off_in_fn, rel), funcs@),
        r is Ok ==> spec_one_reloc_applied(
            *elf,
            data_bases@,
            o as int,
            (fi, off_in_fn, rel),
            funcs@,
            r->Ok_0@,
        ),
{
    let ghost e = (fi, off_in_fn, rel);
    if fi >= funcs.len() {
        return Err(LinkError::new(LinkErrorKind::BadRelocSite));
    }
    if rel.r_type != R_BPF_64_64 && rel.r_type != R_BPF_64_32 {
        return Err(LinkError::new(LinkErrorKind::UnsupportedRelocType));
    }
    if !((rel.r_sym as usize) < elf.syms.len()) {
        return Err(LinkError::new(LinkErrorKind::BadSymbolIndex));
    }
    let sym = elf.syms[rel.r_sym as usize];
    if sym.bind() != STB_LOCAL {
        return Err(LinkError::new(LinkErrorKind::NonLocalDataReloc));
    }
    let base = match lookup_data_base(data_bases, o, sym.st_shndx as usize) {
        Some(b) => b,
        None => {
            return Err(LinkError::new(LinkErrorKind::MissingDataSection));
        },
    };
    let add = base.wrapping_add(sym.st_value);
    if off_in_fn as u64 > i64::MAX as u64 {
        return Err(LinkError::new(LinkErrorKind::BadRelocSite));
    }
    let ghost pre_funcs = funcs@;
    let mut funcs = funcs;
    let old_f = funcs.remove(fi);
    proof {
        assert(old_f == pre_funcs[fi as int]);
    }
    let ghost oldc = old_f.code@;
    let new_code = match apply_data_reloc(old_f.code, off_in_fn as i64, rel.r_type, add) {
        Ok(c) => c,
        Err(e2) => {
            proof {
                assert((off_in_fn as i64) as int == off_in_fn as int);
                assert((off_in_fn as i64) as int + 8 == off_in_fn as int + 8);
                assert(!spec_reloc_applicable(*elf, data_bases@, o as int, e, pre_funcs));
            }
            return Err(e2);
        },
    };
    let ghost g_new_code = new_code@;
    let nf = Function { code: new_code, ..old_f };
    funcs.insert(fi, nf);
    proof {
        assert(funcs@ =~= pre_funcs.update(fi as int, nf));
        assert(pre_funcs[fi as int].code@ == oldc);
        assert((off_in_fn as i64) as int == off_in_fn as int);
        assert((off_in_fn as i64) as int + 8 == off_in_fn as int + 8);
        if rel.r_type == R_BPF_64_32 {
            let ix0 = spec_find_ooff(oldc, off_in_fn as int, 0);
            lemma_find_ooff(oldc, off_in_fn as int, 0);
            assert(0 <= ix0 < oldc.len());
            assert(g_new_code =~= oldc.update(ix0, spec_patched_imm32(oldc[ix0], add)));
        } else {
            let ia = spec_find_ooff(oldc, off_in_fn as int, 0);
            let ib = spec_find_ooff(oldc, off_in_fn as int + 8, 0);
            lemma_find_ooff(oldc, off_in_fn as int, 0);
            lemma_find_ooff(oldc, off_in_fn as int + 8, 0);
            assert(0 <= ia < oldc.len() && 0 <= ib < oldc.len() && ia != ib);
            assert(g_new_code =~= oldc.update(
                ia,
                spec_patched_imm64_lo(oldc[ia], oldc[ib], add),
            ).update(ib, spec_patched_imm64_hi(oldc[ia], oldc[ib], add)));
        }
        lemma_applied_imm_only(oldc, g_new_code, off_in_fn as int, rel.r_type, add);
        assert(spec_imm_only_function(pre_funcs[fi as int], funcs@[fi as int]));
        assert(spec_reloc_applicable(*elf, data_bases@, o as int, e, pre_funcs));
        assert(add as int == (spec_data_base_of(data_bases@, o as int, sym.st_shndx as int)->0
            + sym.st_value) % 0x1_0000_0000_0000_0000);
        assert(spec_one_reloc_applied(*elf, data_bases@, o as int, e, pre_funcs, funcs@));
    }
    Ok(funcs)
}

/// Apply every remaining relocation of one object: add the resolved symbol
/// address into the immediate its type names, record by record.
fn resolve_object_relocs(
    obj: LocalObject,
    o: usize,
    data_bases: &Vec<(usize, usize, u64)>,
) -> (r: Result<LocalObject, LinkError>)
    ensures
        r is Ok <==> spec_object_relocs_applicable(obj, data_bases@, o as int),
        r is Ok ==> spec_generic_object(obj, r->Ok_0),
        r is Ok ==> spec_relocs_applied(
            obj.elf,
            data_bases@,
            o as int,
            obj.reloc@,
            obj.functions@,
            r->Ok_0.functions@,
        ),
{
    let LocalObject { name, elf, raw, functions, reloc } = obj;
    let ghost orig_funcs = functions@;
    let mut funcs = functions;
    let ghost mut states: Seq<Seq<Function>> = seq![orig_funcs];
    proof {
        assert forall|f: int| 0 <= f < orig_funcs.len() implies spec_imm_only_function(
            orig_funcs[f],
            #[trigger] funcs@[f],
        ) by {
            lemma_imm_only_refl(orig_funcs[f]);
        }
    }
    let nr = reloc.len();
    let mut j: usize = 0;
    while j < nr
        invariant
            0 <= j <= nr,
            nr == reloc@.len(),
            obj.elf == elf,
            obj.reloc@ == reloc@,
            obj.functions@ == orig_funcs,
            funcs@.len() == orig_funcs.len(),
            states.len() == j + 1,
            states[0] == orig_funcs,
            states[j as int] == funcs@,
            forall|jj: int|
                0 <= jj < j ==> spec_one_reloc_applied(
                    elf,
                    data_bases@,
                    o as int,
                    #[trigger] reloc@[jj],
                    states[jj],
                    states[jj + 1],
                ),
            forall|jj: int|
                0 <= jj < j ==> spec_reloc_applicable(
                    elf,
                    data_bases@,
                    o as int,
                    #[trigger] reloc@[jj],
                    orig_funcs,
                ),
            forall|f: int|
                0 <= f < orig_funcs.len() ==> spec_imm_only_function(
                    orig_funcs[f],
                    #[trigger] funcs@[f],
                ),
        decreases nr - j,
    {
        let (fi, off_in_fn, rel) = reloc[j];
        let ghost mid_funcs = funcs@;
        funcs = match apply_object_reloc(funcs, &elf, o, fi, off_in_fn, rel, data_bases) {
            Ok(x) => x,
            Err(e) => {
                proof {
                    lemma_applicable_imm_only(
                        elf,
                        data_bases@,
                        o as int,
                        (fi, off_in_fn, rel),
                        orig_funcs,
                        mid_funcs,
                    );
                    assert(!spec_reloc_applicable(
                        elf,
                        data_bases@,
                        o as int,
                        obj.reloc@[j as int],
                        obj.functions@,
                    ));
                    assert(!spec_object_relocs_applicable(obj, data_bases@, o as int));
                }
                return Err(e);
            },
        };
        proof {
            states = states.push(funcs@);
            lemma_applicable_imm_only(
                elf,
                data_bases@,
                o as int,
                (fi, off_in_fn, rel),
                orig_funcs,
                mid_funcs,
            );
            assert(spec_reloc_applicable(
                elf,
                data_bases@,
                o as int,
                reloc@[j as int],
                orig_funcs,
            ));
            assert forall|f: int| 0 <= f < orig_funcs.len() implies spec_imm_only_function(
                orig_funcs[f],
                #[trigger] funcs@[f],
            ) by {
                assert(spec_imm_only_function(orig_funcs[f], mid_funcs[f]));
                assert(spec_imm_only_function(mid_funcs[f], funcs@[f]));
                lemma_imm_only_trans(orig_funcs[f], mid_funcs[f], funcs@[f]);
            }
        }
        j = j + 1;
    }
    proof {
        assert(spec_relocs_chain(elf, data_bases@, o as int, reloc@, states));
    }
    Ok(LocalObject { name, elf, raw, functions: funcs, reloc })
}

/// Apply every remaining (non-call) relocation of every object. Succeeds
/// exactly when every record names a local symbol of a placed data section
/// and lands on an instruction of the shape its type requires.
pub fn resolve_generic_relocs(
    objects: Vec<LocalObject>,
    data_bases: &Vec<(usize, usize, u64)>,
) -> (r: Result<Vec<LocalObject>, LinkError>)
    ensures
        r is Ok <==> (forall|o: int|
            0 <= o < objects@.len() ==> #[trigger] spec_object_relocs_applicable(
                objects@[o],
                data_bases@,
                o,
            )),
        r is Ok ==> {
            let out = r->Ok_0;
            &&& out@.len() == objects@.len()
            &&& forall|o: int|
                0 <= o < objects@.len() ==> spec_generic_object(objects@[o], #[trigger] out@[o])
            &&& forall|o: int|
                0 <= o < objects@.len() ==> spec_relocs_applied(
                    objects@[o].elf,
                    data_bases@,
                    o,
                    objects@[o].reloc@,
                    objects@[o].functions@,
                    (#[trigger] out@[o]).functions@,
                )
        },
{
    let ghost orig = objects@;
    let mut rest = objects;
    let mut out: Vec<LocalObject> = Vec::new();
    proof {
        assert(rest@ =~= orig.skip(0));
    }
    while rest.len() > 0
        invariant
            out@.len() + rest@.len() == orig.len(),
            orig == objects@,
            rest@ =~= orig.skip(out@.len() as int),
            forall|o: int|
                0 <= o < out@.len() ==> spec_generic_object(orig[o], #[trigger] out@[o]),
            forall|o: int|
                0 <= o < out@.len() ==> #[trigger] spec_object_relocs_applicable(
                    orig[o],
                    data_bases@,
                    o,
                ),
            forall|o: int|
                0 <= o < out@.len() ==> spec_relocs_applied(
                    orig[o].elf,
                    data_bases@,
                    o,
                    orig[o].reloc@,
                    orig[o].functions@,
                    (#[trigger] out@[o]).functions@,
                ),
        decreases rest@.len(),
    {
        let obj = rest.remove(0);
        let o = out.len();
        proof {
            assert(obj == orig[o as int]);
        }
        let resolved = match resolve_object_relocs(obj, o, data_bases) {
            Ok(x) => x,
            Err(e) => {
                proof {
                    assert(!spec_object_relocs_applicable(orig[o as int], data_bases@, o as int));
                }
                return Err(e);
            },
        };
        proof {
            assert(spec_object_relocs_applicable(orig[o as int], data_bases@, o as int));
        }
        out.push(resolved);
        proof {
            assert(rest@ =~= orig.skip(out@.len() as int));
        }
    }
    Ok(out)
}


/// Function `k1` of the merged table calls function `k2`: one of its
/// instructions carries `merged[k2]`'s pair as call target. `ii` names the
/// instruction.
pub open spec fn spec_call_at(
    objects: Seq<LocalObject>,
    merged: Seq<(Vec<u8>, (usize, usize))>,
    k1: int,
    k2: int,
    ii: int,
) -> bool {
    &&& 0 <= k1 < merged.len()
    &&& 0 <= k2 < merged.len()
    &&& (merged[k1].1.0 as int) < objects.len()
    &&& (merged[k1].1.1 as int) < objects[merged[k1].1.0 as int].functions@.len()
    &&& {
        let code = objects[merged[k1].1.0 as int].functions@[merged[k1].1.1 as int].code@;
        &&& 0 <= ii < code.len()
        &&& code[ii].call_target_function == Some(merged[k2].1)
    }
}

/// There is a call edge from merged function `k1` to `k2`.
pub open spec fn spec_calls(
    objects: Seq<LocalObject>,
    merged: Seq<(Vec<u8>, (usize, usize))>,
    k1: int,
    k2: int,
) -> bool {
    exists|ii: int| spec_call_at(objects, merged, k1, k2, ii)
}

/// Merged function `k` is named as a dead-code-elimination root.
pub open spec fn spec_is_root(
    merged: Seq<(Vec<u8>, (usize, usize))>,
    roots: Seq<Vec<u8>>,
    k: int,
) -> bool {
    exists|ri: int| 0 <= ri < roots.len() && (#[trigger] roots[ri])@ == merged[k].0@
}

/// `path` walks the call edges from a root to merged function `k`.
pub open spec fn spec_call_path(
    objects: Seq<LocalObject>,
    merged: Seq<(Vec<u8>, (usize, usize))>,
    roots: Seq<Vec<u8>>,
    path: Seq<int>,
    k: int,
) -> bool {
    &&& path.len() > 0
    &&& path.last() == k
    &&& forall|t: int| 0 <= t < path.len() ==> 0 <= #[trigger] path[t] < merged.len()
    &&& spec_is_root(merged, roots, path[0])
    &&& forall|t: int|
        0 < t < path.len() ==> spec_calls(objects, merged, path[t - 1], #[trigger] path[t])
}

/// Merged function `k` lies on a call path from some root.
pub open spec fn spec_call_reachable(
    objects: Seq<LocalObject>,
    merged: Seq<(Vec<u8>, (usize, usize))>,
    roots: Seq<Vec<u8>>,
    k: int,
) -> bool {
    exists|path: Seq<int>| spec_call_path(objects, merged, roots, path, k)
}

/// A node index is listed.
pub open spec fn spec_has_u32(s: Seq<u32>, v: int) -> bool {
    exists|ri: int| 0 <= ri < s.len() && (#[trigger] s[ri]) == v
}

/// On an edge list mirroring the call edges and a root list mirroring the
/// root names, graph reachability is call reachability.
pub proof fn lemma_reach_equiv(
    objects: Seq<LocalObject>,
    merged: Seq<(Vec<u8>, (usize, usize))>,
    roots: Seq<Vec<u8>>,
    edges: Seq<(u32, u32)>,
    ridx: Seq<u32>,
    k: int,
)
    requires
        forall|a: int, b: int|
            #[trigger] spec_has_edge(edges, a, b) <==> (0 <= a < merged.len() && 0 <= b
                < merged.len() && spec_calls(objects, merged, a, b)),
        forall|v: int|
            #[trigger] spec_has_u32(ridx, v) <==> (0 <= v < merged.len() && spec_is_root(
                merged,
                roots,
                v,
            )),
    ensures
        spec_reachable(edges, ridx, k) <==> spec_call_reachable(objects, merged, roots, k),
{
    if spec_reachable(edges, ridx, k) {
        let path = choose|path: Seq<int>| spec_path_connects(edges, ridx, path, k);
        assert(spec_has_u32(ridx, path[0])) by {
            let r = choose|r: int| 0 <= r < ridx.len() && (#[trigger] ridx[r]) == path[0];
            assert(0 <= r < ridx.len() && ridx[r] == path[0]);
        }
        assert forall|t: int| 0 <= t < path.len() implies 0 <= #[trigger] path[t]
            < merged.len() by {
            if t > 0 {
                assert(spec_has_edge(edges, path[t - 1], path[t]));
            }
        }
        assert(spec_call_path(objects, merged, roots, path, k));
    }
    if spec_call_reachable(objects, merged, roots, k) {
        let path = choose|path: Seq<int>| spec_call_path(objects, merged, roots, path, k);
        assert(exists|r: int| 0 <= r < ridx.len() && (#[trigger] ridx[r]) == path[0]) by {
            assert(spec_has_u32(ridx, path[0]));
        }
        assert forall|t: int| 0 < t < path.len() implies spec_has_edge(
            edges,
            path[t - 1],
            #[trigger] path[t],
        ) by {
            assert(spec_calls(objects, merged, path[t - 1], path[t]));
        }
        assert(spec_path_connects(edges, ridx, path, k));
    }
}

/// Index of the merged entry carrying pair `t`.
fn find_merged_index(merged: &Vec<(Vec<u8>, (usize, usize))>, t: (usize, usize)) -> (r: Option<
    usize,
>)
    ensures
        r is Some ==> 0 <= r->0 < merged@.len() && merged@[r->0 as int].1 == t,
        r is None ==> !spec_merged_has_pair(merged@, t.0 as int, t.1 as int),
{
    let n = merged.len();
    let mut k: usize = 0;
    while k < n
        invariant
            0 <= k <= n,
            n == merged@.len(),
            forall|kk: int| 0 <= kk < k ==> (#[trigger] merged@[kk]).1 != t,
        decreases n - k,
    {
        if merged[k].1.0 == t.0 && merged[k].1.1 == t.1 {
            proof {
                assert(merged@[k as int].1 == t);
            }
            return Some(k);
        }
        k = k + 1;
    }
    None
}

/// Whether `name` occurs in a name list.
fn contains_name(names: &Vec<Vec<u8>>, name: &Vec<u8>) -> (r: bool)
    ensures
        r == exists|ri: int| 0 <= ri < names@.len() && (#[trigger] names@[ri])@ == name@,
{
    let n = names.len();
    let mut ri: usize = 0;
    while ri < n
        invariant
            0 <= ri <= n,
            n == names@.len(),
            forall|rr: int| 0 <= rr < ri ==> (#[trigger] names@[rr])@ != name@,
        decreases n - ri,
    {
        if bytes_eq(&names[ri], name) {
            return true;
        }
        ri = ri + 1;
    }
    false
}

/// Some entry of `out` equals `e`.
pub open spec fn spec_merged_contains(
    out: Seq<(Vec<u8>, (usize, usize))>,
    e: (Vec<u8>, (usize, usize)),
) -> bool {
    exists|k2: int| 0 <= k2 < out.len() && #[trigger] out[k2] == e
}

/// `e` is an entry of `orig` whose merged function is call-reachable from a
/// root.
pub open spec fn spec_entry_reachable(
    objects: Seq<LocalObject>,
    orig: Seq<(Vec<u8>, (usize, usize))>,
    roots: Seq<Vec<u8>>,
    e: (Vec<u8>, (usize, usize)),
) -> bool {
    exists|k: int|
        0 <= k < orig.len() && #[trigger] orig[k] == e && spec_call_reachable(
            objects,
            orig,
            roots,
            k,
        )
}

/// Drop every merged function not call-reachable from a configured root,
/// keeping the survivors' relative order.
pub fn global_dce(
    objects: &Vec<LocalObject>,
    merged: Vec<(Vec<u8>, (usize, usize))>,
    roots: &Vec<Vec<u8>>,
) -> (r: Result<Vec<(Vec<u8>, (usize, usize))>, LinkError>)
    requires
        forall|k: int|
            0 <= k < merged@.len() ==> spec_merged_entry_ok(objects@, #[trigger] merged@[k]),
        forall|k1: int, k2: int|
            0 <= k1 < k2 < merged@.len() ==> ((#[trigger] merged@[k1]).1.0 < (
            #[trigger] merged@[k2]).1.0 || (merged@[k1].1.0 == merged@[k2].1.0 && merged@[k1].1.1
                < merged@[k2].1.1)),
        forall|o: int, f: int, i: int|
            0 <= o < objects@.len() && 0 <= f < objects@[o].functions@.len() && 0 <= i
                < objects@[o].functions@[f].code@.len() && (
            #[trigger] objects@[o].functions@[f].code@[i]).call_target_function is Some
                ==> ({
                let t = objects@[o].functions@[f].code@[i].call_target_function->0;
                spec_merged_has_pair(merged@, t.0 as int, t.1 as int)
            }),
    ensures
        r is Ok ==> {
            let out = r->Ok_0;
            &&& forall|k2: int|
                0 <= k2 < out@.len() ==> spec_entry_reachable(
                    objects@,
                    merged@,
                    roots@,
                    #[trigger] out@[k2],
                )
            &&& forall|k: int|
                0 <= k < merged@.len() && spec_call_reachable(objects@, merged@, roots@, k)
                    ==> spec_merged_contains(out@, #[trigger] merged@[k])
            &&& forall|k2: int|
                0 <= k2 < out@.len() ==> spec_merged_contains(merged@, #[trigger] out@[k2])
            &&& forall|k1: int, k2: int|
                0 <= k1 < k2 < out@.len() ==> (#[trigger] out@[k1]).1 != (#[trigger] out@[k2]).1
            &&& forall|k1: int, k2: int|
                0 <= k1 < k2 < out@.len() ==> ((#[trigger] out@[k1]).1.0 < (
                #[trigger] out@[k2]).1.0 || (out@[k1].1.0 == out@[k2].1.0 && out@[k1].1.1
                    < out@[k2].1.1))
        },
        r is Err <==> merged@.len() > u32::MAX,
        r is Err ==> r->Err_0.kind == LinkErrorKind::TooManyFunctions,
{
    let n = merged.len();
    if n as u64 > u32::MAX as u64 {
        return Err(LinkError::new(LinkErrorKind::TooManyFunctions));
    }
    // Build the call-edge list.
    let mut edges: Vec<(u32, u32)> = Vec::new();
    let mut k: usize = 0;
    while k < n
        invariant
            0 <= k <= n,
            n == merged@.len(),
            n <= u32::MAX,
            forall|kk: int|
                0 <= kk < merged@.len() ==> spec_merged_entry_ok(objects@, #[trigger] merged@[kk]),
            forall|ka: int, kb: int|
                0 <= ka < kb < merged@.len() ==> (#[trigger] merged@[ka]).1 != (
                #[trigger] merged@[kb]).1,
            forall|o: int, f: int, i: int|
                0 <= o < objects@.len() && 0 <= f < objects@[o].functions@.len() && 0 <= i
                    < objects@[o].functions@[f].code@.len() && (
                #[trigger] objects@[o].functions@[f].code@[i]).call_target_function is Some
                    ==> ({
                    let t = objects@[o].functions@[f].code@[i].call_target_function->0;
                    spec_merged_has_pair(merged@, t.0 as int, t.1 as int)
                }),
            forall|j: int|
                0 <= j < edges@.len() ==> 0 <= (#[trigger] edges@[j]).0 < merged@.len() && 0
                    <= edges@[j].1 < merged@.len() && spec_calls(
                    objects@,
                    merged@,
                    edges@[j].0 as int,
                    edges@[j].1 as int,
                ),
            forall|a: int, b: int, ii: int|
                0 <= a < k && #[trigger] spec_call_at(objects@, merged@, a, b, ii)
                    ==> spec_has_edge(edges@, a, b),
        decreases n - k,
    {
        let (o, f) = merged[k].1;
        let n_insns = objects[o].functions[f].code.len();
        let mut i: usize = 0;
        while i < n_insns
            invariant
                0 <= i <= n_insns,
                0 <= k < n,
                n == merged@.len(),
                n <= u32::MAX,
                o == merged@[k as int].1.0,
                f == merged@[k as int].1.1,
                (o as int) < objects@.len(),
                (f as int) < objects@[o as int].functions@.len(),
                n_insns == objects@[o as int].functions@[f as int].code@.len(),
                forall|kk: int|
                    0 <= kk < merged@.len() ==> spec_merged_entry_ok(
                        objects@,
                        #[trigger] merged@[kk],
                    ),
                forall|ka: int, kb: int|
                    0 <= ka < kb < merged@.len() ==> (#[trigger] merged@[ka]).1 != (
                    #[trigger] merged@[kb]).1,
                forall|oo: int, ff: int, iii: int|
                    0 <= oo < objects@.len() && 0 <= ff < objects@[oo].functions@.len() && 0 <= iii
                        < objects@[oo].functions@[ff].code@.len() && (
                    #[trigger] objects@[oo].functions@[ff].code@[iii]).call_target_function is Some
                        ==> ({
                        let t = objects@[oo].functions@[ff].code@[iii].call_target_function->0;
                        spec_merged_has_pair(merged@, t.0 as int, t.1 as int)
                    }),
                forall|j: int|
                    0 <= j < edges@.len() ==> 0 <= (#[trigger] edges@[j]).0 < merged@.len() && 0
                        <= edges@[j].1 < merged@.len() && spec_calls(
                        objects@,
                        merged@,
                        edges@[j].0 as int,
                        edges@[j].1 as int,
                    ),
                forall|a: int, b: int, ii: int|
                    0 <= a < k && #[trigger] spec_call_at(objects@, merged@, a, b, ii)
                        ==> spec_has_edge(edges@, a, b),
                forall|b: int, ii: int|
                    0 <= ii < i && #[trigger] spec_call_at(objects@, merged@, k as int, b, ii)
                        ==> spec_has_edge(edges@, k as int, b),
            decreases n_insns - i,
        {
            let a = objects[o].functions[f].code[i];
            let ghost pre_edges = edges@;
            if let Some(t) = a.call_target_function {
                match find_merged_index(&merged, t) {
                    Some(k2) => {
                        edges.push((k as u32, k2 as u32));
                        proof {
                            assert(spec_call_at(objects@, merged@, k as int, k2 as int, i as int));
                            assert(edges@[pre_edges.len() as int] == (k as u32, k2 as u32));
                        }
                    },
                    None => {
                        proof {
                            assert(spec_merged_has_pair(merged@, t.0 as int, t.1 as int));
                            assert(false);
                        }
                    },
                }
            }
            proof {
                assert forall|b: int, ii: int|
                    0 <= ii < i + 1 && #[trigger] spec_call_at(
                        objects@,
                        merged@,
                        k as int,
                        b,
                        ii,
                    ) implies spec_has_edge(edges@, k as int, b) by {
                    if ii < i {
                        assert(spec_has_edge(pre_edges, k as int, b));
                        let j = choose|j: int|
                            0 <= j < pre_edges.len() && (#[trigger] pre_edges[j]).0 == k as int
                                && pre_edges[j].1 == b;
                        assert(edges@[j] == pre_edges[j]);
                        assert(0 <= j < edges@.len() && edges@[j].0 == k as int && edges@[j].1
                            == b);
                    } else {
                        let code = objects@[o as int].functions@[f as int].code@;
                        assert(code[i as int] == a);
                        assert(a.call_target_function is Some);
                        assert(code[i as int].call_target_function == Some(merged@[b].1));
                        let jl = edges@.len() - 1;
                        assert(edges@[jl].0 == k as int);
                        assert(merged@[edges@[jl].1 as int].1 == a.call_target_function->0);
                        if edges@[jl].1 != b {
                            if edges@[jl].1 < b {
                                assert(merged@[edges@[jl].1 as int].1 != merged@[b].1);
                            } else {
                                assert(merged@[b].1 != merged@[edges@[jl].1 as int].1);
                            }
                            assert(false);
                        }
                        assert(0 <= jl < edges@.len() && edges@[jl].0 == k as int && edges@[jl].1
                            == b);
                    }
                }
                assert forall|aa: int, b: int, ii: int|
                    0 <= aa < k && #[trigger] spec_call_at(
                        objects@,
                        merged@,
                        aa,
                        b,
                        ii,
                    ) implies spec_has_edge(edges@, aa, b) by {
                    assert(spec_has_edge(pre_edges, aa, b));
                    let j = choose|j: int|
                        0 <= j < pre_edges.len() && (#[trigger] pre_edges[j]).0 == aa
                            && pre_edges[j].1 == b;
                    assert(edges@[j] == pre_edges[j]);
                    assert(0 <= j < edges@.len() && edges@[j].0 == aa && edges@[j].1 == b);
                }
            }
            i = i + 1;
        }
        k = k + 1;
    }
    // Root indices.
    let mut ridx: Vec<u32> = Vec::new();
    let mut k3: usize = 0;
    while k3 < n
        invariant
            0 <= k3 <= n,
            n == merged@.len(),
            n <= u32::MAX,
            forall|j: int|
                0 <= j < ridx@.len() ==> 0 <= (#[trigger] ridx@[j]) < merged@.len() && spec_is_root(
                    merged@,
                    roots@,
                    ridx@[j] as int,
                ),
            forall|v: int|
                0 <= v < k3 && spec_is_root(merged@, roots@, v) ==> #[trigger] spec_has_u32(
                    ridx@,
                    v,
                ),
        decreases n - k3,
    {
        let ghost pre_ridx = ridx@;
        if contains_name(roots, &merged[k3].0) {
            ridx.push(k3 as u32);
        }
        proof {
            assert forall|v: int|
                0 <= v < k3 + 1 && spec_is_root(merged@, roots@, v) implies #[trigger] spec_has_u32(
                ridx@,
                v,
            ) by {
                if v < k3 {
                    assert(spec_has_u32(pre_ridx, v));
                    let j = choose|j: int|
                        0 <= j < pre_ridx.len() && (#[trigger] pre_ridx[j]) == v;
                    assert(ridx@[j] == pre_ridx[j]);
                } else {
                    assert(ridx@[ridx@.len() - 1] == v);
                }
            }
        }
        k3 = k3 + 1;
    }
    // Reachability.
    proof {
        assert forall|a: int, b: int| #[trigger] spec_has_edge(edges@, a, b) implies (0 <= a
            < merged@.len() && 0 <= b < merged@.len() && spec_calls(objects@, merged@, a, b)) by {
            let j = choose|j: int|
                0 <= j < edges@.len() && (#[trigger] edges@[j]).0 == a && edges@[j].1 == b;
        }
        assert forall|a: int, b: int|
            (0 <= a < merged@.len() && 0 <= b < merged@.len() && spec_calls(
                objects@,
                merged@,
                a,
                b,
            )) implies #[trigger] spec_has_edge(edges@, a, b) by {
            let ii = choose|ii: int| spec_call_at(objects@, merged@, a, b, ii);
            assert(spec_call_at(objects@, merged@, a, b, ii));
        }
        assert forall|v: int| #[trigger] spec_has_u32(ridx@, v) implies (0 <= v < merged@.len()
            && spec_is_root(merged@, roots@, v)) by {
            let j = choose|j: int| 0 <= j < ridx@.len() && (#[trigger] ridx@[j]) == v;
        }
    }
    let keep = reachable_nodes(n, &edges, &ridx);
    proof {
        assert forall|v: int| 0 <= v < n implies keep@[v] == spec_call_reachable(
            objects@,
            merged@,
            roots@,
            v,
        ) by {
            lemma_reach_equiv(objects@, merged@, roots@, edges@, ridx@, v);
        }
    }
    // Filter survivors in order.
    let ghost morig = merged@;
    let mut rest = merged;
    let mut out: Vec<(Vec<u8>, (usize, usize))> = Vec::new();
    let mut k4: usize = 0;
    proof {
        assert(rest@ =~= morig.skip(0));
    }
    while k4 < n
        invariant
            0 <= k4 <= n,
            n == morig.len(),
            keep@.len() == n,
            rest@ =~= morig.skip(k4 as int),
            forall|ka: int, kb: int|
                0 <= ka < kb < morig.len() ==> ((#[trigger] morig[ka]).1.0 < (
                #[trigger] morig[kb]).1.0 || (morig[ka].1.0 == morig[kb].1.0 && morig[ka].1.1
                    < morig[kb].1.1)),
            forall|v: int|
                0 <= v < n ==> #[trigger] keep@[v] == spec_call_reachable(
                    objects@,
                    morig,
                    roots@,
                    v,
                ),
            forall|k2: int|
                0 <= k2 < out@.len() ==> spec_entry_reachable(
                    objects@,
                    morig,
                    roots@,
                    #[trigger] out@[k2],
                ),
            forall|k2: int|
                0 <= k2 < out@.len() ==> spec_merged_contains(morig, #[trigger] out@[k2]),
            forall|kk: int|
                0 <= kk < k4 && spec_call_reachable(objects@, morig, roots@, kk)
                    ==> spec_merged_contains(out@, #[trigger] morig[kk]),
            forall|j: int|
                0 <= j < out@.len() ==> spec_merged_contains(
                    morig.take(k4 as int),
                    #[trigger] out@[j],
                ),
            forall|j1: int, j2: int|
                0 <= j1 < j2 < out@.len() ==> (#[trigger] out@[j1]).1 != (#[trigger] out@[j2]).1,
            forall|j1: int, j2: int|
                0 <= j1 < j2 < out@.len() ==> ((#[trigger] out@[j1]).1.0 < (
                #[trigger] out@[j2]).1.0 || (out@[j1].1.0 == out@[j2].1.0 && out@[j1].1.1
                    < out@[j2].1.1)),
        decreases n - k4,
    {
        let ghost pre_out = out@;
        let e = rest.remove(0);
        proof {
            assert(e == morig[k4 as int]);
        }
        if keep[k4] {
            out.push(e);
            proof {
                assert(out@[pre_out.len() as int] == morig[k4 as int]);
                assert(spec_entry_reachable(objects@, morig, roots@, morig[k4 as int]));
                assert(morig.take(k4 + 1)[k4 as int] == morig[k4 as int]);
                assert forall|j1: int, j2: int|
                    0 <= j1 < j2 < out@.len() implies (#[trigger] out@[j1]).1 != (
                #[trigger] out@[j2]).1 && ((#[trigger] out@[j1]).1.0 < out@[j2].1.0 || (
                out@[j1].1.0 == out@[j2].1.0 && out@[j1].1.1 < out@[j2].1.1)) by {
                    if j2 == pre_out.len() {
                        assert(out@[j1] == pre_out[j1]);
                        assert(spec_merged_contains(morig.take(k4 as int), pre_out[j1]));
                        let ka = choose|ka: int|
                            0 <= ka < morig.take(k4 as int).len() && #[trigger] morig.take(
                                k4 as int,
                            )[ka] == pre_out[j1];
                        assert(morig[ka] == pre_out[j1]);
                        assert(ka < k4);
                        assert(morig[ka].1.0 < morig[k4 as int].1.0 || (morig[ka].1.0
                            == morig[k4 as int].1.0 && morig[ka].1.1 < morig[k4 as int].1.1));
                    } else {
                        assert(out@[j1] == pre_out[j1]);
                        assert(out@[j2] == pre_out[j2]);
                    }
                }
            }
        }
        proof {
            assert forall|kk: int|
                0 <= kk < k4 + 1 && spec_call_reachable(
                    objects@,
                    morig,
                    roots@,
                    kk,
                ) implies spec_merged_contains(out@, #[trigger] morig[kk]) by {
                if kk < k4 {
                    assert(spec_merged_contains(pre_out, morig[kk]));
                    let j = choose|j: int|
                        0 <= j < pre_out.len() && #[trigger] pre_out[j] == morig[kk];
                    assert(out@[j] == pre_out[j]);
                } else {
                    assert(out@[out@.len() - 1] == morig[kk]);
                }
            }
            assert forall|k2: int| 0 <= k2 < out@.len() implies spec_merged_contains(
                morig,
                #[trigger] out@[k2],
            ) && spec_entry_reachable(objects@, morig, roots@, out@[k2]) && spec_merged_contains(
                morig.take(k4 + 1),
                out@[k2],
            ) by {
                if k2 < pre_out.len() {
                    assert(out@[k2] == pre_out[k2]);
                    assert(spec_merged_contains(morig.take(k4 as int), pre_out[k2]));
                    let ka = choose|ka: int|
                        0 <= ka < morig.take(k4 as int).len() && #[trigger] morig.take(
                            k4 as int,
                        )[ka] == pre_out[k2];
                    assert(morig.take(k4 + 1)[ka] == morig.take(k4 as int)[ka]);
                } else {
                    assert(out@[k2] == morig[k4 as int]);
                    assert(morig.take(k4 + 1)[k4 as int] == morig[k4 as int]);
                }
            }
            assert(rest@ =~= morig.skip(k4 + 1));
        }
        k4 = k4 + 1;
    }
    Ok(out)
}


/// Flat little-endian encoding of an instruction sequence.
pub open spec fn spec_flat_encode(insns: Seq<Insn>) -> Seq<u8>
    decreases insns.len(),
{
    if insns.len() == 0 {
        Seq::empty()
    } else {
        spec_flat_encode(insns.drop_last()) + spec_encode(insns.last())
    }
}

/// Eight bytes per instruction.
pub proof fn lemma_flat_encode_len(insns: Seq<Insn>)
    ensures
        spec_flat_encode(insns).len() == 8 * insns.len(),
    decreases insns.len(),
{
    vstd::bytes::lemma_auto_spec_u16_to_from_le_bytes();
    vstd::bytes::lemma_auto_spec_u32_to_from_le_bytes();
    if insns.len() > 0 {
        lemma_flat_encode_len(insns.drop_last());
    }
}

/// The instructions of an annotated body.
pub open spec fn spec_insns_of(code: Seq<AnnotatedInsn>) -> Seq<Insn> {
    code.map_values(|a: AnnotatedInsn| a.insn)
}

/// The fixed entry trampoline: load r0..r9 from data memory, release that
/// area, and return into the entry function through the hardware's stacked
/// program counter.
pub open spec fn spec_trampoline_insns() -> Seq<Insn> {
    seq![
        Insn { opc: MOV32_IMM, dst: 10, src: 0, off: 0, imm: 0 },
        Insn { opc: LD_DW_REG, dst: 0, src: 10, off: 0, imm: 0 },
        Insn { opc: LD_DW_REG, dst: 1, src: 10, off: 8, imm: 0 },
        Insn { opc: LD_DW_REG, dst: 2, src: 10, off: 16, imm: 0 },
        Insn { opc: LD_DW_REG, dst: 3, src: 10, off: 24, imm: 0 },
        Insn { opc: LD_DW_REG, dst: 4, src: 10, off: 32, imm: 0 },
        Insn { opc: LD_DW_REG, dst: 5, src: 10, off: 40, imm: 0 },
        Insn { opc: LD_DW_REG, dst: 6, src: 10, off: 48, imm: 0 },
        Insn { opc: LD_DW_REG, dst: 7, src: 10, off: 56, imm: 0 },
        Insn { opc: LD_DW_REG, dst: 8, src: 10, off: 64, imm: 0 },
        Insn { opc: LD_DW_REG, dst: 9, src: 10, off: 72, imm: 0 },
        Insn { opc: ADD64_IMM, dst: 10, src: 0, off: 0, imm: 80 },
        Insn { opc: JA, dst: 0, src: 1, off: 0, imm: 0 },
    ]
}

/// The 104 bytes every emitted code image begins with.
pub open spec fn spec_trampoline_bytes() -> Seq<u8> {
    spec_flat_encode(spec_trampoline_insns())
}

/// Append the encoding of `insns` to `image`.
fn emit_insns(image: &mut Vec<u8>, insns: &Vec<Insn>)
    requires
        forall|i: int| 0 <= i < insns@.len() ==> (#[trigger] insns@[i]).wf(),
        old(image)@.len() + 8 * insns@.len() <= usize::MAX,
    ensures
        final(image)@ == old(image)@ + spec_flat_encode(insns@),
{
    let n = insns.len();
    let mut k: usize = 0;
    proof {
        assert(image@ =~= old(image)@ + spec_flat_encode(insns@.take(0)));
    }
    while k < n
        invariant
            0 <= k <= n,
            n == insns@.len(),
            forall|i: int| 0 <= i < insns@.len() ==> (#[trigger] insns@[i]).wf(),
            old(image)@.len() + 8 * insns@.len() <= usize::MAX,
            image@ =~= old(image)@ + spec_flat_encode(insns@.take(k as int)),
        decreases n - k,
    {
        proof {
            lemma_flat_encode_len(insns@.take(k as int));
        }
        let b = encode_insn(&insns[k]);
        let mut j: usize = 0;
        let ghost pre = image@;
        while j < 8
            invariant
                0 <= j <= 8,
                b@.len() == 8,
                image@ =~= pre + b@.take(j as int),
                pre.len() + 8 <= usize::MAX,
            decreases 8 - j,
        {
            image.push(b[j]);
            j = j + 1;
        }
        proof {
            assert(insns@.take(k + 1).drop_last() =~= insns@.take(k as int));
            assert(insns@.take(k + 1).last() == insns@[k as int]);
            assert(image@ =~= old(image)@ + spec_flat_encode(insns@.take(k + 1)));
        }
        k = k + 1;
    }
    proof {
        assert(insns@.take(n as int) =~= insns@);
    }
}

/// Prepend the fixed 13-instruction entry trampoline.
pub fn emit_entry_trampoline(image: &mut Vec<u8>)
    requires
        old(image)@.len() + 104 <= usize::MAX,
    ensures
        final(image)@ == old(image)@ + spec_trampoline_bytes(),
        final(image)@.len() == old(image)@.len() + 104,
{
    let mut insns: Vec<Insn> = Vec::new();
    insns.push(Insn { opc: MOV32_IMM, dst: 10, src: 0, off: 0, imm: 0 });
    insns.push(Insn { opc: LD_DW_REG, dst: 0, src: 10, off: 0, imm: 0 });
    insns.push(Insn { opc: LD_DW_REG, dst: 1, src: 10, off: 8, imm: 0 });
    insns.push(Insn { opc: LD_DW_REG, dst: 2, src: 10, off: 16, imm: 0 });
    insns.push(Insn { opc: LD_DW_REG, dst: 3, src: 10, off: 24, imm: 0 });
    insns.push(Insn { opc: LD_DW_REG, dst: 4, src: 10, off: 32, imm: 0 });
    insns.push(Insn { opc: LD_DW_REG, dst: 5, src: 10, off: 40, imm: 0 });
    insns.push(Insn { opc: LD_DW_REG, dst: 6, src: 10, off: 48, imm: 0 });
    insns.push(Insn { opc: LD_DW_REG, dst: 7, src: 10, off: 56, imm: 0 });
    insns.push(Insn { opc: LD_DW_REG, dst: 8, src: 10, off: 64, imm: 0 });
    insns.push(Insn { opc: LD_DW_REG, dst: 9, src: 10, off: 72, imm: 0 });
    insns.push(Insn { opc: ADD64_IMM, dst: 10, src: 0, off: 0, imm: 80 });
    insns.push(Insn { opc: JA, dst: 0, src: 1, off: 0, imm: 0 });
    proof {
        assert(insns@ =~= spec_trampoline_insns());
        lemma_flat_encode_len(spec_trampoline_insns());
    }
    emit_insns(image, &insns);
}

/// What emitting a function's body needs of it.
pub open spec fn spec_emittable(objects: Seq<LocalObject>, merged: Seq<(Vec<u8>, (usize, usize))>, k: int) -> bool {
    &&& (merged[k].1.0 as int) < objects.len()
    &&& (merged[k].1.1 as int) < objects[merged[k].1.0 as int].functions@.len()
    &&& {
        let code = objects[merged[k].1.0 as int].functions@[merged[k].1.1 as int].code@;
        &&& 1 <= code.len()
        &&& 8 * code.len() <= usize::MAX as int / 8
        &&& forall|i: int| 0 <= i < code.len() ==> (#[trigger] code[i]).insn.wf()
    }
}

/// The code of merged function `k`.
pub open spec fn spec_merged_code(
    objects: Seq<LocalObject>,
    merged: Seq<(Vec<u8>, (usize, usize))>,
    k: int,
) -> Seq<AnnotatedInsn> {
    objects[merged[k].1.0 as int].functions@[merged[k].1.1 as int].code@
}

/// Where merged function `k` starts when the functions are packed back to
/// back after the 104-byte trampoline; at `k == merged.len()` the image's
/// total length.
pub open spec fn spec_layout_end(
    objects: Seq<LocalObject>,
    merged: Seq<(Vec<u8>, (usize, usize))>,
    k: int,
) -> int
    decreases k,
{
    if k <= 0 {
        104int
    } else {
        spec_layout_end(objects, merged, k - 1) + 8 * spec_merged_code(
            objects,
            merged,
            k - 1,
        ).len()
    }
}

/// The packed layout only grows.
pub proof fn lemma_layout_end_monotone(
    objects: Seq<LocalObject>,
    merged: Seq<(Vec<u8>, (usize, usize))>,
    k1: int,
    k2: int,
)
    requires
        0 <= k1 <= k2,
    ensures
        spec_layout_end(objects, merged, k1) <= spec_layout_end(objects, merged, k2),
    decreases k2 - k1,
{
    if k1 < k2 {
        lemma_layout_end_monotone(objects, merged, k1, k2 - 1);
    }
}

/// The layout emitted by `emit_image`: functions packed back to back after
/// the trampoline, each at an 8-aligned offset holding its encoded body.
pub open spec fn spec_layout_ok(
    objects: Seq<LocalObject>,
    merged: Seq<(Vec<u8>, (usize, usize))>,
    offsets: Seq<usize>,
    image: Seq<u8>,
) -> bool {
    &&& offsets.len() == merged.len()
    &&& forall|k: int|
        0 <= k < merged.len() ==> {
            let code = spec_merged_code(objects, merged, k);
            &&& 104 <= #[trigger] offsets[k]
            &&& offsets[k] % 8 == 0
            &&& offsets[k] + 8 * code.len() <= image.len()
        }
    &&& forall|k1: int, k2: int|
        0 <= k1 < k2 < merged.len() ==> #[trigger] offsets[k1] + 8 * spec_merged_code(
            objects,
            merged,
            k1,
        ).len() <= #[trigger] offsets[k2]
}

/// Append every merged function's code to the image, in table order,
/// returning each function's byte offset.
pub fn emit_image(
    objects: &Vec<LocalObject>,
    merged: &Vec<(Vec<u8>, (usize, usize))>,
    image: &mut Vec<u8>,
) -> (r: Result<Vec<usize>, LinkError>)
    requires
        old(image)@.len() == 104,
        forall|k: int|
            0 <= k < merged@.len() ==> #[trigger] spec_emittable(objects@, merged@, k),
    ensures
        r is Ok ==> {
            let offsets = r->Ok_0;
            &&& spec_layout_ok(objects@, merged@, offsets@, final(image)@)
            &&& final(image)@.len() % 8 == 0
            &&& final(image)@.subrange(0, 104) == old(image)@
            &&& forall|k: int|
                0 <= k < merged@.len() ==> final(image)@.subrange(
                    #[trigger] offsets@[k] as int,
                    offsets@[k] + 8 * spec_merged_code(objects@, merged@, k).len(),
                ) == spec_flat_encode(spec_insns_of(spec_merged_code(objects@, merged@, k)))
            &&& forall|k: int|
                0 <= k < merged@.len() ==> #[trigger] offsets@[k] as int == spec_layout_end(
                    objects@,
                    merged@,
                    k,
                )
            &&& final(image)@.len() == spec_layout_end(objects@, merged@, merged@.len() as int)
        },
        r is Ok <==> spec_layout_end(objects@, merged@, merged@.len() as int) <= usize::MAX,
        r is Err ==> r->Err_0.kind == LinkErrorKind::ImageTooLarge,
{
    let n = merged.len();
    let mut offsets: Vec<usize> = Vec::new();
    let mut k: usize = 0;
    while k < n
        invariant
            0 <= k <= n,
            n == merged@.len(),
            forall|kk: int|
                0 <= kk < merged@.len() ==> #[trigger] spec_emittable(objects@, merged@, kk),
            offsets@.len() == k,
            image@.len() % 8 == 0,
            image@.len() >= 104,
            image@.subrange(0, 104) =~= old(image)@,
            forall|kk: int|
                0 <= kk < k ==> {
                    let code = spec_merged_code(objects@, merged@, kk);
                    &&& 104 <= #[trigger] offsets@[kk]
                    &&& offsets@[kk] % 8 == 0
                    &&& offsets@[kk] + 8 * code.len() <= image@.len()
                },
            forall|k1: int, k2: int|
                0 <= k1 < k2 < k ==> #[trigger] offsets@[k1] + 8 * spec_merged_code(
                    objects@,
                    merged@,
                    k1,
                ).len() <= #[trigger] offsets@[k2],
            forall|kk: int|
                0 <= kk < k ==> image@.subrange(
                    #[trigger] offsets@[kk] as int,
                    offsets@[kk] + 8 * spec_merged_code(objects@, merged@, kk).len(),
                ) == spec_flat_encode(spec_insns_of(spec_merged_code(objects@, merged@, kk))),
            k > 0 ==> offsets@[0] == 104,
            forall|kk: int|
                0 <= kk < k ==> #[trigger] offsets@[kk] as int == spec_layout_end(
                    objects@,
                    merged@,
                    kk,
                ),
            image@.len() == spec_layout_end(objects@, merged@, k as int),
        decreases n - k,
    {
        let (o, f) = merged[k].1;
        proof {
            assert(spec_emittable(objects@, merged@, k as int));
        }
        let n_insns = objects[o].functions[f].code.len();
        let pos = image.len();
        if n_insns > (usize::MAX - pos) / 8 {
            proof {
                assert(spec_layout_end(objects@, merged@, k + 1) > usize::MAX);
                lemma_layout_end_monotone(objects@, merged@, k + 1, merged@.len() as int);
            }
            return Err(LinkError::new(LinkErrorKind::ImageTooLarge));
        }
        proof {
            assert(8 * n_insns <= usize::MAX - pos);
        }
        // Collect the body's instructions.
        let mut insns: Vec<Insn> = Vec::new();
        let mut i: usize = 0;
        while i < n_insns
            invariant
                0 <= i <= n_insns,
                0 <= k < n,
                n == merged@.len(),
                o == merged@[k as int].1.0,
                f == merged@[k as int].1.1,
                spec_emittable(objects@, merged@, k as int),
                n_insns == spec_merged_code(objects@, merged@, k as int).len(),
                insns@.len() == i,
                insns@ =~= spec_insns_of(spec_merged_code(objects@, merged@, k as int)).take(
                    i as int,
                ),
            decreases n_insns - i,
        {
            let a = objects[o].functions[f].code[i];
            insns.push(a.insn);
            proof {
                assert(insns@ =~= spec_insns_of(spec_merged_code(objects@, merged@, k as int)).take(
                    i + 1,
                ));
            }
            i = i + 1;
        }
        proof {
            assert(insns@ =~= spec_insns_of(spec_merged_code(objects@, merged@, k as int)));
            assert forall|ii: int| 0 <= ii < insns@.len() implies (#[trigger] insns@[ii]).wf() by {
                assert(insns@[ii] == spec_merged_code(objects@, merged@, k as int)[ii].insn);
            }
        }
        let ghost pre_image = image@;
        emit_insns(image, &insns);
        offsets.push(pos);
        proof {
            lemma_flat_encode_len(insns@);
            assert(image@.subrange(0, 104) =~= pre_image.subrange(0, 104));
            assert(image@.subrange(pos as int, pos + 8 * n_insns) =~= spec_flat_encode(insns@));
            assert forall|kk: int|
                0 <= kk < k implies image@.subrange(
                #[trigger] offsets@[kk] as int,
                offsets@[kk] + 8 * spec_merged_code(objects@, merged@, kk).len(),
            ) == spec_flat_encode(spec_insns_of(spec_merged_code(objects@, merged@, kk))) by {
                assert(image@.subrange(
                    offsets@[kk] as int,
                    offsets@[kk] + 8 * spec_merged_code(objects@, merged@, kk).len(),
                ) =~= pre_image.subrange(
                    offsets@[kk] as int,
                    offsets@[kk] + 8 * spec_merged_code(objects@, merged@, kk).len(),
                ));
            }
        }
        k = k + 1;
    }
    let total = image.len();
    proof {
        assert(total as int == spec_layout_end(objects@, merged@, merged@.len() as int));
        assert(image@.subrange(0, 104) =~= old(image)@);
    }
    Ok(offsets)
}


/// The rewritten call instruction: the hardware decodes `JA src=2` as call,
/// allocating the caller's frame (plus the return slot) and branching by
/// `diff` instructions.
pub open spec fn spec_ja_call(diff: i16, stack_usage: int) -> Insn {
    Insn { opc: JA, dst: 0, src: 2, off: diff, imm: (-(stack_usage + 8)) as i32 }
}

/// The rewritten return instruction: the hardware decodes `JA src=1` as
/// return.
pub open spec fn spec_ja_ret() -> Insn {
    Insn { opc: JA, dst: 0, src: 1, off: 0, imm: 0 }
}

/// A call site was rewritten: some merged entry carries the target pair, the
/// instruction displacement to it fits in 16 bits, and the site now holds
/// the call form of `JA`.
pub open spec fn spec_call_site_rewritten(
    merged: Seq<(Vec<u8>, (usize, usize))>,
    offsets: Seq<usize>,
    post: Seq<u8>,
    site: int,
    t: (usize, usize),
    su: int,
) -> bool {
    exists|k2: int|
        {
            &&& 0 <= k2 < merged.len()
            &&& (#[trigger] merged[k2]).1 == t
            &&& {
                let diff = (offsets[k2] - site) / 8 - 1;
                &&& -32768 <= diff <= 32767
                &&& post.subrange(site, site + 8) == spec_encode(spec_ja_call(diff as i16, su))
            }
        }
}

/// How the bytes of one instruction site change under the call/return
/// rewrite.
pub open spec fn spec_site_bytes_ok(
    merged: Seq<(Vec<u8>, (usize, usize))>,
    offsets: Seq<usize>,
    pre: Seq<u8>,
    post: Seq<u8>,
    site: int,
    a: AnnotatedInsn,
    su: int,
) -> bool {
    if a.call_target_function is Some {
        spec_call_site_rewritten(merged, offsets, post, site, a.call_target_function->0, su)
    } else if a.insn.opc == EXIT {
        post.subrange(site, site + 8) == spec_encode(spec_ja_ret())
    } else {
        post.subrange(site, site + 8) == pre.subrange(site, site + 8)
    }
}

/// Every instruction site of merged function `k` was rewritten as its
/// instruction dictates: annotated calls become `JA src=2` with an in-range
/// displacement, `EXIT`s become `JA src=1`, everything else is untouched.
pub open spec fn spec_region_rewritten(
    objects: Seq<LocalObject>,
    merged: Seq<(Vec<u8>, (usize, usize))>,
    offsets: Seq<usize>,
    pre: Seq<u8>,
    post: Seq<u8>,
    k: int,
) -> bool {
    let code = spec_merged_code(objects, merged, k);
    let su = objects[merged[k].1.0 as int].functions@[merged[k].1.1 as int].stack_usage as int;
    forall|i: int|
        0 <= i < code.len() ==> spec_site_bytes_ok(
            merged,
            offsets,
            pre,
            post,
            offsets[k] + 8 * i,
            #[trigger] code[i],
            su,
        )
}

/// The annotated call at instruction `i` of merged function `k` has an
/// in-range displacement to its target's placement.
pub open spec fn spec_call_in_range(
    objects: Seq<LocalObject>,
    merged: Seq<(Vec<u8>, (usize, usize))>,
    offsets: Seq<usize>,
    k: int,
    i: int,
) -> bool {
    let a = spec_merged_code(objects, merged, k)[i];
    let t = a.call_target_function->0;
    exists|k2: int|
        0 <= k2 < merged.len() && (#[trigger] merged[k2]).1 == t && {
            let diff = (offsets[k2] - (offsets[k] + 8 * i)) / 8 - 1;
            -32768 <= diff <= 32767
        }
}

/// Overwrite eight bytes of the image.
fn write8(image: &mut Vec<u8>, off: usize, b: &Vec<u8>)
    requires
        off + 8 <= old(image)@.len(),
        b@.len() == 8,
    ensures
        final(image)@.len() == old(image)@.len(),
        forall|j: int|
            0 <= j < old(image)@.len() ==> final(image)@[j] == (if off <= j < off + 8 {
                b@[j - off]
            } else {
                old(image)@[j]
            }),
        final(image)@.subrange(off as int, off + 8) == b@,
{
    let n_img = image.len();
    let mut j: usize = 0;
    while j < 8
        invariant
            0 <= j <= 8,
            n_img == image@.len(),
            off + 8 <= n_img,
            image@.len() == old(image)@.len(),
            b@.len() == 8,
            forall|jj: int|
                0 <= jj < image@.len() ==> image@[jj] == (if off <= jj < off + j {
                    b@[jj - off]
                } else {
                    old(image)@[jj]
                }),
        decreases 8 - j,
    {
        image.set(off + j, b[j]);
        j = j + 1;
    }
    proof {
        assert(image@.subrange(off as int, off + 8) =~= b@);
    }
}

/// Rewrite every annotated call into the target's single-instruction call
/// form and every `EXIT` into its return form, in place.
#[verifier::rlimit(100)]
#[verifier::spinoff_prover]
pub fn rewrite_image_call_return(
    objects: &Vec<LocalObject>,
    merged: &Vec<(Vec<u8>, (usize, usize))>,
    offsets: &Vec<usize>,
    image: &mut Vec<u8>,
) -> (r: Result<(), LinkError>)
    requires
        spec_layout_ok(objects@, merged@, offsets@, old(image)@),
        forall|k: int|
            0 <= k < merged@.len() ==> #[trigger] spec_emittable(objects@, merged@, k),
        forall|k: int|
            0 <= k < merged@.len() ==> (#[trigger] objects@[merged@[k].1.0 as int].functions@[
                merged@[k].1.1 as int
            ]).stack_usage <= 0x8000,
        forall|k: int, i: int|
            0 <= k < merged@.len() && 0 <= i < spec_merged_code(objects@, merged@, k).len() && (
            #[trigger] spec_merged_code(objects@, merged@, k)[i]).call_target_function is Some
                ==> ({
                let t = spec_merged_code(objects@, merged@, k)[i].call_target_function->0;
                spec_merged_has_pair(merged@, t.0 as int, t.1 as int)
            }),
        forall|k1: int, k2: int|
            0 <= k1 < k2 < merged@.len() ==> (#[trigger] merged@[k1]).1 != (
            #[trigger] merged@[k2]).1,
    ensures
        final(image)@.len() == old(image)@.len(),
        r is Ok ==> {
            &&& forall|j: int|
                0 <= j < 104 && j < old(image)@.len() ==> final(image)@[j] == old(image)@[j]
            &&& forall|k: int|
                0 <= k < merged@.len() ==> #[trigger] spec_region_rewritten(
                    objects@,
                    merged@,
                    offsets@,
                    old(image)@,
                    final(image)@,
                    k,
                )
        },
        r is Ok <==> (forall|k: int, i: int|
            0 <= k < merged@.len() && 0 <= i < spec_merged_code(objects@, merged@, k).len() && (
            #[trigger] spec_merged_code(objects@, merged@, k)[i]).call_target_function is Some
                ==> spec_call_in_range(objects@, merged@, offsets@, k, i)),
        r is Err ==> r->Err_0.kind == LinkErrorKind::CallTargetTooFar,
{
    let n = merged.len();
    let n_img = image.len();
    let mut k: usize = 0;
    while k < n
        invariant
            0 <= k <= n,
            n == merged@.len(),
            spec_layout_ok(objects@, merged@, offsets@, old(image)@),
            n_img == image@.len(),
            image@.len() == old(image)@.len(),
            forall|ka: int, kb: int|
                0 <= ka < kb < merged@.len() ==> (#[trigger] merged@[ka]).1 != (
                #[trigger] merged@[kb]).1,
            forall|kk: int|
                0 <= kk < merged@.len() ==> #[trigger] spec_emittable(objects@, merged@, kk),
            forall|kk: int|
                0 <= kk < merged@.len() ==> (#[trigger] objects@[merged@[kk].1.0 as int].functions@[
                    merged@[kk].1.1 as int
                ]).stack_usage <= 0x8000,
            forall|kk: int, i: int|
                0 <= kk < merged@.len() && 0 <= i < spec_merged_code(objects@, merged@, kk).len()
                    && (#[trigger] spec_merged_code(objects@, merged@, kk)[i]).call_target_function
                    is Some ==> ({
                    let t = spec_merged_code(objects@, merged@, kk)[i].call_target_function->0;
                    spec_merged_has_pair(merged@, t.0 as int, t.1 as int)
                }),
            forall|j: int|
                0 <= j < old(image)@.len() && j < 104 ==> #[trigger] image@[j] == old(image)@[j],
            forall|j: int|
                0 <= j < old(image)@.len() && k < n && j >= offsets@[k as int]
                    ==> #[trigger] image@[j] == old(image)@[j],
            forall|kk: int|
                0 <= kk < k ==> #[trigger] spec_region_rewritten(
                    objects@,
                    merged@,
                    offsets@,
                    old(image)@,
                    image@,
                    kk,
                ),
        decreases n - k,
    {
        let (o, f) = merged[k].1;
        proof {
            assert(spec_emittable(objects@, merged@, k as int));
        }
        let base = offsets[k];
        let su = objects[o].functions[f].stack_usage;
        let n_insns = objects[o].functions[f].code.len();
        let mut i: usize = 0;
        while i < n_insns
            invariant
                0 <= i <= n_insns,
                0 <= k < n,
                n == merged@.len(),
                o == merged@[k as int].1.0,
                f == merged@[k as int].1.1,
                base == offsets@[k as int],
                su == objects@[o as int].functions@[f as int].stack_usage,
                su <= 0x8000,
                n_insns == spec_merged_code(objects@, merged@, k as int).len(),
                spec_layout_ok(objects@, merged@, offsets@, old(image)@),
                spec_emittable(objects@, merged@, k as int),
                n_img == image@.len(),
                image@.len() == old(image)@.len(),
                base + 8 * n_insns <= n_img,
                forall|ka: int, kb: int|
                    0 <= ka < kb < merged@.len() ==> (#[trigger] merged@[ka]).1 != (
                    #[trigger] merged@[kb]).1,
                forall|kk: int, ii: int|
                    0 <= kk < merged@.len() && 0 <= ii < spec_merged_code(
                        objects@,
                        merged@,
                        kk,
                    ).len() && (#[trigger] spec_merged_code(
                        objects@,
                        merged@,
                        kk,
                    )[ii]).call_target_function is Some ==> ({
                        let t = spec_merged_code(objects@, merged@, kk)[ii].call_target_function->0;
                        spec_merged_has_pair(merged@, t.0 as int, t.1 as int)
                    }),
                forall|j: int|
                    0 <= j < old(image)@.len() && j >= base + 8 * i ==> #[trigger] image@[j] == old(
                        image,
                    )@[j],
                forall|j: int|
                    0 <= j < old(image)@.len() && j < 104 ==> #[trigger] image@[j] == old(
                        image,
                    )@[j],
                forall|kk: int|
                    0 <= kk < k ==> #[trigger] spec_region_rewritten(
                        objects@,
                        merged@,
                        offsets@,
                        old(image)@,
                        image@,
                        kk,
                    ),
                forall|ii: int|
                    0 <= ii < i ==> spec_site_bytes_ok(
                        merged@,
                        offsets@,
                        old(image)@,
                        image@,
                        base + 8 * ii,
                        #[trigger] spec_merged_code(objects@, merged@, k as int)[ii],
                        su as int,
                    ),
            decreases n_insns - i,
        {
            let a = objects[o].functions[f].code[i];
            let site = base + 8 * i;
            let ghost pre_image = image@;
            if let Some(t) = a.call_target_function {
                proof {
                    assert(spec_merged_code(objects@, merged@, k as int)[i as int]
                        == a);
                    assert(spec_merged_has_pair(merged@, t.0 as int, t.1 as int));
                }
                let k2 = match find_merged_index(merged, t) {
                    Some(k2) => k2,
                    None => {
                        proof {
                            assert(false);
                        }
                        return Err(LinkError::new(LinkErrorKind::CallTargetTooFar));
                    },
                };
                let target_off = offsets[k2];
                let (abs, neg) = if target_off >= site {
                    ((target_off - site) / 8, false)
                } else {
                    ((site - target_off) / 8, true)
                };
                proof {
                    assert(offsets@[k2 as int] % 8 == 0);
                    assert(site % 8 == 0);
                    if target_off >= site {
                        assert((target_off - site) % 8 == 0);
                        assert(8 * ((target_off - site) as int / 8) == target_off - site);
                    } else {
                        assert((site - target_off) % 8 == 0);
                        assert(8 * ((site - target_off) as int / 8) == site - target_off);
                    }
                }
                if (neg && abs > 32767) || (!neg && abs > 32768) {
                    proof {
                        let code = spec_merged_code(objects@, merged@, k as int);
                        assert(code[i as int] == a);
                        let diff0 = (offsets@[k2 as int] - (site as int)) / 8 - 1;
                        assert(diff0 < -32768 || diff0 > 32767) by (nonlinear_arith)
                            requires
                                (if neg {
                                    offsets@[k2 as int] - site == -8 * (abs as int)
                                } else {
                                    offsets@[k2 as int] - site == 8 * (abs as int)
                                }),
                                diff0 == (offsets@[k2 as int] - (site as int)) / 8 - 1,
                                (neg && abs > 32767) || (!neg && abs > 32768),
                        ;
                        assert(!spec_call_in_range(
                            objects@,
                            merged@,
                            offsets@,
                            k as int,
                            i as int,
                        )) by {
                            if spec_call_in_range(objects@, merged@, offsets@, k as int, i as int) {
                                let k3 = choose|k3: int|
                                    0 <= k3 < merged@.len() && (#[trigger] merged@[k3]).1 == t && {
                                        let diff = (offsets@[k3] - (offsets@[k as int] + 8 * i))
                                            / 8 - 1;
                                        -32768 <= diff <= 32767
                                    };
                                if k3 < k2 as int {
                                    assert(merged@[k3].1 != merged@[k2 as int].1);
                                } else if k3 > k2 as int {
                                    assert(merged@[k2 as int].1 != merged@[k3].1);
                                }
                                assert(k3 == k2 as int);
                                assert(false);
                            }
                        }
                    }
                    return Err(LinkError::new(LinkErrorKind::CallTargetTooFar));
                }
                let d32: i32 = if neg {
                    -(abs as i32) - 1
                } else {
                    (abs as i32) - 1
                };
                proof {
                    let diff = (offsets@[k2 as int] - site) / 8 - 1;
                    assert(diff == d32 as int) by (nonlinear_arith)
                        requires
                            (if neg {
                                offsets@[k2 as int] - site == -8 * (abs as int)
                            } else {
                                offsets@[k2 as int] - site == 8 * (abs as int)
                            }),
                            d32 == (if neg {
                                -(abs as int) - 1
                            } else {
                                abs as int - 1
                            }),
                            diff == (offsets@[k2 as int] - site) / 8 - 1,
                    ;
                    assert(-32768 <= d32 <= 32767);
                }
                let d16: i16 = d32 as i16;
                let ja = Insn {
                    opc: JA,
                    dst: 0,
                    src: 2,
                    off: d16,
                    imm: -((su as i32) + 8),
                };
                let bytes = encode_insn(&ja);
                proof {
                    assert(site + 8 <= image@.len());
                }
                write8(image, site, &bytes);
                proof {
                    assert(ja == spec_ja_call(d16, su as int));
                    assert(image@.subrange(site as int, site + 8) == spec_encode(
                        spec_ja_call(d16, su as int),
                    ));
                    assert(spec_call_site_rewritten(
                        merged@,
                        offsets@,
                        image@,
                        site as int,
                        t,
                        su as int,
                    )) by {
                        assert(merged@[k2 as int].1 == t);
                        assert((offsets@[k2 as int] - site) / 8 - 1 == d16 as int);
                    }
                }
            } else if a.insn.opc == EXIT {
                let ja = Insn { opc: JA, dst: 0, src: 1, off: 0, imm: 0 };
                let bytes = encode_insn(&ja);
                proof {
                    assert(site + 8 <= image@.len());
                }
                write8(image, site, &bytes);
                proof {
                    assert(image@.subrange(site as int, site + 8) == spec_encode(spec_ja_ret()));
                }
            }
            proof {
                let code = spec_merged_code(objects@, merged@, k as int);
                assert(code[i as int] == a);
                // Earlier regions and sites keep their bytes.
                assert forall|kk: int|
                    0 <= kk < k implies #[trigger] spec_region_rewritten(
                    objects@,
                    merged@,
                    offsets@,
                    old(image)@,
                    image@,
                    kk,
                ) by {
                    let codek = spec_merged_code(objects@, merged@, kk);
                    let suk = objects@[merged@[kk].1.0 as int].functions@[merged@[kk].1.1 as int].stack_usage as int;
                    assert(spec_region_rewritten(
                        objects@,
                        merged@,
                        offsets@,
                        old(image)@,
                        pre_image,
                        kk,
                    ));
                    assert forall|ii: int| 0 <= ii < codek.len() implies spec_site_bytes_ok(
                        merged@,
                        offsets@,
                        old(image)@,
                        image@,
                        offsets@[kk] + 8 * ii,
                        #[trigger] codek[ii],
                        suk,
                    ) by {
                        assert(spec_site_bytes_ok(
                            merged@,
                            offsets@,
                            old(image)@,
                            pre_image,
                            offsets@[kk] + 8 * ii,
                            codek[ii],
                            suk,
                        ));
                        assert(offsets@[kk] + 8 * codek.len() <= offsets@[k as int]);
                        assert(image@.subrange(offsets@[kk] + 8 * ii, offsets@[kk] + 8 * ii + 8)
                            =~= pre_image.subrange(
                            offsets@[kk] + 8 * ii,
                            offsets@[kk] + 8 * ii + 8,
                        ));
                        if codek[ii].call_target_function is Some {
                            let t2 = codek[ii].call_target_function->0;
                            let k3 = choose|k3: int|
                                0 <= k3 < merged@.len() && (#[trigger] merged@[k3]).1 == t2 && ({
                                    let diff = (offsets@[k3] - (offsets@[kk] + 8 * ii)) / 8 - 1;
                                    &&& -32768 <= diff <= 32767
                                    &&& pre_image.subrange(
                                        offsets@[kk] + 8 * ii,
                                        offsets@[kk] + 8 * ii + 8,
                                    ) == spec_encode(spec_ja_call(diff as i16, suk))
                                });
                            assert(merged@[k3].1 == t2);
                        }
                    }
                }
                assert forall|ii: int| 0 <= ii < i + 1 implies spec_site_bytes_ok(
                    merged@,
                    offsets@,
                    old(image)@,
                    image@,
                    base + 8 * ii,
                    #[trigger] code[ii],
                    su as int,
                ) by {
                    if ii < i {
                        assert(spec_site_bytes_ok(
                            merged@,
                            offsets@,
                            old(image)@,
                            pre_image,
                            base + 8 * ii,
                            code[ii],
                            su as int,
                        ));
                        assert(image@.subrange(base + 8 * ii, base + 8 * ii + 8)
                            =~= pre_image.subrange(base + 8 * ii, base + 8 * ii + 8));
                        if code[ii].call_target_function is Some {
                            let t2 = code[ii].call_target_function->0;
                            let k3 = choose|k3: int|
                                0 <= k3 < merged@.len() && (#[trigger] merged@[k3]).1 == t2 && ({
                                    let diff = (offsets@[k3] - (base + 8 * ii)) / 8 - 1;
                                    &&& -32768 <= diff <= 32767
                                    &&& pre_image.subrange(base + 8 * ii, base + 8 * ii + 8)
                                        == spec_encode(spec_ja_call(diff as i16, su as int))
                                });
                            assert(merged@[k3].1 == t2);
                        }
                    } else {
                        if a.call_target_function is None && a.insn.opc != EXIT {
                            assert(image@.subrange(site as int, site + 8) =~= pre_image.subrange(
                                site as int,
                                site + 8,
                            ));
                            assert(pre_image.subrange(site as int, site + 8) =~= old(
                                image,
                            )@.subrange(site as int, site + 8));
                        }
                    }
                }
            }
            i = i + 1;
        }
        k = k + 1;
        proof {
            if k < n {
                assert(offsets@[k - 1] + 8 * spec_merged_code(objects@, merged@, k - 1).len()
                    <= offsets@[k as int]);
            }
        }
    }
    proof {
        assert forall|kk: int, ii: int|
            0 <= kk < merged@.len() && 0 <= ii < spec_merged_code(objects@, merged@, kk).len() && (
            #[trigger] spec_merged_code(objects@, merged@, kk)[ii]).call_target_function
                is Some implies spec_call_in_range(objects@, merged@, offsets@, kk, ii) by {
            assert(spec_region_rewritten(objects@, merged@, offsets@, old(image)@, image@, kk));
            let codek = spec_merged_code(objects@, merged@, kk);
            let suk = objects@[merged@[kk].1.0 as int].functions@[merged@[kk].1.1 as int].stack_usage as int;
            assert(spec_site_bytes_ok(
                merged@,
                offsets@,
                old(image)@,
                image@,
                offsets@[kk] + 8 * ii,
                codek[ii],
                suk,
            ));
            let t2 = codek[ii].call_target_function->0;
            assert(spec_call_site_rewritten(
                merged@,
                offsets@,
                image@,
                offsets@[kk] + 8 * ii,
                t2,
                suk,
            ));
            let k3 = choose|k3: int|
                0 <= k3 < merged@.len() && (#[trigger] merged@[k3]).1 == t2 && {
                    let diff = (offsets@[k3] - (offsets@[kk] + 8 * ii)) / 8 - 1;
                    &&& -32768 <= diff <= 32767
                    &&& image@.subrange(offsets@[kk] + 8 * ii, offsets@[kk] + 8 * ii + 8)
                        == spec_encode(spec_ja_call(diff as i16, suk))
                };
            assert(0 <= k3 < merged@.len() && merged@[k3].1 == t2 && {
                let diff = (offsets@[k3] - (offsets@[kk] + 8 * ii)) / 8 - 1;
                -32768 <= diff <= 32767
            });
        }
    }
    Ok(())
}

/// Some offset-table entry names a surviving function and its placement.
pub open spec fn spec_offset_entry_ok(
    objects: Seq<LocalObject>,
    merged: Seq<(Vec<u8>, (usize, usize))>,
    offsets: Seq<usize>,
    e: (Vec<u8>, i32),
) -> bool {
    exists|k: int|
        {
            &&& 0 <= k < merged.len()
            &&& (#[trigger] merged[k]).1.1 < 0x1_0000_0000_0000_0000
            &&& (merged[k].1.0 as int) < objects.len()
            &&& (merged[k].1.1 as int) < objects[merged[k].1.0 as int].functions@.len()
            &&& e.0@ == objects[merged[k].1.0 as int].functions@[merged[k].1.1 as int].name@
            &&& (offsets[k] as int) <= i32::MAX
            &&& e.1 == offsets[k] as i32
        }
}

/// Some table entry is keyed by `nm`.
pub open spec fn spec_table_has_name(t: Seq<(Vec<u8>, i32)>, nm: Seq<u8>) -> bool {
    exists|j: int| 0 <= j < t.len() && (#[trigger] t[j]).0@ == nm
}

/// Build the function offset table: each surviving function's bare name
/// bound to its byte offset in the code image; a repeated name replaces the
/// earlier entry.
pub fn emit_offset_table(
    objects: &Vec<LocalObject>,
    merged: &Vec<(Vec<u8>, (usize, usize))>,
    offsets: &Vec<usize>,
) -> (r: Result<Vec<(Vec<u8>, i32)>, LinkError>)
    requires
        offsets@.len() == merged@.len(),
        forall|k: int|
            0 <= k < merged@.len() ==> spec_merged_entry_ok(objects@, #[trigger] merged@[k]),
    ensures
        r is Ok ==> {
            let t = r->Ok_0;
            &&& forall|j: int|
                0 <= j < t@.len() ==> spec_offset_entry_ok(
                    objects@,
                    merged@,
                    offsets@,
                    #[trigger] t@[j],
                )
            &&& forall|k: int|
                0 <= k < merged@.len() ==> spec_table_has_name(
                    t@,
                    (#[trigger] objects@[merged@[k].1.0 as int].functions@[merged@[k].1.1 as int]).name@,
                )
            &&& forall|j1: int, j2: int|
                0 <= j1 < j2 < t@.len() ==> (#[trigger] t@[j1]).0@ != (#[trigger] t@[j2]).0@
        },
        r is Ok <==> (forall|k: int|
            0 <= k < merged@.len() ==> (#[trigger] offsets@[k] as int) <= i32::MAX),
        r is Err ==> r->Err_0.kind == LinkErrorKind::ImageTooLarge,
{
    let n = merged.len();
    let mut table: Vec<(Vec<u8>, i32)> = Vec::new();
    let mut k: usize = 0;
    while k < n
        invariant
            0 <= k <= n,
            n == merged@.len(),
            offsets@.len() == merged@.len(),
            forall|kk: int| 0 <= kk < k ==> (#[trigger] offsets@[kk] as int) <= i32::MAX,
            forall|kk: int|
                0 <= kk < merged@.len() ==> spec_merged_entry_ok(objects@, #[trigger] merged@[kk]),
            forall|j: int|
                0 <= j < table@.len() ==> spec_offset_entry_ok(
                    objects@,
                    merged@,
                    offsets@,
                    #[trigger] table@[j],
                ),
            forall|kk: int|
                0 <= kk < k ==> spec_table_has_name(
                    table@,
                    (#[trigger] objects@[merged@[kk].1.0 as int].functions@[merged@[kk].1.1 as int]).name@,
                ),
            forall|j1: int, j2: int|
                0 <= j1 < j2 < table@.len() ==> (#[trigger] table@[j1]).0@ != (
                #[trigger] table@[j2]).0@,
        decreases n - k,
    {
        let (o, f) = merged[k].1;
        proof {
            assert(spec_merged_entry_ok(objects@, merged@[k as int]));
        }
        if offsets[k] as u64 > i32::MAX as u64 {
            return Err(LinkError::new(LinkErrorKind::ImageTooLarge));
        }
        let nm = copy_bytes(&objects[o].functions[f].name);
        let val = offsets[k] as i32;
        let ghost pre = table@;
        // Insert, replacing an entry of the same name.
        let n_tab = table.len();
        let mut existing: usize = n_tab;
        let mut j: usize = 0;
        while j < n_tab && existing == n_tab
            invariant
                0 <= j <= n_tab,
                n_tab == table@.len(),
                table@ == pre,
                existing == n_tab || (existing < n_tab && table@[existing as int].0@ == nm@),
                existing == n_tab ==> forall|jj: int|
                    0 <= jj < j ==> (#[trigger] table@[jj]).0@ != nm@,
            decreases n_tab - j + (if existing == n_tab { 1int } else { 0int }),
        {
            if bytes_eq(&table[j].0, &nm) {
                existing = j;
            } else {
                j = j + 1;
            }
        }
        let ghost slot: int = if existing < n_tab {
            existing as int
        } else {
            pre.len() as int
        };
        let entry = (nm, val);
        if existing < n_tab {
            table.set(existing, entry);
        } else {
            table.push(entry);
        }
        proof {
            assert(table@[slot] == entry);
            assert(forall|jj: int| 0 <= jj < pre.len() && jj != slot ==> table@[jj] == pre[jj]);
            assert(forall|jj: int|
                0 <= jj < pre.len() ==> (#[trigger] table@[jj]).0@ == pre[jj].0@);
            assert(spec_offset_entry_ok(objects@, merged@, offsets@, entry)) by {
                assert(0 <= k < merged@.len() && (merged@[k as int]).1.1 < 0x1_0000_0000_0000_0000
                    && entry.0@ == objects@[merged@[k as int].1.0 as int].functions@[merged@[
                    k as int
                ].1.1 as int].name@ && (offsets@[k as int] as int) <= i32::MAX && entry.1
                    == offsets@[k as int] as i32);
            }
            assert forall|jj: int| 0 <= jj < table@.len() implies spec_offset_entry_ok(
                objects@,
                merged@,
                offsets@,
                #[trigger] table@[jj],
            ) by {
                if jj != slot {
                    assert(table@[jj] == pre[jj]);
                }
            }
            assert forall|kk: int|
                0 <= kk < k + 1 implies spec_table_has_name(
                table@,
                (#[trigger] objects@[merged@[kk].1.0 as int].functions@[merged@[kk].1.1 as int]).name@,
            ) by {
                if kk < k {
                    assert(spec_table_has_name(
                        pre,
                        objects@[merged@[kk].1.0 as int].functions@[merged@[kk].1.1 as int].name@,
                    ));
                    let jw = choose|jw: int|
                        0 <= jw < pre.len() && (#[trigger] pre[jw]).0@ == objects@[merged@[
                        kk
                        ].1.0 as int].functions@[merged@[kk].1.1 as int].name@;
                    assert(table@[jw].0@ == pre[jw].0@);
                } else {
                    assert(table@[slot].0@ == objects@[merged@[kk].1.0 as int].functions@[merged@[
                        kk
                    ].1.1 as int].name@);
                }
            }
            assert forall|j1: int, j2: int| 0 <= j1 < j2 < table@.len() implies (
            #[trigger] table@[j1]).0@ != (#[trigger] table@[j2]).0@ by {
                if j2 < pre.len() {
                    assert(table@[j1].0@ == pre[j1].0@);
                    assert(table@[j2].0@ == pre[j2].0@);
                } else {
                    assert(j2 == pre.len() && slot == j2);
                    assert(table@[j1].0@ == pre[j1].0@);
                    assert(pre[j1].0@ != nm@);
                }
            }
        }
        k = k + 1;
    }
    Ok(table)
}


/// A function called by a reachable function is reachable.
pub proof fn lemma_reachable_step_call(
    objects: Seq<LocalObject>,
    merged: Seq<(Vec<u8>, (usize, usize))>,
    roots: Seq<Vec<u8>>,
    k1: int,
    k2: int,
)
    requires
        spec_call_reachable(objects, merged, roots, k1),
        0 <= k2 < merged.len(),
        spec_calls(objects, merged, k1, k2),
    ensures
        spec_call_reachable(objects, merged, roots, k2),
{
    let path = choose|path: Seq<int>| spec_call_path(objects, merged, roots, path, k1);
    let path2 = path.push(k2);
    assert(path2.last() == k2);
    assert(path2[0] == path[0]);
    assert forall|t: int| 0 < t < path2.len() implies spec_calls(
        objects,
        merged,
        path2[t - 1],
        #[trigger] path2[t],
    ) by {
        if t < path.len() {
            assert(path2[t] == path[t]);
            assert(path2[t - 1] == path[t - 1]);
        } else {
            assert(path2[t] == k2);
            assert(path2[t - 1] == path.last());
        }
    }
    assert forall|t: int| 0 <= t < path2.len() implies 0 <= #[trigger] path2[t]
        < merged.len() by {
        if t < path.len() {
            assert(path2[t] == path[t]);
        }
    }
    assert(spec_call_path(objects, merged, roots, path2, k2));
}

impl GlobalLinker {
    /// Objects of this linker are well formed.
    pub open spec fn wf(self) -> bool {
        forall|o: int|
            0 <= o < self.objects@.len() ==> spec_local_object_wf(#[trigger] self.objects@[o])
    }

    /// A fresh linker with no objects.
    pub fn new(config: GlobalLinkerConfig) -> (r: GlobalLinker)
        ensures
            r.objects@.len() == 0,
            r.config == config,
            r.wf(),
    {
        GlobalLinker { config, objects: Vec::new() }
    }

    /// Locally link one object and add it to the set to be merged.
    pub fn add_object(&mut self, name: Vec<u8>, object_file: Vec<u8>) -> (r: Result<
        (),
        LinkError,
    >)
        requires
            old(self).wf(),
        ensures
            final(self).wf(),
            final(self).config == old(self).config,
            r is Ok <==> spec_object_linkable(object_file@),
            r is Ok ==> exists|obj: LocalObject|
                {
                    &&& final(self).objects@ == old(self).objects@.push(obj)
                    &&& obj.name@ == name@
                    &&& obj.raw@ == object_file@
                    &&& spec_local_object_wf(obj)
                },
            r is Err ==> final(self).objects@ == old(self).objects@,
    {
        let local_linker = LocalLinker::new(LocalLinkerConfig {  });
        let obj = match local_linker.link(name, object_file) {
            Ok(obj) => obj,
            Err(e) => {
                return Err(e);
            },
        };
        self.objects.push(obj);
        Ok(())
    }

    /// Run every phase and emit the image: place data sections, merge the
    /// function tables, resolve pseudo-calls and data relocations, eliminate
    /// dead code when roots are configured, lay the trampoline and the
    /// surviving functions out, rewrite calls and returns, and build the
    /// offset table.
    pub fn emit(&mut self) -> (r: Result<Image, LinkError>)
        requires
            old(self).wf(),
        ensures
            r is Ok ==> {
                let img = r->Ok_0;
                &&& img.code@.len() >= 104
                &&& img.code@.len() % 8 == 0
                &&& img.code@.subrange(0, 104) == spec_trampoline_bytes()
                &&& forall|j1: int, j2: int|
                    0 <= j1 < j2 < img.offset_table.func_offsets@.len() ==> (
                    #[trigger] img.offset_table.func_offsets@[j1]).0@ != (
                    #[trigger] img.offset_table.func_offsets@[j2]).0@
                &&& forall|j: int|
                    0 <= j < img.offset_table.func_offsets@.len() ==> 104 <= (
                    #[trigger] img.offset_table.func_offsets@[j]).1 && img.offset_table.func_offsets@[j].1 + 8
                        <= img.code@.len() && img.offset_table.func_offsets@[j].1 % 8 == 0
                &&& spec_link_certificate(
                    old(self).objects@,
                    old(self).config,
                    img.code@,
                    img.data@,
                    img.offset_table.func_offsets@,
                )
                &&& img.machine == old(self).config.target_machine
                &&& img.platform == old(self).config.host_platform
            },
            old(self).objects@.len() == 0 ==> r is Ok && r->Ok_0.code@
                == spec_trampoline_bytes() && r->Ok_0.data@.len() == 0
                && r->Ok_0.offset_table.func_offsets@.len() == 0,
            r is Ok ==> final(self).objects@.len() == 0
                && final(self).config.dce_roots == old(self).config.dce_roots
                && final(self).config.target_machine.name@.len() == 0
                && final(self).config.target_machine.version@.len() == 0
                && final(self).config.target_machine.helpers@.len() == 0
                && final(self).config.host_platform.data_offset == 0
                && final(self).config.host_platform.helpers@.len() == 0,
    {
        let mut objects: Vec<LocalObject> = Vec::new();
        core::mem::swap(&mut objects, &mut self.objects);
        let (code, data, func_offsets) = match link_objects_full(objects, &self.config) {
            Ok(x) => x,
            Err(e) => {
                return Err(e);
            },
        };
        let mut machine = TargetMachine::empty();
        core::mem::swap(&mut machine, &mut self.config.target_machine);
        let mut platform = HostPlatform::empty();
        core::mem::swap(&mut platform, &mut self.config.host_platform);
        Ok(Image {
            code,
            data,
            machine,
            platform,
            offset_table: OffsetTable { func_offsets },
        })
    }
}

/// What the emitted code and table say, given the placed functions: a packed
/// 8-aligned layout after the trampoline, each region first holding its
/// function's encoded body and then rewritten site by site, and a table of
/// the functions' bare names over their placements.
pub open spec fn spec_code_certificate(
    objs2: Seq<LocalObject>,
    merged: Seq<(Vec<u8>, (usize, usize))>,
    offsets: Seq<usize>,
    pre: Seq<u8>,
    code: Seq<u8>,
    table: Seq<(Vec<u8>, i32)>,
) -> bool {
    &&& offsets.len() == merged.len()
    &&& forall|k: int|
        0 <= k < merged.len() ==> #[trigger] offsets[k] as int == spec_layout_end(objs2, merged, k)
    &&& code.len() == spec_layout_end(objs2, merged, merged.len() as int)
    &&& pre.len() == code.len()
    &&& code.subrange(0, 104) == spec_trampoline_bytes()
    &&& pre.subrange(0, 104) == spec_trampoline_bytes()
    &&& forall|k: int|
        0 <= k < merged.len() ==> pre.subrange(
            #[trigger] offsets[k] as int,
            offsets[k] + 8 * spec_merged_code(objs2, merged, k).len(),
        ) == spec_flat_encode(spec_insns_of(spec_merged_code(objs2, merged, k)))
    &&& forall|k: int|
        0 <= k < merged.len() ==> #[trigger] spec_region_rewritten(
            objs2,
            merged,
            offsets,
            pre,
            code,
            k,
        )
    &&& forall|j: int|
        0 <= j < table.len() ==> spec_offset_entry_ok(objs2, merged, offsets, #[trigger] table[j])
    &&& forall|k: int|
        0 <= k < merged.len() ==> spec_table_has_name(
            table,
            (#[trigger] objs2[merged[k].1.0 as int].functions@[merged[k].1.1 as int]).name@,
        )
    &&& forall|j1: int, j2: int|
        0 <= j1 < j2 < table.len() ==> (#[trigger] table[j1]).0@ != (#[trigger] table[j2]).0@
}

/// The full account of a link: the data image is the objects' data sections
/// in order; the merged table covers the locally-linked functions; every
/// pseudo-call was resolved by its symbol and every data relocation applied
/// with its section's base; the surviving table is the reachable part when
/// roots are configured; and the code, its layout and the offset table
/// satisfy [`spec_code_certificate`].
pub open spec fn spec_link_certificate(
    objects: Seq<LocalObject>,
    config: GlobalLinkerConfig,
    code: Seq<u8>,
    data: Seq<u8>,
    table: Seq<(Vec<u8>, i32)>,
) -> bool {
    exists|cert:
        (
            Seq<(Vec<u8>, (usize, usize))>,
            Seq<LocalObject>,
            Seq<LocalObject>,
            Seq<(Vec<u8>, (usize, usize))>,
            Seq<usize>,
            Seq<u8>,
            Seq<(usize, usize, u64)>,
        )|
        #[trigger] spec_link_stages(objects, config, code, data, table, cert)
}

/// The staged account [`spec_link_certificate`] quantifies over: `cert` is
/// `(merged0, objs1, objs2, merged, offsets, pre, bases)`.
pub open spec fn spec_link_stages(
    objects: Seq<LocalObject>,
    config: GlobalLinkerConfig,
    code: Seq<u8>,
    data: Seq<u8>,
    table: Seq<(Vec<u8>, i32)>,
    cert: (
        Seq<(Vec<u8>, (usize, usize))>,
        Seq<LocalObject>,
        Seq<LocalObject>,
        Seq<(Vec<u8>, (usize, usize))>,
        Seq<usize>,
        Seq<u8>,
        Seq<(usize, usize, u64)>,
    ),
) -> bool {
    let (merged0, objs1, objs2, merged, offsets, pre, bases) = cert;
    &&& data == spec_data_image(objects, objects.len() as int)
    &&& forall|j: int|
        0 <= j < bases.len() ==> spec_data_base_ok(
            objects,
            data,
            config.host_platform.data_offset,
            #[trigger] bases[j],
        )
    &&& forall|o: int, sx: int|
        0 <= o < objects.len() && 0 <= sx < objects[o].elf.section_headers@.len()
            && spec_is_data_section(#[trigger] objects[o].elf.section_headers@[sx])
            ==> spec_has_data_base(bases, o, sx)
    &&& spec_merged_ok(objects, merged0)
    &&& objs1.len() == objects.len()
    &&& forall|o: int|
        0 <= o < objects.len() ==> spec_resolved_object(
            merged0,
            entries_view(config.host_platform.helpers@),
            entries_view(config.target_machine.helpers@),
            objects[o],
            o,
            #[trigger] objs1[o],
        )
    &&& objs2.len() == objs1.len()
    &&& forall|o: int|
        0 <= o < objs1.len() ==> spec_generic_object(objs1[o], #[trigger] objs2[o])
    &&& forall|o: int|
        0 <= o < objs1.len() ==> spec_relocs_applied(
            objs1[o].elf,
            bases,
            o,
            objs1[o].reloc@,
            objs1[o].functions@,
            (#[trigger] objs2[o]).functions@,
        )
    &&& match config.dce_roots {
        Some(roots) => {
            &&& forall|k2: int|
                0 <= k2 < merged.len() ==> spec_entry_reachable(
                    objs2,
                    merged0,
                    roots@,
                    #[trigger] merged[k2],
                )
            &&& forall|k: int|
                0 <= k < merged0.len() && spec_call_reachable(objs2, merged0, roots@, k)
                    ==> spec_merged_contains(merged, #[trigger] merged0[k])
            &&& forall|k1: int, k2: int|
                0 <= k1 < k2 < merged.len() ==> ((#[trigger] merged[k1]).1.0 < (
                #[trigger] merged[k2]).1.0 || (merged[k1].1.0 == merged[k2].1.0 && merged[k1].1.1
                    < merged[k2].1.1))
        },
        None => merged == merged0,
    }
    &&& spec_code_certificate(objs2, merged, offsets, pre, code, table)
}

/// Run the global phases over locally-linked objects, producing the code
/// image, the data image and the offset table.
#[verifier::rlimit(100)]
#[verifier::spinoff_prover]
pub fn link_objects_full(objects: Vec<LocalObject>, config: &GlobalLinkerConfig) -> (r: Result<
    (Vec<u8>, Vec<u8>, Vec<(Vec<u8>, i32)>),
    LinkError,
>)
    requires
        forall|o: int|
            0 <= o < objects@.len() ==> spec_local_object_wf(#[trigger] objects@[o]),
    ensures
        r is Ok ==> {
            let (code, data, table) = r->Ok_0;
            &&& code@.len() >= 104
            &&& code@.len() % 8 == 0
            &&& code@.subrange(0, 104) == spec_trampoline_bytes()
            &&& forall|j1: int, j2: int|
                0 <= j1 < j2 < table@.len() ==> (#[trigger] table@[j1]).0@ != (
                #[trigger] table@[j2]).0@
            &&& forall|j: int|
                0 <= j < table@.len() ==> 104 <= (#[trigger] table@[j]).1 && table@[j].1 + 8
                    <= code@.len() && table@[j].1 % 8 == 0
            &&& spec_link_certificate(objects@, *config, code@, data@, table@)
        },
        objects@.len() == 0 ==> r is Ok && r->Ok_0.0@ == spec_trampoline_bytes()
            && r->Ok_0.1@.len() == 0 && r->Ok_0.2@.len() == 0,
{
    let ghost orig_objects = objects@;

    // Data image.
    let (data, data_bases) = match emit_data(&objects, config.host_platform.data_offset) {
        Ok(x) => x,
        Err(e) => {
            proof {
                if objects@.len() == 0 {
                    assert(spec_data_image(objects@, 0).len() == 0);
                    assert(false);
                }
            }
            return Err(e);
        },
    };

    // Merged function table.
    let n_objs = objects.len();
    let mut o: usize = 0;
    while o < n_objs
        invariant
            0 <= o <= n_objs,
            n_objs == objects@.len(),
            objects@ == orig_objects,
            forall|oo: int|
                0 <= oo < o ==> (#[trigger] objects@[oo].functions@.len()) < 0x1000_0000,
        decreases n_objs - o,
    {
        if objects[o].functions.len() >= 0x1000_0000 {
            return Err(LinkError::new(LinkErrorKind::TooManyFunctions));
        }
        o = o + 1;
    }
    let merged0 = match populate_all_functions(&objects) {
        Ok(x) => x,
        Err(e) => {
            proof {
                if objects@.len() == 0 {
                    assert(spec_merged_keys_unique(objects@));
                    assert(false);
                }
            }
            return Err(e);
        },
    };

    // Pseudo-call resolution.
    let objs1 = match resolve_pseudo_calls(
        objects,
        &merged0,
        &config.host_platform.helpers,
        &config.target_machine.helpers,
    ) {
        Ok(x) => x,
        Err(e) => {
            proof {
                if orig_objects.len() == 0 {
                    assert(false);
                }
            }
            return Err(e);
        },
    };
    let ghost g_objs1 = objs1@;

    // Data relocations.
    let objs2 = match resolve_generic_relocs(objs1, &data_bases) {
        Ok(x) => x,
        Err(e) => {
            proof {
                if orig_objects.len() == 0 {
                    assert(false);
                }
            }
            return Err(e);
        },
    };

    proof {
        lemma_emit_state(
            orig_objects,
            g_objs1,
            objs2@,
            merged0@,
            entries_view(config.host_platform.helpers@),
            entries_view(config.target_machine.helpers@),
        );
    }

    // Dead-code elimination.
    let ghost g_merged0 = merged0@;
    let merged = match &config.dce_roots {
        Some(roots) => {
            let m = match global_dce(&objs2, merged0, roots) {
                Ok(x) => x,
                Err(e) => {
                    proof {
                        if orig_objects.len() == 0 {
                            assert(g_merged0.len() == 0) by {
                                if g_merged0.len() > 0 {
                                    assert(spec_merged_entry_ok(orig_objects, g_merged0[0]));
                                }
                            }
                            assert(false);
                        }
                    }
                    return Err(e);
                },
            };
            proof {
                lemma_dce_closure(objs2@, g_merged0, roots@, m@);
            }
            m
        },
        None => merged0,
    };
    proof {
        assert forall|k2: int| 0 <= k2 < merged@.len() implies spec_merged_contains(
            g_merged0,
            #[trigger] merged@[k2],
        ) by {
            if merged@ =~= g_merged0 {
                assert(merged@[k2] == g_merged0[k2]);
            }
        }
        lemma_merged_after_dce(objs2@, g_merged0, merged@);
        if !(config.dce_roots is Some) {
            assert(merged@ == g_merged0);
            assert forall|k: int, i: int|
                0 <= k < merged@.len() && 0 <= i < spec_merged_code(objs2@, merged@, k).len() && (
                #[trigger] spec_merged_code(objs2@, merged@, k)[i]).call_target_function
                    is Some implies ({
                let t = spec_merged_code(objs2@, merged@, k)[i].call_target_function->0;
                spec_merged_has_pair(merged@, t.0 as int, t.1 as int)
            }) by {
                assert(spec_merged_entry_ok(objs2@, merged@[k]));
            }
        }
    }

    proof {
        if objects@.len() == 0 {
            assert(g_merged0.len() == 0) by {
                if g_merged0.len() > 0 {
                    assert(spec_merged_entry_ok(objects@, g_merged0[0]));
                }
            }
            assert(merged@.len() == 0) by {
                if merged@.len() > 0 {
                    assert(spec_merged_contains(g_merged0, merged@[0]));
                    let kw = choose|kw: int|
                        0 <= kw < g_merged0.len() && #[trigger] g_merged0[kw] == merged@[0];
                }
            }
        }
    }
    let (image, func_offsets) = match emit_code_and_table(&objs2, &merged) {
        Ok(x) => x,
        Err(e) => {
            proof {
                if objects@.len() == 0 {
                    assert(false);
                }
            }
            return Err(e);
        },
    };
    proof {
        // The staged account of this link.
        let cc = choose|offsets2: Seq<usize>, pre2: Seq<u8>|
            #[trigger] spec_code_certificate(
                objs2@,
                merged@,
                offsets2,
                pre2,
                image@,
                func_offsets@,
            );
        let full = (g_merged0, g_objs1, objs2@, merged@, cc.0, cc.1, data_bases@);
        assert(spec_link_stages(objects@, *config, image@, data@, func_offsets@, full));
        assert(spec_link_certificate(objects@, *config, image@, data@, func_offsets@));
        if objects@.len() == 0 {
            assert(spec_layout_end(objs2@, merged@, 0) == 104);
            assert(image@ =~= spec_trampoline_bytes()) by {
                assert(image@.len() == 104);
                assert(image@.subrange(0, 104) == spec_trampoline_bytes());
                assert(image@ =~= image@.subrange(0, 104));
            }
            assert(data@.len() == 0) by {
                assert(data@ == spec_data_image(objects@, 0));
            }
            assert(func_offsets@.len() == 0) by {
                if func_offsets@.len() > 0 {
                    assert(spec_offset_entry_ok(objs2@, merged@, cc.0, func_offsets@[0]));
                    let kw = choose|kw: int|
                        {
                            &&& 0 <= kw < merged@.len()
                            &&& (#[trigger] merged@[kw]).1.1 < 0x1_0000_0000_0000_0000
                            &&& (merged@[kw].1.0 as int) < objs2@.len()
                            &&& (merged@[kw].1.1 as int) < objs2@[merged@[kw].1.0 as int].functions@.len()
                            &&& func_offsets@[0].0@ == objs2@[merged@[kw].1.0 as int].functions@[merged@[kw].1.1 as int].name@
                            &&& (cc.0[kw] as int) <= i32::MAX
                            &&& func_offsets@[0].1 == cc.0[kw] as i32
                        };
                }
            }
        }
    }
    Ok((image, data, func_offsets))
}

/// Lay out the trampoline and the merged functions, rewrite calls and
/// returns, and build the offset table.
#[verifier::rlimit(100)]
#[verifier::spinoff_prover]
fn emit_code_and_table(
    objs2: &Vec<LocalObject>,
    merged: &Vec<(Vec<u8>, (usize, usize))>,
) -> (r: Result<(Vec<u8>, Vec<(Vec<u8>, i32)>), LinkError>)
    requires
        forall|k: int|
            0 <= k < merged@.len() ==> spec_merged_entry_ok(objs2@, #[trigger] merged@[k]),
        forall|k1: int, k2: int|
            0 <= k1 < k2 < merged@.len() ==> (#[trigger] merged@[k1]).1 != (
            #[trigger] merged@[k2]).1,
        forall|k: int, i: int|
            0 <= k < merged@.len() && 0 <= i < spec_merged_code(objs2@, merged@, k).len() && (
            #[trigger] spec_merged_code(objs2@, merged@, k)[i]).call_target_function is Some ==> ({
                let t = spec_merged_code(objs2@, merged@, k)[i].call_target_function->0;
                spec_merged_has_pair(merged@, t.0 as int, t.1 as int)
            }),
        forall|k: int| 0 <= k < merged@.len() ==> #[trigger] spec_emittable(objs2@, merged@, k),
        forall|k: int|
            0 <= k < merged@.len() ==> (#[trigger] objs2@[merged@[k].1.0 as int].functions@[merged@[k].1.1 as int]).stack_usage
                <= 0x8000,
    ensures
        r is Ok ==> {
            let (code, table) = r->Ok_0;
            &&& code@.len() >= 104
            &&& code@.len() % 8 == 0
            &&& code@.subrange(0, 104) == spec_trampoline_bytes()
            &&& forall|j1: int, j2: int|
                0 <= j1 < j2 < table@.len() ==> (#[trigger] table@[j1]).0@ != (
                #[trigger] table@[j2]).0@
            &&& forall|j: int|
                0 <= j < table@.len() ==> 104 <= (#[trigger] table@[j]).1 && table@[j].1 + 8
                    <= code@.len() && table@[j].1 % 8 == 0
            &&& exists|offsets: Seq<usize>, pre: Seq<u8>|
                #[trigger] spec_code_certificate(objs2@, merged@, offsets, pre, code@, table@)
        },
        merged@.len() == 0 ==> r is Ok,
{
    // Code image.
    let mut image: Vec<u8> = Vec::new();
    emit_entry_trampoline(&mut image);
    let ghost tramp = image@;
    let offsets = match emit_image(&objs2, &merged, &mut image) {
        Ok(x) => x,
        Err(e) => {
            proof {
                if merged@.len() == 0 {
                    assert(spec_layout_end(objs2@, merged@, 0) == 104);
                    assert(false);
                }
            }
            return Err(e);
        },
    };
    let ghost pre_rewrite = image@;
    match rewrite_image_call_return(&objs2, &merged, &offsets, &mut image) {
        Ok(x) => x,
        Err(e) => {
            return Err(e);
        },
    };
    let func_offsets = match emit_offset_table(&objs2, &merged, &offsets) {
        Ok(x) => x,
        Err(e) => {
            return Err(e);
        },
    };

    proof {
        assert(image@.subrange(0, 104) =~= pre_rewrite.subrange(0, 104));
        assert(pre_rewrite.subrange(0, 104) == tramp);
        assert(tramp =~= spec_trampoline_bytes());
        assert forall|k: int| 0 <= k < merged@.len() implies (#[trigger] spec_merged_code(
            objs2@,
            merged@,
            k,
        )).len() >= 1 by {
            assert(spec_emittable(objs2@, merged@, k));
        }
        lemma_table_bounds(objs2@, merged@, offsets@, func_offsets@, image@.len() as int);
        assert(spec_code_certificate(
            objs2@,
            merged@,
            offsets@,
            pre_rewrite,
            image@,
            func_offsets@,
        )) by {
            assert(image@.subrange(0, 104) == spec_trampoline_bytes());
            assert(pre_rewrite.subrange(0, 104) == spec_trampoline_bytes());
        }
        assert(exists|offsets2: Seq<usize>, pre2: Seq<u8>|
            #[trigger] spec_code_certificate(
                objs2@,
                merged@,
                offsets2,
                pre2,
                image@,
                func_offsets@,
            ));
    }
    Ok((image, func_offsets))
}

/// After dead-code elimination, every surviving function's call targets are
/// themselves surviving: a call from a reachable function makes its target
/// reachable, and every reachable function is kept.
pub proof fn lemma_dce_closure(
    objs2: Seq<LocalObject>,
    morig: Seq<(Vec<u8>, (usize, usize))>,
    roots: Seq<Vec<u8>>,
    merged: Seq<(Vec<u8>, (usize, usize))>,
)
    requires
        forall|k2: int|
            0 <= k2 < merged.len() ==> spec_entry_reachable(
                objs2,
                morig,
                roots,
                #[trigger] merged[k2],
            ),
        forall|k: int|
            0 <= k < morig.len() && spec_call_reachable(objs2, morig, roots, k)
                ==> spec_merged_contains(merged, #[trigger] morig[k]),
        forall|k: int| 0 <= k < morig.len() ==> spec_merged_entry_ok(objs2, #[trigger] morig[k]),
        forall|o: int, f: int, i: int|
            0 <= o < objs2.len() && 0 <= f < objs2[o].functions@.len() && 0 <= i
                < objs2[o].functions@[f].code@.len() && (
            #[trigger] objs2[o].functions@[f].code@[i]).call_target_function is Some ==> ({
                let t = objs2[o].functions@[f].code@[i].call_target_function->0;
                spec_merged_has_pair(morig, t.0 as int, t.1 as int)
            }),
    ensures
        forall|k: int, i: int|
            0 <= k < merged.len() && 0 <= i < spec_merged_code(objs2, merged, k).len() && (
            #[trigger] spec_merged_code(objs2, merged, k)[i]).call_target_function is Some ==> ({
                let t = spec_merged_code(objs2, merged, k)[i].call_target_function->0;
                spec_merged_has_pair(merged, t.0 as int, t.1 as int)
            }),
{
    assert forall|k: int, i: int|
        0 <= k < merged.len() && 0 <= i < spec_merged_code(objs2, merged, k).len() && (
        #[trigger] spec_merged_code(objs2, merged, k)[i]).call_target_function is Some implies ({
        let t = spec_merged_code(objs2, merged, k)[i].call_target_function->0;
        spec_merged_has_pair(merged, t.0 as int, t.1 as int)
    }) by {
        assert(spec_entry_reachable(objs2, morig, roots, merged[k]));
        let kw = choose|kw: int|
            0 <= kw < morig.len() && #[trigger] morig[kw] == merged[k] && spec_call_reachable(
                objs2,
                morig,
                roots,
                kw,
            );
        assert(spec_merged_entry_ok(objs2, morig[kw]));
        let o = morig[kw].1.0 as int;
        let f = morig[kw].1.1 as int;
        let t = objs2[o].functions@[f].code@[i].call_target_function->0;
        assert(spec_merged_has_pair(morig, t.0 as int, t.1 as int));
        let kt = choose|kt: int|
            0 <= kt < morig.len() && (#[trigger] morig[kt]).1.0 == t.0 as int && morig[kt].1.1
                == t.1 as int;
        assert(spec_call_at(objs2, morig, kw, kt, i));
        assert(spec_calls(objs2, morig, kw, kt));
        lemma_reachable_step_call(objs2, morig, roots, kw, kt);
        assert(spec_merged_contains(merged, morig[kt]));
        let k3 = choose|k3: int| 0 <= k3 < merged.len() && #[trigger] merged[k3] == morig[kt];
        assert(merged[k3].1.0 == t.0 && merged[k3].1.1 == t.1);
    }
}

/// Every offset-table entry lies inside the code image on an instruction
/// boundary past the trampoline.
pub proof fn lemma_table_bounds(
    objs2: Seq<LocalObject>,
    merged: Seq<(Vec<u8>, (usize, usize))>,
    offsets: Seq<usize>,
    table: Seq<(Vec<u8>, i32)>,
    image_len: int,
)
    requires
        forall|j: int|
            0 <= j < table.len() ==> spec_offset_entry_ok(objs2, merged, offsets, #[trigger] table[j]),
        offsets.len() == merged.len(),
        forall|k: int|
            0 <= k < merged.len() ==> {
                let code = #[trigger] spec_merged_code(objs2, merged, k);
                code.len() >= 1
            },
        forall|k: int|
            0 <= k < merged.len() ==> {
                let code = spec_merged_code(objs2, merged, k);
                &&& 104 <= #[trigger] offsets[k]
                &&& offsets[k] % 8 == 0
                &&& offsets[k] + 8 * code.len() <= image_len
            },
    ensures
        forall|j: int|
            0 <= j < table.len() ==> 104 <= (#[trigger] table[j]).1 && table[j].1 + 8 <= image_len
                && table[j].1 % 8 == 0,
{
    assert forall|j: int| 0 <= j < table.len() implies 104 <= (#[trigger] table[j]).1 && table[j].1
        + 8 <= image_len && table[j].1 % 8 == 0 by {
        let e = table[j];
        assert(spec_offset_entry_ok(objs2, merged, offsets, e));
        let k = choose|k: int|
            {
                &&& 0 <= k < merged.len()
                &&& (#[trigger] merged[k]).1.1 < 0x1_0000_0000_0000_0000
                &&& (merged[k].1.0 as int) < objs2.len()
                &&& (merged[k].1.1 as int) < objs2[merged[k].1.0 as int].functions@.len()
                &&& e.0@ == objs2[merged[k].1.0 as int].functions@[merged[k].1.1 as int].name@
                &&& (offsets[k] as int) <= i32::MAX
                &&& e.1 == offsets[k] as i32
            };
        assert(104 <= offsets[k]);
        assert(spec_merged_code(objs2, merged, k).len() >= 1);
        assert(offsets[k] + 8 * spec_merged_code(objs2, merged, k).len() <= image_len);
    }
}

/// Facts the later phases need of the objects after both resolution passes:
/// the merged table still describes them, their functions stay well formed,
/// and every annotated call target names a merged entry.
pub proof fn lemma_emit_state(
    orig: Seq<LocalObject>,
    objs1: Seq<LocalObject>,
    objs2: Seq<LocalObject>,
    merged: Seq<(Vec<u8>, (usize, usize))>,
    hostv: Seq<(Seq<u8>, i32)>,
    targetv: Seq<(Seq<u8>, i32)>,
)
    requires
        forall|o: int| 0 <= o < orig.len() ==> spec_local_object_wf(#[trigger] orig[o]),
        spec_merged_ok(orig, merged),
        objs1.len() == orig.len(),
        forall|o: int|
            0 <= o < orig.len() ==> spec_resolved_object(
                merged,
                hostv,
                targetv,
                orig[o],
                o,
                #[trigger] objs1[o],
            ),
        objs2.len() == objs1.len(),
        forall|o: int|
            0 <= o < objs1.len() ==> spec_generic_object(objs1[o], #[trigger] objs2[o]),
    ensures
        forall|k: int|
            0 <= k < merged.len() ==> spec_merged_entry_ok(objs2, #[trigger] merged[k]),
        forall|k1: int, k2: int|
            0 <= k1 < k2 < merged.len() ==> (#[trigger] merged[k1]).1 != (#[trigger] merged[k2]).1,
        forall|o: int, f: int, i: int|
            0 <= o < objs2.len() && 0 <= f < objs2[o].functions@.len() && 0 <= i
                < objs2[o].functions@[f].code@.len() && (
            #[trigger] objs2[o].functions@[f].code@[i]).call_target_function is Some ==> ({
                let t = objs2[o].functions@[f].code@[i].call_target_function->0;
                spec_merged_has_pair(merged, t.0 as int, t.1 as int)
            }),
        forall|k: int| 0 <= k < merged.len() ==> #[trigger] spec_emittable(objs2, merged, k),
        forall|k: int|
            0 <= k < merged.len() ==> (#[trigger] objs2[merged[k].1.0 as int].functions@[merged[k].1.1 as int]).stack_usage
                <= 0x8000,
        forall|k: int|
            0 <= k < merged.len() ==> {
                let code = #[trigger] spec_merged_code(objs2, merged, k);
                code.len() >= 1 && code.last().insn.opc == EXIT
                    && code.last().call_target_function is None
            },
{
    assert forall|k: int| 0 <= k < merged.len() implies spec_merged_entry_ok(
        objs2,
        #[trigger] merged[k],
    ) by {
        assert(spec_merged_entry_ok(orig, merged[k]));
        let o = merged[k].1.0 as int;
        let f = merged[k].1.1 as int;
        assert(spec_resolved_object(merged, hostv, targetv, orig[o], o, objs1[o]));
        assert(spec_resolved_function(merged, hostv, targetv, orig[o], o, f, objs1[o].functions@[f]));
        assert(spec_generic_object(objs1[o], objs2[o]));
        assert(spec_imm_only_function(objs1[o].functions@[f], objs2[o].functions@[f]));
        assert(objs2[o].name@ == orig[o].name@);
        assert(objs2[o].functions@[f].name@ == orig[o].functions@[f].name@);
        assert(objs2[o].functions@[f].global == orig[o].functions@[f].global);
    }
    assert forall|k1: int, k2: int| 0 <= k1 < k2 < merged.len() implies (#[trigger] merged[k1]).1
        != (#[trigger] merged[k2]).1 by {
    }
    assert forall|o: int, f: int, i: int|
        0 <= o < objs2.len() && 0 <= f < objs2[o].functions@.len() && 0 <= i
            < objs2[o].functions@[f].code@.len() && (
        #[trigger] objs2[o].functions@[f].code@[i]).call_target_function is Some implies ({
        let t = objs2[o].functions@[f].code@[i].call_target_function->0;
        spec_merged_has_pair(merged, t.0 as int, t.1 as int)
    }) by {
        assert(spec_resolved_object(merged, hostv, targetv, orig[o], o, objs1[o]));
        assert(spec_resolved_function(merged, hostv, targetv, orig[o], o, f, objs1[o].functions@[f]));
        assert(spec_generic_object(objs1[o], objs2[o]));
        assert(spec_imm_only_function(objs1[o].functions@[f], objs2[o].functions@[f]));
        assert(spec_imm_only_insn(
            objs1[o].functions@[f].code@[i],
            objs2[o].functions@[f].code@[i],
        ));
        assert(objs2[o].functions@[f].code@[i].call_target_function
            == objs1[o].functions@[f].code@[i].call_target_function);
        let a = orig[o].functions@[f].code@[i];
        let b = objs1[o].functions@[f].code@[i];
        if a.insn.opc == CALL && a.insn.src == 1 {
            assert(spec_call_resolved(merged, hostv, targetv, orig[o], o, f, a, b));
            match spec_reloc_at_key(orig[o].reloc@, f, a.original_offset as int) {
                Some(rel) => {
                    let sym = orig[o].elf.syms@[rel.r_sym as int];
                    let nm = spec_strtab_at(orig[o].elf.shdr_strtab@, sym.st_name as int);
                    lemma_lookup_pair_member(merged, nm);
                    lemma_lookup_pair_member(merged, spec_qualified(orig[o].name@, nm));
                    if b.call_target_function is Some {
                        assert(spec_lookup(entries_view(merged), nm) is Some || spec_lookup(
                            entries_view(merged),
                            spec_qualified(orig[o].name@, nm),
                        ) is Some);
                    }
                },
                None => {
                    let t = orig[o].functions@[f].offset + a.original_offset + (a.insn.imm + 1)
                        * 8;
                    lemma_function_at_member(
                        orig[o].functions@,
                        merged,
                        o,
                        orig[o].functions@[f].section_index as int,
                        t,
                        merged.len() as int,
                    );
                },
            }
        } else {
            assert(b == a);
            assert(a.call_target_function is None);
        }
    }
    assert forall|k: int| 0 <= k < merged.len() implies #[trigger] spec_emittable(objs2, merged, k)
        && (objs2[merged[k].1.0 as int].functions@[merged[k].1.1 as int]).stack_usage <= 0x8000 && ({
        let code = spec_merged_code(objs2, merged, k);
        code.len() >= 1 && code.last().insn.opc == EXIT
            && code.last().call_target_function is None
    }) by {
        assert(spec_merged_entry_ok(orig, merged[k]));
        let o = merged[k].1.0 as int;
        let f = merged[k].1.1 as int;
        let f0 = orig[o].functions@[f];
        let f1 = objs1[o].functions@[f];
        let f2 = objs2[o].functions@[f];
        assert(spec_function_wf(f0));
        assert(spec_resolved_object(merged, hostv, targetv, orig[o], o, objs1[o]));
        assert(spec_resolved_function(merged, hostv, targetv, orig[o], o, f, f1));
        assert(spec_generic_object(objs1[o], objs2[o]));
        assert(spec_imm_only_function(f1, f2));
        assert(f2.code@.len() == f0.code@.len());
        assert(f2.stack_usage == f0.stack_usage);
        assert forall|i: int| 0 <= i < f2.code@.len() implies (#[trigger] f2.code@[i]).insn.wf()
            && (f0.code@[i].insn.opc == EXIT ==> f2.code@[i].insn.opc == EXIT
            && f2.code@[i].call_target_function is None) by {
            let a = f0.code@[i];
            let b = f1.code@[i];
            assert(spec_imm_only_insn(b, f2.code@[i]));
            assert(a.insn.wf());
            if a.insn.opc == CALL && a.insn.src == 1 {
                assert(spec_call_resolved(merged, hostv, targetv, orig[o], o, f, a, b));
                assert(b.insn.dst == a.insn.dst);
                assert(b.insn.src == a.insn.src || b.insn.src == 0);
            } else {
                assert(b == a);
                assert(a.call_target_function is None);
            }
        }
        assert(f2.code@.last().insn.opc == EXIT
            && f2.code@.last().call_target_function is None) by {
            let li = f2.code@.len() - 1;
            assert(f0.code@[li].insn.opc == EXIT);
        }
    }
}

/// The surviving merged table keeps the properties of the full one.
pub proof fn lemma_merged_after_dce(
    objs2: Seq<LocalObject>,
    merged0: Seq<(Vec<u8>, (usize, usize))>,
    merged: Seq<(Vec<u8>, (usize, usize))>,
)
    requires
        forall|k: int|
            0 <= k < merged0.len() ==> spec_merged_entry_ok(objs2, #[trigger] merged0[k]),
        forall|k: int| 0 <= k < merged0.len() ==> #[trigger] spec_emittable(objs2, merged0, k),
        forall|k: int|
            0 <= k < merged0.len() ==> (#[trigger] objs2[merged0[k].1.0 as int].functions@[merged0[k].1.1 as int]).stack_usage
                <= 0x8000,
        forall|k2: int|
            0 <= k2 < merged.len() ==> spec_merged_contains(merged0, #[trigger] merged[k2]),
    ensures
        forall|k: int| 0 <= k < merged.len() ==> spec_merged_entry_ok(objs2, #[trigger] merged[k]),
        forall|k: int| 0 <= k < merged.len() ==> #[trigger] spec_emittable(objs2, merged, k),
        forall|k: int|
            0 <= k < merged.len() ==> (#[trigger] objs2[merged[k].1.0 as int].functions@[merged[k].1.1 as int]).stack_usage
                <= 0x8000,
{
    assert forall|k: int| 0 <= k < merged.len() implies spec_merged_entry_ok(
        objs2,
        #[trigger] merged[k],
    ) && #[trigger] spec_emittable(objs2, merged, k) && (objs2[merged[k].1.0 as int].functions@[
        merged[k].1.1 as int
    ]).stack_usage <= 0x8000 by {
        assert(spec_merged_contains(merged0, merged[k]));
        let kw = choose|kw: int| 0 <= kw < merged0.len() && #[trigger] merged0[kw] == merged[k];
        assert(spec_merged_entry_ok(objs2, merged0[kw]));
        assert(spec_emittable(objs2, merged0, kw));
        assert(spec_merged_code(objs2, merged0, kw) == spec_merged_code(objs2, merged, k));
    }
}

} // verus!
