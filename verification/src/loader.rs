//! The user-app loader: resolving a path through script indirections,
//! parsing an ELF image's program headers, mapping its loadable segments,
//! and laying out the initial stack with argv/envp and the auxiliary
//! vector.
//!
//! The filesystem is an external collaborator: it enters as an explicit
//! table of file contents, so every decision the loader makes — which
//! file to read next, where each segment lands, what the child finds on
//! its stack — is a function of plain values.

use vstd::prelude::*;

use crate::errno::LinuxError;
use crate::mm::{
    AddressSpace, MapFlags, PAGE_SIZE_4K, USER_HEAP_BASE, USER_HEAP_SIZE, USER_INTERP_BASE,
    USER_SPACE_BASE, USER_SPACE_SIZE, USER_STACK_SIZE, USER_STACK_TOP, copy_bytes, zeroed,
};

verus! {

/// ELF program header type: loadable segment.
pub const PT_LOAD: u32 = 1;
/// ELF program header type: dynamic-linker (interpreter) path.
pub const PT_INTERP: u32 = 3;
/// ELF file type: position-independent (shared object) image.
pub const ET_DYN: u16 = 3;

/// The little-endian 16-bit value at `off`.
pub open spec fn le16(s: Seq<u8>, off: int) -> int {
    s[off] + 0x100 * s[off + 1]
}

/// The little-endian 32-bit value at `off`.
pub open spec fn le32(s: Seq<u8>, off: int) -> int {
    s[off] + 0x100 * s[off + 1] + 0x1_0000 * s[off + 2] + 0x100_0000 * s[off + 3]
}

/// The little-endian 64-bit value at `off`.
pub open spec fn le64(s: Seq<u8>, off: int) -> int {
    le32(s, off) + 0x1_0000_0000 * le32(s, off + 4)
}

/// Reads the little-endian 16-bit value at `off`.
pub fn read_u16(data: &Vec<u8>, off: usize) -> (r: u16)
    requires
        off + 2 <= data@.len(),
    ensures
        r == le16(data@, off as int),
{
    let n = data.len();
    proof {
        assert(off + 2 <= n);
    }
    let b0 = data[off] as u32;
    let b1 = data[off + 1] as u32;
    (b0 + 0x100 * b1) as u16
}

/// Reads the little-endian 32-bit value at `off`.
pub fn read_u32(data: &Vec<u8>, off: usize) -> (r: u32)
    requires
        off + 4 <= data@.len(),
    ensures
        r == le32(data@, off as int),
{
    let n = data.len();
    proof {
        assert(off + 4 <= n);
    }
    let b0 = data[off] as u64;
    let b1 = data[off + 1] as u64;
    let b2 = data[off + 2] as u64;
    let b3 = data[off + 3] as u64;
    (b0 + 0x100 * b1 + 0x1_0000 * b2 + 0x100_0000 * b3) as u32
}

/// Reads the little-endian 64-bit value at `off`.
pub fn read_u64(data: &Vec<u8>, off: usize) -> (r: u64)
    requires
        off + 8 <= data@.len(),
    ensures
        r == le64(data@, off as int),
{
    let n = data.len();
    proof {
        assert(off + 8 <= n);
    }
    let lo = read_u32(data, off) as u64;
    let hi = read_u32(data, off + 4) as u64;
    proof {
        assert(lo <= 0xFFFF_FFFF && hi <= 0xFFFF_FFFF);
    }
    lo + 0x1_0000_0000 * hi
}

/// One loadable ELF segment, with its load bias already applied.
#[derive(Clone, Copy, Debug, PartialEq, Eq, Structural)]
pub struct ElfSegment {
    /// Virtual load address.
    pub vaddr: usize,
    /// Offset of the file-backed bytes in the image.
    pub offset: usize,
    /// Number of file-backed bytes.
    pub filesz: usize,
    /// Size of the segment in memory; the tail beyond `filesz` is
    /// zero-filled.
    pub memsz: usize,
    /// Mapping permissions the segment requests.
    pub flags: MapFlags,
}

/// A parsed ELF image: its entry point (bias applied), its loadable
/// segments, and the dynamic-linker path a `PT_INTERP` header names.
#[derive(Debug, PartialEq, Eq)]
pub struct ElfImage {
    /// Entry point of the image.
    pub entry: usize,
    /// The loadable segments, in header order.
    pub segments: Vec<ElfSegment>,
    /// The interpreter path, without its terminating nul, if any.
    pub interp: Option<Vec<u8>>,
}

/// The mapping permissions encoded in a program header's flag word.
pub open spec fn seg_flags_of(p_flags: u32) -> MapFlags {
    MapFlags {
        read: p_flags & 4 != 0,
        write: p_flags & 2 != 0,
        execute: p_flags & 1 != 0,
        user: true,
    }
}

/// Whether the `PT_LOAD` header at `off` passes the loader's checks: the
/// file-backed bytes lie inside the image, the in-memory image is no
/// smaller than the file-backed part, the segment's address arithmetic
/// cannot overflow, and the virtual address and file offset agree modulo
/// the page size.
pub open spec fn load_seg_ok(s: Seq<u8>, off: int, bias: int) -> bool {
    let p_offset = le64(s, off + 8);
    let p_vaddr = le64(s, off + 16);
    let p_filesz = le64(s, off + 32);
    let p_memsz = le64(s, off + 40);
    &&& p_offset + p_filesz <= s.len()
    &&& p_filesz <= p_memsz
    &&& p_vaddr + bias + p_memsz + 2 * PAGE_SIZE_4K <= usize::MAX
    &&& (p_vaddr + bias) % (PAGE_SIZE_4K as int) == p_offset % (PAGE_SIZE_4K as int)
}

/// The segment the `PT_LOAD` header at `off` describes.
pub open spec fn seg_of(s: Seq<u8>, off: int, bias: int) -> ElfSegment {
    ElfSegment {
        vaddr: (le64(s, off + 16) + bias) as usize,
        offset: le64(s, off + 8) as usize,
        filesz: le64(s, off + 32) as usize,
        memsz: le64(s, off + 40) as usize,
        flags: seg_flags_of(le32(s, off + 4) as u32),
    }
}

/// Whether the `PT_INTERP` contents at `[off, off+len)` are a proper
/// nul-terminated path: non-empty, ending in the one nul byte.
pub open spec fn interp_ok(s: Seq<u8>, off: int, len: int) -> bool {
    &&& len >= 1
    &&& s[off + len - 1] == 0
    &&& forall|p: int| off <= p < off + len - 1 ==> s[p] != 0
}

/// Walks the program headers from index `i`: the loadable segments in
/// header order and the first interpreter path found, or the error the
/// first bad header produces (`ENOEXEC` for malformed structure,
/// `EINVAL` for a malformed interpreter path).
pub open spec fn parse_phdrs(
    s: Seq<u8>,
    phoff: int,
    phentsize: int,
    i: int,
    n: int,
    bias: int,
) -> Result<(Seq<ElfSegment>, Option<Seq<u8>>), LinuxError>
    decreases n - i,
{
    if i >= n {
        Ok((Seq::empty(), None))
    } else {
        let off = phoff + i * phentsize;
        if !(0 <= off && off + 56 <= s.len()) {
            Err(LinuxError::ENOEXEC)
        } else if le32(s, off) == PT_LOAD {
            if !load_seg_ok(s, off, bias) {
                Err(LinuxError::ENOEXEC)
            } else {
                match parse_phdrs(s, phoff, phentsize, i + 1, n, bias) {
                    Ok((segs, it)) => Ok((seq![seg_of(s, off, bias)] + segs, it)),
                    Err(e) => Err(e),
                }
            }
        } else if le32(s, off) == PT_INTERP {
            let p_offset = le64(s, off + 8);
            let p_filesz = le64(s, off + 32);
            if !(p_offset + p_filesz <= s.len()) {
                Err(LinuxError::ENOEXEC)
            } else if !interp_ok(s, p_offset, p_filesz) {
                Err(LinuxError::EINVAL)
            } else {
                match parse_phdrs(s, phoff, phentsize, i + 1, n, bias) {
                    Ok((segs, it)) => Ok(
                        (
                            segs,
                            Some(s.subrange(p_offset, p_offset + p_filesz - 1)),
                        ),
                    ),
                    Err(e) => Err(e),
                }
            }
        } else {
            match parse_phdrs(s, phoff, phentsize, i + 1, n, bias) {
                Ok((segs, it)) => Ok((segs, it)),
                Err(e) => Err(e),
            }
        }
    }
}

/// What one program header contributes to the parse.
pub enum PhdrItem {
    /// A loadable segment.
    Load(ElfSegment),
    /// The interpreter path, without its terminating nul.
    Interp(Vec<u8>),
    /// A header type the loader does not act on.
    Other,
}

/// Parses the one program header at `off`, performing the checks the
/// walk specifies for its type.
fn parse_one_phdr(data: &Vec<u8>, off: usize, bias: usize) -> (r: Result<PhdrItem, LinuxError>)
    requires
        off + 56 <= data@.len(),
        data@.len() <= usize::MAX,
        bias + 2 * PAGE_SIZE_4K <= usize::MAX,
    ensures
        ({
            let s = data@;
            let o = off as int;
            let b = bias as int;
            &&& le32(s, o) == PT_LOAD && !load_seg_ok(s, o, b) ==> r == Err::<
                PhdrItem,
                LinuxError,
            >(LinuxError::ENOEXEC)
            &&& le32(s, o) == PT_LOAD && load_seg_ok(s, o, b) ==> (r matches Ok(
                PhdrItem::Load(seg),
            ) && seg == seg_of(s, o, b))
            &&& le32(s, o) == PT_INTERP ==> ({
                let p_offset = le64(s, o + 8);
                let p_filesz = le64(s, o + 32);
                &&& !(p_offset + p_filesz <= s.len()) ==> r == Err::<PhdrItem, LinuxError>(
                    LinuxError::ENOEXEC,
                )
                &&& (p_offset + p_filesz <= s.len()) && !interp_ok(s, p_offset, p_filesz) ==> r
                    == Err::<PhdrItem, LinuxError>(LinuxError::EINVAL)
                &&& (p_offset + p_filesz <= s.len()) && interp_ok(s, p_offset, p_filesz) ==> (
                r matches Ok(PhdrItem::Interp(v)) && v@ == s.subrange(
                    p_offset,
                    p_offset + p_filesz - 1,
                ))
            })
            &&& le32(s, o) != PT_LOAD && le32(s, o) != PT_INTERP ==> r == Ok::<
                PhdrItem,
                LinuxError,
            >(PhdrItem::Other)
        }),
{
    let p_type = read_u32(data, off);
    if p_type == PT_LOAD {
        let p_flags = read_u32(data, off + 4);
        let p_offset = read_u64(data, off + 8);
        let p_vaddr = read_u64(data, off + 16);
        let p_filesz = read_u64(data, off + 32);
        let p_memsz = read_u64(data, off + 40);
        let ok = (p_offset as u128) + (p_filesz as u128) <= data.len() as u128 && p_filesz
            <= p_memsz && (p_vaddr as u128) + (bias as u128) + (p_memsz as u128) + 2 * (
        PAGE_SIZE_4K as u128) <= usize::MAX as u128 && ((p_vaddr as u128 + bias as u128) % (
        PAGE_SIZE_4K as u128)) == (p_offset as u128) % (PAGE_SIZE_4K as u128);
        if !ok {
            return Err(LinuxError::ENOEXEC);
        }
        let seg = ElfSegment {
            vaddr: (p_vaddr as usize) + bias,
            offset: p_offset as usize,
            filesz: p_filesz as usize,
            memsz: p_memsz as usize,
            flags: MapFlags {
                read: p_flags & 4 != 0,
                write: p_flags & 2 != 0,
                execute: p_flags & 1 != 0,
                user: true,
            },
        };
        proof {
            assert(load_seg_ok(data@, off as int, bias as int));
            assert(seg == seg_of(data@, off as int, bias as int));
        }
        Ok(PhdrItem::Load(seg))
    } else if p_type == PT_INTERP {
        let p_offset = read_u64(data, off + 8);
        let p_filesz = read_u64(data, off + 32);
        if (p_offset as u128) + (p_filesz as u128) > data.len() as u128 {
            return Err(LinuxError::ENOEXEC);
        }
        let po = p_offset as usize;
        let pf = p_filesz as usize;
        if pf < 1 || data[po + pf - 1] != 0 {
            proof {
                assert(!interp_ok(data@, po as int, pf as int));
            }
            return Err(LinuxError::EINVAL);
        }
        let mut path: Vec<u8> = Vec::new();
        let mut t: usize = 0;
        while t < pf - 1
            invariant
                pf >= 1,
                off + 56 <= data@.len(),
                le32(data@, off as int) == PT_INTERP,
                po as int == le64(data@, off as int + 8),
                pf as int == le64(data@, off as int + 32),
                po + pf <= data@.len(),
                data@.len() <= usize::MAX,
                t <= pf - 1,
                data@[po + pf - 1] == 0,
                path@ == data@.subrange(po as int, po as int + t as int),
                forall|p: int| po <= p < po + t ==> data@[p] != 0,
            decreases pf - 1 - t,
        {
            if data[po + t] == 0 {
                proof {
                    assert(!interp_ok(data@, po as int, pf as int));
                }
                return Err(LinuxError::EINVAL);
            }
            path.push(data[po + t]);
            proof {
                assert(path@ =~= data@.subrange(po as int, po as int + t + 1));
            }
            t = t + 1;
        }
        proof {
            assert(interp_ok(data@, po as int, pf as int));
            assert(path@ =~= data@.subrange(po as int, po as int + pf - 1));
        }
        Ok(PhdrItem::Interp(path))
    } else {
        Ok(PhdrItem::Other)
    }
}

/// Whether the image has a well-formed 64-bit little-endian ELF header
/// whose program-header table is addressable on this machine.
pub open spec fn elf_header_ok(s: Seq<u8>) -> bool {
    &&& s.len() >= 64
    &&& s[0] == 0x7f && s[1] == 0x45 && s[2] == 0x4c && s[3] == 0x46
    &&& s[4] == 2
    &&& s[5] == 1
    &&& le64(s, 32) + le16(s, 56) * le16(s, 54) <= usize::MAX
}

/// The load bias the image gets: position-independent images are shifted
/// to `base`, fixed images keep their own addresses.
pub open spec fn bias_of(s: Seq<u8>, base: int) -> int {
    if le16(s, 16) == ET_DYN {
        base
    } else {
        0
    }
}

/// Parses a 64-bit little-endian ELF image: validates the header, walks
/// the program headers collecting loadable segments (with the load bias
/// applied for position-independent images) and the interpreter path,
/// and computes the entry point.  An image that is not parsable ELF
/// fails with `ENOEXEC`; a malformed interpreter path with `EINVAL`.
#[verifier::rlimit(100)]
#[verifier::spinoff_prover]
pub fn parse_elf(data: &Vec<u8>, base: usize) -> (r: Result<ElfImage, LinuxError>)
    requires
        base + 2 * PAGE_SIZE_4K <= usize::MAX,
    ensures
        !elf_header_ok(data@) ==> r == Err::<ElfImage, LinuxError>(LinuxError::ENOEXEC),
        elf_header_ok(data@) && le64(data@, 24) + bias_of(data@, base as int) > usize::MAX ==> r
            == Err::<ElfImage, LinuxError>(LinuxError::ENOEXEC),
        elf_header_ok(data@) && le64(data@, 24) + bias_of(data@, base as int) <= usize::MAX
            ==> ({
            let bias = bias_of(data@, base as int);
            match parse_phdrs(
                data@,
                le64(data@, 32),
                le16(data@, 54),
                0,
                le16(data@, 56),
                bias,
            ) {
                Ok((segs, it)) => (r matches Ok(img) && img.entry == le64(data@, 24) + bias
                    && img.segments@ == segs && (match (img.interp, it) {
                    (Some(v), Some(sq)) => v@ == sq,
                    (None, None) => true,
                    _ => false,
                })),
                Err(e) => r == Err::<ElfImage, LinuxError>(e),
            }
        }),
{
    if data.len() < 64 {
        return Err(LinuxError::ENOEXEC);
    }
    if !(data[0] == 0x7f && data[1] == 0x45 && data[2] == 0x4c && data[3] == 0x46 && data[4] == 2
        && data[5] == 1) {
        return Err(LinuxError::ENOEXEC);
    }
    let e_type = read_u16(data, 16);
    let e_entry = read_u64(data, 24);
    let e_phoff = read_u64(data, 32);
    let e_phentsize = read_u16(data, 54);
    let e_phnum = read_u16(data, 56);
    proof {
        assert((e_phnum as int) * (e_phentsize as int) <= 0xFFFF * 0xFFFF) by (nonlinear_arith)
            requires
                e_phnum <= 0xFFFF,
                e_phentsize <= 0xFFFF,
        ;
    }
    if (e_phoff as u128) + (e_phnum as u128) * (e_phentsize as u128) > usize::MAX as u128 {
        return Err(LinuxError::ENOEXEC);
    }
    let bias: usize = if e_type == ET_DYN {
        base
    } else {
        0
    };
    let ghost gbias = bias_of(data@, base as int);
    proof {
        assert(gbias == bias as int);
    }
    if (e_entry as u128) + (bias as u128) > usize::MAX as u128 {
        return Err(LinuxError::ENOEXEC);
    }
    let entry: usize = (e_entry as usize) + bias;

    let mut segments: Vec<ElfSegment> = Vec::new();
    let mut interp: Option<Vec<u8>> = None;
    let ghost total = parse_phdrs(
        data@,
        e_phoff as int,
        e_phentsize as int,
        0,
        e_phnum as int,
        gbias,
    );
    let mut i: usize = 0;
    proof {
        if total is Ok {
            assert(Seq::<ElfSegment>::empty() + total.unwrap().0 =~= total.unwrap().0);
        }
    }
    while i < e_phnum as usize
        invariant
            i <= e_phnum as usize,
            e_phoff + (e_phnum as usize) * (e_phentsize as usize) <= usize::MAX,
            data@.len() >= 64,
            data@.len() <= usize::MAX,
            elf_header_ok(data@),
            e_phoff == le64(data@, 32),
            e_phentsize as int == le16(data@, 54),
            e_phnum as int == le16(data@, 56),
            le64(data@, 24) + gbias <= usize::MAX,
            entry as int == le64(data@, 24) + gbias,
            gbias == bias as int,
            gbias == bias_of(data@, base as int),
            bias + 2 * PAGE_SIZE_4K <= usize::MAX,
            total == parse_phdrs(
                data@,
                e_phoff as int,
                e_phentsize as int,
                0,
                e_phnum as int,
                gbias,
            ),
            ({
                let rest = parse_phdrs(
                    data@,
                    e_phoff as int,
                    e_phentsize as int,
                    i as int,
                    e_phnum as int,
                    gbias,
                );
                total == (match rest {
                    Ok((segs, it)) => Ok::<(Seq<ElfSegment>, Option<Seq<u8>>), LinuxError>(
                        (
                            segments@ + segs,
                            (match interp {
                                Some(v) => Some(v@),
                                None => it,
                            }),
                        ),
                    ),
                    Err(e) => Err::<(Seq<ElfSegment>, Option<Seq<u8>>), LinuxError>(e),
                })
            }),
        decreases e_phnum as usize - i,
    {
        proof {
            assert((i as int) * (e_phentsize as int) <= (e_phnum as int) * (e_phentsize as int))
                by (nonlinear_arith)
                requires
                    0 <= i < e_phnum,
                    0 <= e_phentsize,
            ;
            assert((i + 1) * (e_phentsize as int) <= (e_phnum as int) * (e_phentsize as int))
                by (nonlinear_arith)
                requires
                    0 <= i < e_phnum,
                    0 <= e_phentsize,
            ;
        }
        let off = e_phoff as usize + i * (e_phentsize as usize);
        let ghost pre_segs = segments@;
        proof {
            assert(off as int == e_phoff + (i as int) * (e_phentsize as int));
        }
        let ghost rest1 = parse_phdrs(
            data@,
            e_phoff as int,
            e_phentsize as int,
            i + 1,
            e_phnum as int,
            gbias,
        );
        if off > data.len() - 56 {
            return Err(LinuxError::ENOEXEC);
        }
        match parse_one_phdr(data, off, bias) {
            Err(e) => {
                proof {
                    assert(parse_phdrs(
                        data@,
                        e_phoff as int,
                        e_phentsize as int,
                        i as int,
                        e_phnum as int,
                        gbias,
                    ) == Err::<(Seq<ElfSegment>, Option<Seq<u8>>), LinuxError>(e));
                }
                return Err(e);
            },
            Ok(PhdrItem::Load(seg)) => {
                segments.push(seg);
                proof {
                    if rest1 is Ok {
                        assert(pre_segs + (seq![seg_of(data@, off as int, gbias)]
                            + rest1.unwrap().0) =~= segments@ + rest1.unwrap().0);
                    }
                }
            },
            Ok(PhdrItem::Interp(path)) => {
                if interp.is_none() {
                    interp = Some(path);
                }
            },
            Ok(PhdrItem::Other) => {},
        }
        i = i + 1;
    }
    proof {
        assert(segments@ + Seq::<ElfSegment>::empty() =~= segments@);
    }
    Ok(ElfImage { entry, segments, interp })
}


/// Page offset of a segment's load address.
pub open spec fn seg_pad(seg: ElfSegment) -> int {
    (seg.vaddr as int) % (PAGE_SIZE_4K as int)
}

/// Page-aligned start of the mapping a segment gets.
pub open spec fn seg_start(seg: ElfSegment) -> int {
    seg.vaddr - seg_pad(seg)
}

/// Page-aligned size of the mapping a segment gets.
pub open spec fn seg_asize(seg: ElfSegment) -> int {
    ((seg.memsz + seg_pad(seg) + PAGE_SIZE_4K - 1) / (PAGE_SIZE_4K as int)) * (
    PAGE_SIZE_4K as int)
}

/// What a mapped segment's region holds: leading zeros up to the page
/// offset, the file-backed bytes, and zeros to the end of the aligned
/// region (covering the zero-filled tail up to the in-memory size).
pub open spec fn seg_image(s: Seq<u8>, seg: ElfSegment) -> Seq<u8> {
    Seq::new(seg_pad(seg) as nat, |i: int| 0u8) + s.subrange(
        seg.offset as int,
        seg.offset + seg.filesz,
    ) + Seq::new((seg_asize(seg) - seg_pad(seg) - seg.filesz) as nat, |i: int| 0u8)
}

/// The checks a segment must pass before it can be mapped, as the parse
/// guarantees them.
pub open spec fn seg_wf(seg: ElfSegment, s: Seq<u8>) -> bool {
    &&& seg.offset + seg.filesz <= s.len()
    &&& seg.filesz <= seg.memsz
    &&& seg.vaddr + seg.memsz + 2 * PAGE_SIZE_4K <= usize::MAX
    &&& (seg.vaddr as int) % (PAGE_SIZE_4K as int) == (seg.offset as int) % (
    PAGE_SIZE_4K as int)
}


/// Every segment's page-aligned range is non-empty, lies inside the
/// user range of `a`, and overlaps none of `a`'s existing mappings.
pub open spec fn segs_in_space(segs: Seq<ElfSegment>, a: AddressSpace) -> bool {
    forall|j: int|
        0 <= j < segs.len() ==> seg_asize(#[trigger] segs[j]) > 0 && a.base <= seg_start(segs[j])
            && seg_start(segs[j]) + seg_asize(segs[j]) <= a.base + a.size && a.range_free(
            seg_start(segs[j]),
            seg_asize(segs[j]),
        )
}

/// The segments' page-aligned ranges are pairwise disjoint.
pub open spec fn segs_disjoint(segs: Seq<ElfSegment>) -> bool {
    forall|j: int, k: int|
        0 <= j < k < segs.len() ==> seg_start(#[trigger] segs[j]) + seg_asize(segs[j])
            <= seg_start(#[trigger] segs[k]) || seg_start(segs[k]) + seg_asize(segs[k])
            <= seg_start(segs[j])
}

/// Every segment a successful program-header walk returns passes the
/// mapping checks.
#[verifier::rlimit(100)]
pub proof fn lemma_parse_phdrs_wf(
    s: Seq<u8>,
    phoff: int,
    phentsize: int,
    i: int,
    n: int,
    bias: int,
)
    requires
        0 <= bias,
        s.len() <= usize::MAX,
        parse_phdrs(s, phoff, phentsize, i, n, bias) is Ok,
    ensures
        ({
            let segs = parse_phdrs(s, phoff, phentsize, i, n, bias).unwrap().0;
            forall|j: int| 0 <= j < segs.len() ==> seg_wf(#[trigger] segs[j], s)
        }),
    decreases n - i,
{
    if i < n {
        let off = phoff + i * phentsize;
        if le32(s, off) == PT_LOAD {
            lemma_parse_phdrs_wf(s, phoff, phentsize, i + 1, n, bias);
            let segs = parse_phdrs(s, phoff, phentsize, i, n, bias).unwrap().0;
            let rest = parse_phdrs(s, phoff, phentsize, i + 1, n, bias).unwrap().0;
            assert forall|j: int| 0 <= j < segs.len() implies seg_wf(
                #[trigger] segs[j],
                s,
            ) by {
                if j == 0 {
                    assert(segs[0] == seg_of(s, off, bias));
                    assert(load_seg_ok(s, off, bias));
                    assert(0 <= le64(s, off + 8) && 0 <= le64(s, off + 16) && 0 <= le64(
                        s,
                        off + 32,
                    ) && 0 <= le64(s, off + 40));
                    assert(seg_of(s, off, bias).offset as int == le64(s, off + 8));
                    assert(seg_of(s, off, bias).vaddr as int == le64(s, off + 16) + bias);
                    assert(seg_of(s, off, bias).filesz as int == le64(s, off + 32));
                    assert(seg_of(s, off, bias).memsz as int == le64(s, off + 40));
                } else {
                    assert(segs[j] == rest[j - 1]);
                }
            }
        } else {
            lemma_parse_phdrs_wf(s, phoff, phentsize, i + 1, n, bias);
        }
    }
}

/// Maps every loadable segment of a parsed image at its 4K-aligned
/// virtual range with its requested permissions, copying the file-backed
/// bytes into the mapping and zero-filling the remainder up to the
/// segment's in-memory size.
pub fn map_elf(uspace: &mut AddressSpace, segments: &Vec<ElfSegment>, data: &Vec<u8>) -> (r:
    Result<(), LinuxError>)
    requires
        old(uspace).wf(),
        forall|j: int| 0 <= j < segments@.len() ==> seg_wf(#[trigger] segments@[j], data@),
    ensures
        final(uspace).wf(),
        final(uspace).base == old(uspace).base,
        final(uspace).size == old(uspace).size,
        final(uspace).pt_root == old(uspace).pt_root,
        final(uspace).kernel_mapped == old(uspace).kernel_mapped,
        r is Err ==> r == Err::<(), LinuxError>(LinuxError::EINVAL) || r == Err::<
            (),
            LinuxError,
        >(LinuxError::EEXIST),
        segs_in_space(segments@, *old(uspace)) && segs_disjoint(segments@) ==> r is Ok,
        r is Ok ==> final(uspace).areas@.len() == old(uspace).areas@.len() + segments@.len()
            && final(uspace).areas@.subrange(0, old(uspace).areas@.len() as int) == old(
            uspace,
        ).areas@ && (forall|j: int|
            0 <= j < segments@.len() ==> ({
                let a = final(uspace).areas@[old(uspace).areas@.len() + j];
                &&& a.start == seg_start(#[trigger] segments@[j])
                &&& a.size == seg_asize(segments@[j])
                &&& a.flags == segments@[j].flags
                &&& a.data@ == seg_image(data@, segments@[j])
            })),
{
    let mut j: usize = 0;
    while j < segments.len()
        invariant
            uspace.wf(),
            uspace.base == old(uspace).base,
            uspace.size == old(uspace).size,
            uspace.pt_root == old(uspace).pt_root,
            uspace.kernel_mapped == old(uspace).kernel_mapped,
            j <= segments@.len(),
            forall|t: int| 0 <= t < segments@.len() ==> seg_wf(#[trigger] segments@[t], data@),
            uspace.areas@.len() == old(uspace).areas@.len() + j,
            uspace.areas@.subrange(0, old(uspace).areas@.len() as int) == old(uspace).areas@,
            forall|t: int|
                0 <= t < j ==> ({
                    let a = uspace.areas@[old(uspace).areas@.len() + t];
                    &&& a.start == seg_start(#[trigger] segments@[t])
                    &&& a.size == seg_asize(segments@[t])
                    &&& a.flags == segments@[t].flags
                    &&& a.data@ == seg_image(data@, segments@[t])
                }),
        decreases segments@.len() - j,
    {
        let seg = segments[j];
        let pad = seg.vaddr % PAGE_SIZE_4K;
        let start = seg.vaddr - pad;
        let asize = ((seg.memsz + pad + (PAGE_SIZE_4K - 1)) / PAGE_SIZE_4K) * PAGE_SIZE_4K;
        proof {
            assert(seg_wf(segments@[j as int], data@));
            let m: int = seg.memsz as int + pad as int + (PAGE_SIZE_4K - 1);
            assert(m / (PAGE_SIZE_4K as int) * (PAGE_SIZE_4K as int) <= m
                && m - (PAGE_SIZE_4K - 1) <= m / (PAGE_SIZE_4K as int) * (
            PAGE_SIZE_4K as int)) by (nonlinear_arith)
                requires
                    0 <= m,
            ;
        }
        let dlen = data.len();
        let mut content = zeroed(pad);
        let mut t: usize = 0;
        while t < seg.filesz
            invariant
                seg_wf(seg, data@),
                data@.len() <= usize::MAX,
                pad as int == seg_pad(seg),
                t <= seg.filesz,
                content@.len() == pad + t,
                forall|p: int| 0 <= p < pad ==> content@[p] == 0,
                forall|p: int|
                    pad <= p < pad + t ==> content@[p] == data@[seg.offset + p - pad],
            decreases seg.filesz - t,
        {
            content.push(data[seg.offset + t]);
            t = t + 1;
        }
        while content.len() < asize
            invariant
                seg_wf(seg, data@),
                pad as int == seg_pad(seg),
                asize as int == seg_asize(seg),
                pad + seg.filesz <= content@.len() <= asize,
                forall|p: int| 0 <= p < pad ==> content@[p] == 0,
                forall|p: int|
                    pad <= p < pad + seg.filesz ==> content@[p] == data@[seg.offset + p - pad],
                forall|p: int| pad + seg.filesz <= p < content@.len() ==> content@[p] == 0,
            decreases asize - content@.len(),
        {
            content.push(0);
        }
        proof {
            assert(content@ =~= seg_image(data@, seg));
        }
        proof {
            if segs_in_space(segments@, *old(uspace)) && segs_disjoint(segments@) {
                assert(seg_start(segments@[j as int]) == start as int);
                assert(seg_asize(segments@[j as int]) == asize as int);
                let ghost ol = old(uspace).areas@.len() as int;
                assert forall|p: int|
                    0 <= p < uspace.areas@.len() implies ((#[trigger] uspace.areas@[p]).start
                    + uspace.areas@[p].size <= start || start + asize
                    <= uspace.areas@[p].start) by {
                    if p < ol {
                        assert(uspace.areas@.subrange(0, ol)[p] == uspace.areas@[p]);
                        assert(uspace.areas@[p] == old(uspace).areas@[p]);
                    } else {
                        let t = p - ol;
                        assert(uspace.areas@[p].start == seg_start(segments@[t]));
                        assert(uspace.areas@[p].size == seg_asize(segments@[t]));
                    }
                }
                assert(uspace.range_free(start as int, asize as int));
            }
        }
        match uspace.map_region(start, asize, seg.flags, content) {
            Err(e) => {
                proof {
                    assert(!(segs_in_space(segments@, *old(uspace)) && segs_disjoint(
                        segments@,
                    )));
                }
                return Err(e);
            },
            Ok(()) => {},
        }
        proof {
            assert(uspace.areas@.subrange(0, old(uspace).areas@.len() as int) =~= old(
                uspace,
            ).areas@);
        }
        j = j + 1;
    }
    Ok(())
}

/// Auxiliary-vector key: end of vector.
pub const AT_NULL: u64 = 0;
/// Auxiliary-vector key: page size.
pub const AT_PAGESZ: u64 = 6;
/// Auxiliary-vector key: base address the interpreter was loaded at.
pub const AT_BASE: u64 = 7;
/// Auxiliary-vector key: entry point of the main image.
pub const AT_ENTRY: u64 = 9;

/// Builds the auxiliary vector handed to a new program: the page size,
/// the interpreter load base (0 when none), and the main image's entry
/// point.  The terminating null pair is added by the stack layout.
pub fn build_aux_vector(entry: usize, interp_base: Option<usize>) -> (v: Vec<(u64, u64)>)
    ensures
        v@ == seq![
            (AT_PAGESZ, PAGE_SIZE_4K as u64),
            (
                AT_BASE,
                match interp_base {
                    Some(b) => b as u64,
                    None => 0u64,
                },
            ),
            (AT_ENTRY, entry as u64),
        ],
{
    let base: u64 = match interp_base {
        Some(b) => b as u64,
        None => 0,
    };
    let mut v: Vec<(u64, u64)> = Vec::new();
    v.push((AT_PAGESZ, PAGE_SIZE_4K as u64));
    v.push((AT_BASE, base));
    v.push((AT_ENTRY, entry as u64));
    proof {
        assert(v@ =~= seq![
            (AT_PAGESZ, PAGE_SIZE_4K as u64),
            (
                AT_BASE,
                match interp_base {
                    Some(b) => b as u64,
                    None => 0u64,
                },
            ),
            (AT_ENTRY, entry as u64),
        ]);
    }
    v
}

/// Byte offset of item `i` inside a packed block of nul-terminated
/// strings.
pub open spec fn str_off(items: Seq<Vec<u8>>, i: int) -> int
    decreases i,
{
    if i <= 0 {
        0
    } else {
        str_off(items, i - 1) + items[i - 1]@.len() + 1
    }
}

/// Offsets into the string block only grow.
pub proof fn lemma_str_off_mono(items: Seq<Vec<u8>>, i: int, j: int)
    requires
        0 <= i <= j,
    ensures
        str_off(items, i) <= str_off(items, j),
        0 <= str_off(items, i),
    decreases j,
{
    if j > 0 {
        if i <= j - 1 {
            lemma_str_off_mono(items, i, j - 1);
        } else {
            lemma_str_off_mono(items, 0, i - 1);
        }
    }
}

/// Appends the 8 little-endian bytes of `x`.
pub fn push_u64_le(v: &mut Vec<u8>, x: u64)
    ensures
        final(v)@.len() == old(v)@.len() + 8,
        final(v)@.subrange(0, old(v)@.len() as int) == old(v)@,
        le64(final(v)@, old(v)@.len() as int) == x,
{
    let ghost n = v@.len();
    let b0 = (x % 0x100) as u8;
    let x1 = x / 0x100;
    let b1 = (x1 % 0x100) as u8;
    let x2 = x1 / 0x100;
    let b2 = (x2 % 0x100) as u8;
    let x3 = x2 / 0x100;
    let b3 = (x3 % 0x100) as u8;
    let x4 = x3 / 0x100;
    let b4 = (x4 % 0x100) as u8;
    let x5 = x4 / 0x100;
    let b5 = (x5 % 0x100) as u8;
    let x6 = x5 / 0x100;
    let b6 = (x6 % 0x100) as u8;
    let x7 = x6 / 0x100;
    let b7 = (x7 % 0x100) as u8;
    v.push(b0);
    v.push(b1);
    v.push(b2);
    v.push(b3);
    v.push(b4);
    v.push(b5);
    v.push(b6);
    v.push(b7);
    proof {
        assert(v@.subrange(0, n as int) =~= old(v)@);
        assert(x7 < 0x100);
        assert(le64(v@, n as int) == b0 + 0x100 * b1 + 0x1_0000 * b2 + 0x100_0000 * b3
            + 0x1_0000_0000 * (b4 + 0x100 * b5 + 0x1_0000 * b6 + 0x100_0000 * b7));
    }
}

/// A longer byte string that starts with `s1` reads the same 64-bit
/// values over `s1`'s range.
pub proof fn lemma_le64_stable(s1: Seq<u8>, s2: Seq<u8>, off: int)
    requires
        s1.len() <= s2.len(),
        s2.subrange(0, s1.len() as int) == s1,
        0 <= off,
        off + 8 <= s1.len(),
    ensures
        le64(s2, off) == le64(s1, off),
{
    assert forall|k: int| 0 <= k < s1.len() implies s2[k] == s1[k] by {
        assert(s2.subrange(0, s1.len() as int)[k] == s2[k]);
    }
}

/// Serializes a word vector into its little-endian bytes.
pub fn serialize_words(words: &Vec<u64>) -> (r: Vec<u8>)
    ensures
        r@.len() == 8 * words@.len(),
        forall|j: int| 0 <= j < words@.len() ==> le64(r@, 8 * j) == (#[trigger] words@[j]),
{
    let mut r: Vec<u8> = Vec::new();
    let mut j: usize = 0;
    while j < words.len()
        invariant
            j <= words@.len(),
            r@.len() == 8 * j,
            forall|t: int| 0 <= t < j ==> le64(r@, 8 * t) == (#[trigger] words@[t]),
        decreases words@.len() - j,
    {
        let ghost pre = r@;
        push_u64_le(&mut r, words[j]);
        proof {
            assert forall|t: int| 0 <= t < j implies le64(r@, 8 * t) == (
            #[trigger] words@[t]) by {
                lemma_le64_stable(pre, r@, 8 * t);
            }
        }
        j = j + 1;
    }
    r
}

/// Builds the argument-vector words for the initial stack.
pub fn stack_vector_words(
    args: &Vec<Vec<u8>>,
    envs: &Vec<Vec<u8>>,
    auxv: &Vec<(u64, u64)>,
    str_base: usize,
    args_total: usize,
) -> (r: Vec<u64>)
    requires
        args@.len() < 0x1000,
        envs@.len() < 0x1000,
        auxv@.len() < 0x1000,
        str_base + str_off(args@, args@.len() as int) <= usize::MAX,
        args_total as int == str_off(args@, args@.len() as int),
        str_base + args_total + str_off(envs@, envs@.len() as int) <= usize::MAX,
    ensures
        ({
            let n = args@.len() as int;
            let m = envs@.len() as int;
            let a = auxv@.len() as int;
            &&& r@.len() == n + m + 2 * a + 5
            &&& r@[0] == args@.len() as u64
            &&& forall|t: int|
                0 <= t < n ==> (#[trigger] r@[1 + t]) == str_base + str_off(args@, t)
            &&& r@[1 + n] == 0
            &&& forall|t: int|
                0 <= t < m ==> (#[trigger] r@[2 + n + t]) == str_base + args_total + str_off(
                    envs@,
                    t,
                )
            &&& r@[2 + n + m] == 0
            &&& forall|t: int|
                0 <= t < a ==> (#[trigger] r@[3 + n + m + 2 * t]) == auxv@[t].0 && r@[4 + n + m
                    + 2 * t] == auxv@[t].1
            &&& r@[3 + n + m + 2 * a] == 0
            &&& r@[4 + n + m + 2 * a] == 0
        }),
{
    let n = args.len();
    let m = envs.len();
    let a = auxv.len();
    let mut r: Vec<u64> = Vec::new();
    r.push(n as u64);
    let mut acc: usize = 0;
    let mut i: usize = 0;
    while i < n
        invariant
            i <= n,
            n == args@.len(),
            acc as int == str_off(args@, i as int),
            str_base + str_off(args@, args@.len() as int) <= usize::MAX,
            r@.len() == 1 + i,
            r@[0] == n as u64,
            forall|t: int|
                0 <= t < i ==> (#[trigger] r@[1 + t]) == str_base + str_off(args@, t),
        decreases n - i,
    {
        proof {
            lemma_str_off_mono(args@, i as int, args@.len() as int);
            lemma_str_off_mono(args@, i + 1, args@.len() as int);
        }
        r.push((str_base + acc) as u64);
        acc = acc + args[i].len() + 1;
        i = i + 1;
    }
    r.push(0);
    let env_base = str_base + args_total;
    let mut acc2: usize = 0;
    let mut i: usize = 0;
    while i < m
        invariant
            i <= m,
            n == args@.len(),
            m == envs@.len(),
            env_base == str_base + args_total,
            args_total as int == str_off(args@, args@.len() as int),
            acc2 as int == str_off(envs@, i as int),
            str_base + args_total + str_off(envs@, envs@.len() as int) <= usize::MAX,
            r@.len() == 2 + n + i,
            r@[0] == n as u64,
            r@[1 + n as int] == 0,
            forall|t: int|
                0 <= t < n ==> (#[trigger] r@[1 + t]) == str_base + str_off(args@, t),
            forall|t: int|
                0 <= t < i ==> (#[trigger] r@[2 + n + t]) == env_base + str_off(envs@, t),
        decreases m - i,
    {
        proof {
            lemma_str_off_mono(envs@, i as int, envs@.len() as int);
            lemma_str_off_mono(envs@, i + 1, envs@.len() as int);
        }
        r.push((env_base + acc2) as u64);
        acc2 = acc2 + envs[i].len() + 1;
        i = i + 1;
    }
    r.push(0);
    let mut i: usize = 0;
    while i < a
        invariant
            i <= a,
            n == args@.len(),
            m == envs@.len(),
            a == auxv@.len(),
            env_base == str_base + args_total,
            args_total as int == str_off(args@, args@.len() as int),
            r@.len() == 3 + n + m + 2 * i,
            r@[0] == n as u64,
            r@[1 + n as int] == 0,
            r@[2 + n + m as int] == 0,
            forall|t: int|
                0 <= t < n ==> (#[trigger] r@[1 + t]) == str_base + str_off(args@, t),
            forall|t: int|
                0 <= t < m ==> (#[trigger] r@[2 + n + t]) == env_base + str_off(envs@, t),
            forall|t: int|
                0 <= t < i ==> (#[trigger] r@[3 + n + m + 2 * t]) == auxv@[t].0 && r@[4 + n + m
                    + 2 * t] == auxv@[t].1,
        decreases a - i,
    {
        let (k, v) = auxv[i];
        let ghost r0 = r@;
        r.push(k);
        r.push(v);
        proof {
            assert(r@[3 + n + m + 2 * (i as int)] == k);
            assert(r@[4 + n + m + 2 * (i as int)] == v);
            assert forall|t: int| 0 <= t < i + 1 implies (#[trigger] r@[3 + n + m + 2 * t])
                == auxv@[t].0 && r@[4 + n + m + 2 * t] == auxv@[t].1 by {
                if t < i {
                    assert(r0[3 + n + m + 2 * t] == auxv@[t].0);
                    assert(r0[4 + n + m + 2 * t] == auxv@[t].1);
                    assert(r@[3 + n + m + 2 * t] == r0[3 + n + m + 2 * t]);
                    assert(r@[4 + n + m + 2 * t] == r0[4 + n + m + 2 * t]);
                }
            }
        }
        i = i + 1;
    }
    let ghost r1 = r@;
    r.push(0);
    r.push(0);
    proof {
        assert(r@[3 + n + m + 2 * (a as int)] == 0);
        assert(r@[4 + n + m + 2 * (a as int)] == 0);
        assert forall|t: int| 0 <= t < a implies (#[trigger] r@[3 + n + m + 2 * t])
            == auxv@[t].0 && r@[4 + n + m + 2 * t] == auxv@[t].1 by {
            assert(r1[3 + n + m + 2 * t] == auxv@[t].0);
            assert(r1[4 + n + m + 2 * t] == auxv@[t].1);
            assert(r@[3 + n + m + 2 * t] == r1[3 + n + m + 2 * t]);
            assert(r@[4 + n + m + 2 * t] == r1[4 + n + m + 2 * t]);
        }
    }
    r
}

/// The packed block of the first `t` items, each nul-terminated.
pub open spec fn blob_spec(items: Seq<Vec<u8>>, t: int) -> Seq<u8>
    decreases t,
{
    if t <= 0 {
        Seq::empty()
    } else {
        blob_spec(items, t - 1) + items[t - 1]@ + seq![0u8]
    }
}

/// The packed block is as long as the offsets say.
pub proof fn lemma_blob_spec_len(items: Seq<Vec<u8>>, t: int)
    ensures
        blob_spec(items, t).len() == if t <= 0 {
            0
        } else {
            str_off(items, t)
        },
    decreases t,
{
    if t > 0 {
        lemma_blob_spec_len(items, t - 1);
    }
}

/// Each item sits at its offset inside the packed block, nul-terminated.
pub proof fn lemma_blob_spec_item(items: Seq<Vec<u8>>, big: int, t: int)
    requires
        0 <= t < big,
    ensures
        ({
            let b = blob_spec(items, big);
            let off = str_off(items, t);
            &&& off + items[t]@.len() < b.len()
            &&& b.subrange(off, off + items[t]@.len()) == items[t]@
            &&& b[off + items[t]@.len()] == 0
        }),
    decreases big,
{
    lemma_blob_spec_len(items, big);
    lemma_blob_spec_len(items, big - 1);
    lemma_str_off_mono(items, 0, t);
    if t == big - 1 {
        let b = blob_spec(items, big);
        let off = str_off(items, t);
        assert(b.subrange(off, off + items[t]@.len()) =~= items[t]@);
    } else {
        lemma_blob_spec_item(items, big - 1, t);
        let b1 = blob_spec(items, big - 1);
        let b = blob_spec(items, big);
        let off = str_off(items, t);
        lemma_str_off_mono(items, t + 1, big - 1);
        assert(b.subrange(off, off + items[t]@.len()) =~= b1.subrange(
            off,
            off + items[t]@.len(),
        ));
        assert(b[off + items[t]@.len()] == b1[off + items[t]@.len()]);
    }
}

/// Appends every byte of `item`.
pub fn append_bytes(b: &mut Vec<u8>, item: &Vec<u8>)
    ensures
        final(b)@ == old(b)@ + item@,
{
    let mut k: usize = 0;
    while k < item.len()
        invariant
            k <= item@.len(),
            b@ == old(b)@ + item@.subrange(0, k as int),
        decreases item@.len() - k,
    {
        b.push(item[k]);
        proof {
            assert(b@ =~= old(b)@ + item@.subrange(0, k + 1));
        }
        k = k + 1;
    }
    proof {
        assert(b@ =~= old(b)@ + item@);
    }
}

/// Builds the packed argument-and-environment string block: the argument
/// strings first, then the environment strings, each nul-terminated.
pub fn strings_blob(args: &Vec<Vec<u8>>, envs: &Vec<Vec<u8>>) -> (b: Vec<u8>)
    ensures
        b@ == blob_spec(args@, args@.len() as int) + blob_spec(envs@, envs@.len() as int),
{
    let mut b: Vec<u8> = Vec::new();
    let mut t: usize = 0;
    while t < args.len()
        invariant
            t <= args@.len(),
            b@ == blob_spec(args@, t as int),
        decreases args@.len() - t,
    {
        append_bytes(&mut b, &args[t]);
        b.push(0);
        proof {
            assert(b@ =~= blob_spec(args@, t + 1));
        }
        t = t + 1;
    }
    let ghost part1 = b@;
    let mut t: usize = 0;
    while t < envs.len()
        invariant
            t <= envs@.len(),
            b@ == part1 + blob_spec(envs@, t as int),
            part1 == blob_spec(args@, args@.len() as int),
        decreases envs@.len() - t,
    {
        append_bytes(&mut b, &envs[t]);
        b.push(0);
        proof {
            assert(b@ =~= part1 + blob_spec(envs@, t + 1));
        }
        t = t + 1;
    }
    proof {
        if envs@.len() == 0 {
            assert(b@ =~= part1 + blob_spec(envs@, envs@.len() as int));
        }
    }
    b
}

/// A longer byte string that starts with `s1` reads the same subranges
/// over `s1`'s range.
pub proof fn lemma_subrange_stable(s1: Seq<u8>, s2: Seq<u8>, x: int, y: int)
    requires
        s1.len() <= s2.len(),
        s2.subrange(0, s1.len() as int) == s1,
        0 <= x <= y <= s1.len(),
    ensures
        s2.subrange(x, y) == s1.subrange(x, y),
{
    assert forall|k: int| 0 <= k < s1.len() implies s2[k] == s1[k] by {
        assert(s2.subrange(0, s1.len() as int)[k] == s2[k]);
    }
    assert(s2.subrange(x, y) =~= s1.subrange(x, y));
}

/// Serializes the initial stack block: the argument-vector words, pad
/// bytes down to a 16-byte-aligned stack pointer, and the packed
/// argument/environment strings ending at the fixed stack top.  Returns
/// the block and the initial stack pointer, which addresses the argument
/// count — not the stack region's base.  A block that cannot fit the
/// fixed stack region fails with `ENOMEM`.
#[verifier::rlimit(100)]
pub fn app_stack_region(args: &Vec<Vec<u8>>, envs: &Vec<Vec<u8>>, auxv: &Vec<(u64, u64)>) -> (r:
    Result<(Vec<u8>, usize), LinuxError>)
    ensures
        r is Err ==> r == Err::<(Vec<u8>, usize), LinuxError>(LinuxError::ENOMEM),
        (args@.len() < 0x1000 && envs@.len() < 0x1000 && auxv@.len() < 0x1000 && str_off(
            args@,
            args@.len() as int,
        ) + str_off(envs@, envs@.len() as int) + 8 * (args@.len() + envs@.len() + 2
            * auxv@.len() + 5) + 16 <= USER_STACK_SIZE) ==> r is Ok,
        r matches Ok(p) ==> ({
            let img = p.0@;
            let sp = p.1 as int;
            let n = args@.len() as int;
            let m = envs@.len() as int;
            let a = auxv@.len() as int;
            let sb = str_off(args@, n) + str_off(envs@, m);
            let str_base = USER_STACK_TOP - sb;
            let w = n + m + 2 * a + 5;
            &&& sp % 16 == 0
            &&& USER_STACK_TOP - USER_STACK_SIZE <= sp
            &&& sp + img.len() == USER_STACK_TOP
            &&& 8 * w + sb <= img.len()
            &&& le64(img, 0) == n
            &&& (forall|t: int|
                0 <= t < n ==> le64(img, 8 * (1 + t)) == str_base + #[trigger] str_off(args@, t))
            &&& le64(img, 8 * (1 + n)) == 0
            &&& (forall|t: int|
                0 <= t < m ==> le64(img, 8 * (2 + n + t)) == str_base + str_off(args@, n)
                    + #[trigger] str_off(envs@, t))
            &&& le64(img, 8 * (2 + n + m)) == 0
            &&& (forall|t: int|
                0 <= t < a ==> le64(img, 8 * (3 + n + m + 2 * t)) == (#[trigger] auxv@[t]).0
                    && le64(img, 8 * (4 + n + m + 2 * t)) == auxv@[t].1)
            &&& le64(img, 8 * (3 + n + m + 2 * a)) == 0
            &&& le64(img, 8 * (4 + n + m + 2 * a)) == 0
            &&& img.subrange(img.len() - sb, img.len() as int) == blob_spec(args@, n)
                + blob_spec(envs@, m)
        }),
{
    let n = args.len();
    let m = envs.len();
    let a = auxv.len();
    if n >= 0x1000 || m >= 0x1000 || a >= 0x1000 {
        return Err(LinuxError::ENOMEM);
    }
    let mut at: usize = 0;
    let mut i: usize = 0;
    while i < n
        invariant
            i <= n,
            n == args@.len(),
            at as int == str_off(args@, i as int),
            at <= USER_STACK_SIZE,
        decreases n - i,
    {
        let l = args[i].len();
        if l >= USER_STACK_SIZE || l + 1 > USER_STACK_SIZE - at {
            proof {
                lemma_str_off_mono(args@, i + 1, args@.len() as int);
                lemma_str_off_mono(envs@, 0, envs@.len() as int);
                assert(str_off(args@, args@.len() as int) > USER_STACK_SIZE);
            }
            return Err(LinuxError::ENOMEM);
        }
        at = at + l + 1;
        i = i + 1;
    }
    let mut et: usize = 0;
    let mut i: usize = 0;
    while i < m
        invariant
            i <= m,
            m == envs@.len(),
            et as int == str_off(envs@, i as int),
            et <= USER_STACK_SIZE,
        decreases m - i,
    {
        let l = envs[i].len();
        if l >= USER_STACK_SIZE || l + 1 > USER_STACK_SIZE - et {
            proof {
                lemma_str_off_mono(envs@, i + 1, envs@.len() as int);
                lemma_str_off_mono(args@, 0, args@.len() as int);
                assert(str_off(envs@, envs@.len() as int) > USER_STACK_SIZE);
            }
            return Err(LinuxError::ENOMEM);
        }
        et = et + l + 1;
        i = i + 1;
    }
    if et > USER_STACK_SIZE - at {
        return Err(LinuxError::ENOMEM);
    }
    let sb = at + et;
    let w = n + m + 2 * a + 5;
    let vb = 8 * w;
    if sb > USER_STACK_SIZE || vb + 16 > USER_STACK_SIZE - sb {
        return Err(LinuxError::ENOMEM);
    }
    let str_base = USER_STACK_TOP - sb;
    let sp0 = str_base - vb;
    let rem = sp0 % 16;
    let sp = sp0 - rem;
    let pad = rem;
    let words = stack_vector_words(args, envs, auxv, str_base, at);
    let mut img = serialize_words(&words);
    let ghost ser = img@;
    while img.len() < vb + pad
        invariant
            ser.len() == vb as int,
            vb + pad <= USER_STACK_SIZE,
            vb <= img@.len() <= vb + pad,
            img@.subrange(0, vb as int) == ser,
            forall|q: int| vb <= q < img@.len() ==> img@[q] == 0,
        decreases vb + pad - img@.len(),
    {
        img.push(0);
        proof {
            assert(img@.subrange(0, vb as int) =~= ser);
        }
    }
    let blob = strings_blob(args, envs);
    proof {
        lemma_blob_spec_len(args@, n as int);
        lemma_blob_spec_len(envs@, m as int);
    }
    let ghost pre = img@;
    append_bytes(&mut img, &blob);
    proof {
        assert(img@.subrange(0, pre.len() as int) =~= pre);
        assert(pre.subrange(0, vb as int) =~= ser);
        assert(img@.subrange(img@.len() - sb, img@.len() as int) =~= blob@);
        assert((sp0 - sp0 % 16) % 16 == 0) by (nonlinear_arith)
            requires
                sp0 >= 0,
        ;
        assert forall|j: int| 0 <= j < w implies le64(img@, 8 * j) == words@[j] by {
            lemma_le64_stable(ser, pre, 8 * j);
            lemma_le64_stable(pre, img@, 8 * j);
        }
        assert forall|t: int| 0 <= t < n implies le64(img@, 8 * (1 + t)) == str_base
            + #[trigger] str_off(args@, t) by {
            assert(le64(img@, 8 * (1 + t)) == words@[1 + t]);
        }
        assert forall|t: int| 0 <= t < m implies le64(img@, 8 * (2 + n + t)) == str_base + at
            + #[trigger] str_off(envs@, t) by {
            assert(le64(img@, 8 * (2 + n + t)) == words@[2 + n + t]);
        }
        assert forall|t: int| 0 <= t < a implies le64(img@, 8 * (3 + n + m + 2 * t)) == (
        #[trigger] auxv@[t]).0 && le64(img@, 8 * (4 + n + m + 2 * t)) == auxv@[t].1 by {
            assert(le64(img@, 8 * (3 + n + m + 2 * t)) == words@[3 + n + m + 2 * t]);
            assert(le64(img@, 8 * (4 + n + m + 2 * t)) == words@[4 + n + m + 2 * t]);
        }
        assert(le64(img@, 0) == words@[0]);
        assert(le64(img@, 8 * (1 + n as int)) == words@[1 + n as int]);
        assert(le64(img@, 8 * (2 + n + m as int)) == words@[2 + n + m as int]);
        assert(le64(img@, 8 * (3 + n + m + 2 * a as int)) == words@[3 + n + m + 2 * a as int]);
        assert(le64(img@, 8 * (4 + n + m + 2 * a as int)) == words@[4 + n + m + 2 * a as int]);
    }
    Ok((img, sp))
}

/// Whether a byte is ASCII whitespace.
pub open spec fn is_ascii_ws(b: u8) -> bool {
    b == 0x20 || b == 0x09 || b == 0x0a || b == 0x0c || b == 0x0d
}

/// The first newline at or after `i`, before `hi`, or `hi` if none.
pub open spec fn find_nl(s: Seq<u8>, i: int, hi: int) -> int
    decreases hi - i,
{
    if i < 0 || hi > s.len() || i >= hi {
        hi
    } else if s[i] == 0x0a {
        i
    } else {
        find_nl(s, i + 1, hi)
    }
}

/// The first whitespace byte at or after `i`, before `hi`, or `hi`.
pub open spec fn find_ws(s: Seq<u8>, i: int, hi: int) -> int
    decreases hi - i,
{
    if i < 0 || hi > s.len() || i >= hi {
        hi
    } else if is_ascii_ws(s[i]) {
        i
    } else {
        find_ws(s, i + 1, hi)
    }
}

/// The first non-whitespace byte at or after `i`, before `hi`, or `hi`.
pub open spec fn skip_ws(s: Seq<u8>, i: int, hi: int) -> int
    decreases hi - i,
{
    if i < 0 || hi > s.len() || i >= hi {
        hi
    } else if is_ascii_ws(s[i]) {
        skip_ws(s, i + 1, hi)
    } else {
        i
    }
}

/// The end of the region `[lo, j)` with trailing whitespace removed.
pub open spec fn rtrim(s: Seq<u8>, lo: int, j: int) -> int
    decreases j - lo,
{
    if j <= lo || j > s.len() || lo < 0 {
        lo
    } else if is_ascii_ws(s[j - 1]) {
        rtrim(s, lo, j - 1)
    } else {
        j
    }
}

/// Whether the file starts with the shebang marker.
pub open spec fn is_shebang(data: Seq<u8>) -> bool {
    data.len() >= 2 && data[0] == 0x23 && data[1] == 0x21
}

/// The interpreter words of a shebang header: up to 256 bytes of header
/// are examined, the first line is taken, trimmed of ASCII whitespace,
/// and split once on whitespace into the interpreter and one optional
/// argument.
#[verifier::opaque]
pub open spec fn shebang_parts(data: Seq<u8>) -> Seq<Seq<u8>> {
    let hi = if data.len() < 256 {
        data.len() as int
    } else {
        256
    };
    let nl = find_nl(data, 2, hi);
    let a = skip_ws(data, 2, nl);
    let b = rtrim(data, 2, nl);
    if a >= b {
        seq![Seq::empty()]
    } else {
        let w = find_ws(data, a, b);
        if w >= b {
            seq![data.subrange(a, b)]
        } else {
            let a2 = skip_ws(data, w + 1, b);
            let b2 = rtrim(data, w + 1, b);
            seq![
                data.subrange(a, w),
                if a2 >= b2 {
                    Seq::empty()
                } else {
                    data.subrange(a2, b2)
                },
            ]
        }
    }
}

/// Whether a path carries the script suffix that re-invokes the loader
/// through the shell.
pub open spec fn ends_with_sh(p: Seq<u8>) -> bool {
    p.len() >= 3 && p[p.len() - 3] == 0x2e && p[p.len() - 2] == 0x73 && p[p.len() - 1] == 0x68
}

/// Extracts `data[a..b]` as a fresh vector.
fn sub_vec(data: &Vec<u8>, a: usize, b: usize) -> (r: Vec<u8>)
    requires
        a <= b <= data@.len(),
    ensures
        r@ == data@.subrange(a as int, b as int),
{
    let mut r: Vec<u8> = Vec::new();
    let mut k: usize = a;
    while k < b
        invariant
            a <= k <= b <= data@.len(),
            r@ == data@.subrange(a as int, k as int),
        decreases b - k,
    {
        r.push(data[k]);
        proof {
            assert(r@ =~= data@.subrange(a as int, k + 1));
        }
        k = k + 1;
    }
    r
}

/// Whether the current thread's byte is ASCII whitespace.
fn is_ws_exec(b: u8) -> (r: bool)
    ensures
        r == is_ascii_ws(b),
{
    b == 0x20 || b == 0x09 || b == 0x0a || b == 0x0c || b == 0x0d
}

/// If the file begins with a shebang marker, the new argument list the
/// loader restarts with: the interpreter words of the header, followed
/// by the current arguments.
pub fn expand_shebang(data: &Vec<u8>, args: &Vec<Vec<u8>>) -> (r: Option<Vec<Vec<u8>>>)
    ensures
        !is_shebang(data@) ==> r is None,
        is_shebang(data@) ==> (r matches Some(v) && ({
            let parts = shebang_parts(data@);
            &&& v@.len() == parts.len() + args@.len()
            &&& forall|i: int| 0 <= i < parts.len() ==> (#[trigger] v@[i])@ == parts[i]
            &&& forall|i: int|
                0 <= i < args@.len() ==> (#[trigger] v@[parts.len() + i])@ == args@[i]@
        })),
{
    if data.len() < 2 || data[0] != 0x23 || data[1] != 0x21 {
        return None;
    }
    let hi: usize = if data.len() < 256 {
        data.len()
    } else {
        256
    };
    proof {
        reveal(shebang_parts);
    }
    let ghost spec_parts = shebang_parts(data@);
    // first line of the header
    let mut nl: usize = 2;
    while nl < hi && data[nl] != 0x0a
        invariant
            2 <= nl <= hi <= data@.len(),
            find_nl(data@, 2, hi as int) == find_nl(data@, nl as int, hi as int),
        decreases hi - nl,
    {
        nl = nl + 1;
    }
    proof {
        assert(find_nl(data@, 2, hi as int) == nl);
    }
    // leading whitespace
    let mut a: usize = 2;
    while a < nl && is_ws_exec(data[a])
        invariant
            2 <= a <= nl <= data@.len(),
            skip_ws(data@, 2, nl as int) == skip_ws(data@, a as int, nl as int),
        decreases nl - a,
    {
        a = a + 1;
    }
    proof {
        assert(skip_ws(data@, 2, nl as int) == a);
    }
    // trailing whitespace
    let mut b: usize = nl;
    while b > 2 && is_ws_exec(data[b - 1])
        invariant
            2 <= b <= nl <= data@.len(),
            rtrim(data@, 2, nl as int) == rtrim(data@, 2, b as int),
        decreases b,
    {
        b = b - 1;
    }
    proof {
        assert(rtrim(data@, 2, nl as int) == b);
    }
    let mut parts: Vec<Vec<u8>> = Vec::new();
    if a >= b {
        parts.push(Vec::new());
        proof {
            assert(parts@[0]@ =~= spec_parts[0]);
        }
    } else {
        // split once on whitespace
        let mut w: usize = a;
        while w < b && !is_ws_exec(data[w])
            invariant
                a <= w <= b <= data@.len(),
                find_ws(data@, a as int, b as int) == find_ws(data@, w as int, b as int),
            decreases b - w,
        {
            w = w + 1;
        }
        proof {
            assert(find_ws(data@, a as int, b as int) == w);
        }
        if w >= b {
            parts.push(sub_vec(data, a, b));
        } else {
            parts.push(sub_vec(data, a, w));
            let mut a2: usize = w + 1;
            while a2 < b && is_ws_exec(data[a2])
                invariant
                    w + 1 <= a2 <= b <= data@.len(),
                    skip_ws(data@, w + 1, b as int) == skip_ws(data@, a2 as int, b as int),
                decreases b - a2,
            {
                a2 = a2 + 1;
            }
            proof {
                assert(skip_ws(data@, w + 1, b as int) == a2);
            }
            let mut b2: usize = b;
            while b2 > w + 1 && is_ws_exec(data[b2 - 1])
                invariant
                    w + 1 <= b2 <= b <= data@.len(),
                    rtrim(data@, w + 1, b as int) == rtrim(data@, w + 1, b2 as int),
                decreases b2,
            {
                b2 = b2 - 1;
            }
            proof {
                assert(rtrim(data@, w + 1, b as int) == b2);
            }
            if a2 >= b2 {
                parts.push(Vec::new());
                proof {
                    assert(parts@[1]@ =~= spec_parts[1]);
                }
            } else {
                parts.push(sub_vec(data, a2, b2));
            }
        }
    }
    proof {
        reveal(shebang_parts);
        assert(parts@.len() == spec_parts.len());
        assert(forall|t: int| 0 <= t < parts@.len() ==> (#[trigger] parts@[t])@ == spec_parts[t]);
    }
    let ghost pl = parts@.len();
    let mut v = parts;
    let mut i: usize = 0;
    while i < args.len()
        invariant
            i <= args@.len(),
            pl == spec_parts.len(),
            spec_parts == shebang_parts(data@),
            v@.len() == pl + i,
            forall|t: int| 0 <= t < pl ==> (#[trigger] v@[t])@ == spec_parts[t],
            forall|t: int| 0 <= t < i ==> (#[trigger] v@[pl + t])@ == args@[t]@,
        decreases args@.len() - i,
    {
        v.push(copy_bytes(&args[i]));
        i = i + 1;
    }
    Some(v)
}

/// How one path-resolution step of the loader proceeds.
#[derive(Debug, PartialEq, Eq)]
pub enum PathResolution {
    /// The path names a shell script by suffix: restart with the shell
    /// prepended to the arguments.
    Restart(Vec<Vec<u8>>),
    /// Read and load this path.
    Proceed(Vec<u8>),
}

/// Picks the path to load — the explicit one, or the first argument —
/// and redirects a path with the script suffix through the shell.
pub fn resolve_load_path(path: Option<&Vec<u8>>, args: &Vec<Vec<u8>>) -> (r: Result<
    PathResolution,
    LinuxError,
>)
    ensures
        path is None && args@.len() == 0 ==> r == Err::<PathResolution, LinuxError>(
            LinuxError::EINVAL,
        ),
        (path is Some || args@.len() > 0) ==> ({
            let eff = match path {
                Some(p) => p@,
                None => args@[0]@,
            };
            &&& ends_with_sh(eff) ==> (r matches Ok(PathResolution::Restart(v)) && v@.len() == 1
                + args@.len() && v@[0]@ == seq![0x2fu8, 0x62u8, 0x69u8, 0x6eu8, 0x2fu8, 0x73u8, 0x68u8]
                && (forall|i: int| 0 <= i < args@.len() ==> (#[trigger] v@[1 + i])@ == args@[i]@))
            &&& !ends_with_sh(eff) ==> (r matches Ok(PathResolution::Proceed(p)) && p@ == eff)
        }),
{
    let eff: &Vec<u8> = match path {
        Some(p) => p,
        None => {
            if args.len() == 0 {
                return Err(LinuxError::EINVAL);
            }
            &args[0]
        },
    };
    let l = eff.len();
    let is_script = l >= 3 && eff[l - 3] == 0x2e && eff[l - 2] == 0x73 && eff[l - 1] == 0x68;
    if is_script {
        let mut sh: Vec<u8> = Vec::new();
        sh.push(0x2f);
        sh.push(0x62);
        sh.push(0x69);
        sh.push(0x6e);
        sh.push(0x2f);
        sh.push(0x73);
        sh.push(0x68);
        proof {
            assert(sh@ =~= seq![0x2fu8, 0x62u8, 0x69u8, 0x6eu8, 0x2fu8, 0x73u8, 0x68u8]);
        }
        let mut v: Vec<Vec<u8>> = Vec::new();
        v.push(sh);
        let mut i: usize = 0;
        while i < args.len()
            invariant
                i <= args@.len(),
                v@.len() == 1 + i,
                v@[0]@ == seq![0x2fu8, 0x62u8, 0x69u8, 0x6eu8, 0x2fu8, 0x73u8, 0x68u8],
                forall|t: int| 0 <= t < i ==> (#[trigger] v@[1 + t])@ == args@[t]@,
            decreases args@.len() - i,
        {
            v.push(copy_bytes(&args[i]));
            i = i + 1;
        }
        Ok(PathResolution::Restart(v))
    } else {
        Ok(PathResolution::Proceed(copy_bytes(eff)))
    }
}

/// The file contents at `path`, taking the most recently recorded entry.
pub open spec fn lookup_path(s: Seq<(Vec<u8>, Vec<u8>)>, path: Seq<u8>) -> Option<Seq<u8>>
    decreases s.len(),
{
    if s.len() == 0 {
        None
    } else if s.last().0@ == path {
        Some(s.last().1@)
    } else {
        lookup_path(s.drop_last(), path)
    }
}

/// The loader's view of the filesystem collaborator: the file contents
/// reachable by path at the moment of the load.
pub struct FsModel {
    /// Recorded files; a later record for the same path shadows an
    /// earlier one.
    pub files: Vec<(Vec<u8>, Vec<u8>)>,
}

/// Whether two byte strings are equal.
pub fn bytes_eq(a: &Vec<u8>, b: &Vec<u8>) -> (r: bool)
    ensures
        r == (a@ == b@),
{
    if a.len() != b.len() {
        return false;
    }
    let mut i: usize = 0;
    while i < a.len()
        invariant
            a@.len() == b@.len(),
            i <= a@.len(),
            forall|t: int| 0 <= t < i ==> a@[t] == b@[t],
        decreases a@.len() - i,
    {
        if a[i] != b[i] {
            return false;
        }
        i = i + 1;
    }
    proof {
        assert(a@ =~= b@);
    }
    true
}

impl FsModel {
    /// The contents of the file at `path`, or `None` if no file is there.
    pub open spec fn file_at(self, path: Seq<u8>) -> Option<Seq<u8>> {
        lookup_path(self.files@, path)
    }

    /// An empty filesystem view.
    pub fn new() -> (m: FsModel)
        ensures
            forall|p: Seq<u8>| m.file_at(p) is None,
    {
        FsModel { files: Vec::new() }
    }

    /// Records (or replaces) the file at `path`.
    pub fn set_file(&mut self, path: Vec<u8>, data: Vec<u8>)
        ensures
            final(self).file_at(path@) == Some(data@),
            forall|p: Seq<u8>| p != path@ ==> final(self).file_at(p) == old(self).file_at(p),
    {
        let ghost gp = path@;
        let ghost gd = data@;
        self.files.push((path, data));
        proof {
            assert(self.files@.drop_last() =~= old(self).files@);
            assert(self.files@.last().0@ == gp);
            assert(self.files@.last().1@ == gd);
        }
    }

    /// Reads the file at `path` through the filesystem collaborator.
    pub fn read_file(&self, path: &Vec<u8>) -> (r: Option<Vec<u8>>)
        ensures
            r is Some <==> self.file_at(path@) is Some,
            r matches Some(v) ==> Some(v@) == self.file_at(path@),
    {
        let mut i: usize = self.files.len();
        proof {
            assert(self.files@.take(i as int) =~= self.files@);
        }
        while i > 0
            invariant
                i <= self.files@.len(),
                self.file_at(path@) == lookup_path(self.files@.take(i as int), path@),
            decreases i,
        {
            proof {
                assert(self.files@.take(i as int).last() == self.files@[i - 1]);
                assert(self.files@.take(i as int).drop_last() =~= self.files@.take(
                    i as int - 1,
                ));
            }
            if bytes_eq(&self.files[i - 1].0, path) {
                return Some(copy_bytes(&self.files[i - 1].1));
            }
            i = i - 1;
        }
        None
    }
}


/// The byte strings of an argument list.
pub open spec fn views_of(items: Seq<Vec<u8>>) -> Seq<Seq<u8>> {
    items.map_values(|v: Vec<u8>| v@)
}

/// The byte string of an optional path.
pub open spec fn opt_view(p: Option<Vec<u8>>) -> Option<Seq<u8>> {
    match p {
        Some(v) => Some(v@),
        None => None,
    }
}

/// The shell the loader substitutes for a script-suffixed path.
pub open spec fn sh_path() -> Seq<u8> {
    seq![0x2fu8, 0x62u8, 0x69u8, 0x6eu8, 0x2fu8, 0x73u8, 0x68u8]
}

/// The whole script-resolution chain as a function of the filesystem:
/// which file is finally loaded, under which path, and with which
/// argument list, after following `.sh` redirects and shebang headers
/// for at most `fuel` steps.
pub open spec fn chain_spec(
    fs: FsModel,
    path: Option<Seq<u8>>,
    args: Seq<Seq<u8>>,
    fuel: nat,
) -> Result<(Seq<u8>, Seq<Seq<u8>>, Seq<u8>), LinuxError>
    decreases fuel,
{
    if fuel == 0 {
        Err(LinuxError::ELOOP)
    } else if path is None && args.len() == 0 {
        Err(LinuxError::EINVAL)
    } else {
        let eff = match path {
            Some(p) => p,
            None => args[0],
        };
        if ends_with_sh(eff) {
            chain_spec(fs, None, seq![sh_path()] + args, (fuel - 1) as nat)
        } else {
            match fs.file_at(eff) {
                None => Err(LinuxError::ENOENT),
                Some(data) => {
                    if is_shebang(data) {
                        chain_spec(fs, None, shebang_parts(data) + args, (fuel - 1) as nat)
                    } else {
                        Ok((data, args, eff))
                    }
                },
            }
        }
    }
}

/// Bound on chained script/interpreter indirections; a deeper chain
/// fails with `ELOOP` instead of looping forever on a cyclic script.
pub const SCRIPT_RECURSION_LIMIT: usize = 64;

/// Follows script indirections until a file that is neither a `.sh`
/// script nor a shebang script is reached: a `.sh` path restarts with
/// the shell prepended to the arguments, and a shebang header restarts
/// with its interpreter words prepended, recursively through chained
/// interpreters.  The outcome — the loaded file, the final argument
/// list, and the path it was read under — is exactly what the
/// resolution chain over the filesystem gives.
#[verifier::rlimit(100)]
#[verifier::spinoff_prover]
pub fn resolve_script_chain(
    fs: &FsModel,
    path: Option<Vec<u8>>,
    args: Vec<Vec<u8>>,
    fuel: usize,
) -> (r: Result<(Vec<u8>, Vec<Vec<u8>>, Vec<u8>), LinuxError>)
    ensures
        ({
            let c = chain_spec(*fs, opt_view(path), views_of(args@), fuel as nat);
            &&& c matches Ok(t) ==> (r matches Ok(p) && p.0@ == t.0 && views_of(p.1@) == t.1
                && p.2@ == t.2)
            &&& c matches Err(e) ==> r == Err::<(Vec<u8>, Vec<Vec<u8>>, Vec<u8>), LinuxError>(
                e,
            )
        }),
        r matches Ok(p) ==> !is_shebang(p.0@) && Some(p.0@) == fs.file_at(p.2@)
            && !ends_with_sh(p.2@),
    decreases fuel,
{
    if fuel == 0 {
        return Err(LinuxError::ELOOP);
    }
    match resolve_load_path(path.as_ref(), &args) {
        Err(e) => Err(e),
        Ok(PathResolution::Restart(a2)) => {
            proof {
                let lhs = views_of(a2@);
                let rhs = seq![sh_path()] + views_of(args@);
                assert forall|i: int| 0 <= i < lhs.len() implies lhs[i] == rhs[i] by {
                    if i == 0 {
                        assert(a2@[0]@ == sh_path());
                    } else {
                        assert(a2@[1 + (i - 1)]@ == args@[i - 1]@);
                    }
                }
                assert(views_of(a2@) =~= seq![sh_path()] + views_of(args@));
            }
            resolve_script_chain(fs, None, a2, fuel - 1)
        },
        Ok(PathResolution::Proceed(p)) => {
            let data = match fs.read_file(&p) {
                None => {
                    return Err(LinuxError::ENOENT);
                },
                Some(d) => d,
            };
            match expand_shebang(&data, &args) {
                Some(a2) => {
                    proof {
                        let parts = shebang_parts(data@);
                        let lhs = views_of(a2@);
                        let rhs = parts + views_of(args@);
                        assert forall|i: int| 0 <= i < lhs.len() implies lhs[i] == rhs[i] by {
                            if i < parts.len() {
                                assert(a2@[i]@ == parts[i]);
                            } else {
                                assert(a2@[parts.len() + (i - parts.len())]@ == args@[i
                                    - parts.len()]@);
                            }
                        }
                        assert(views_of(a2@) =~= shebang_parts(data@) + views_of(args@));
                    }
                    resolve_script_chain(fs, None, a2, fuel - 1)
                },
                None => Ok((data, args, p)),
            }
        },
    }
}



/// Byte offset of item `i` in a packed block of nul-terminated byte
/// strings.
pub open spec fn str_off_v(items: Seq<Seq<u8>>, i: int) -> int
    decreases i,
{
    if i <= 0 {
        0
    } else {
        str_off_v(items, i - 1) + items[i - 1].len() + 1
    }
}

/// The packed block of the first `t` byte strings, each nul-terminated.
pub open spec fn blob_v(items: Seq<Seq<u8>>, t: int) -> Seq<u8>
    decreases t,
{
    if t <= 0 {
        Seq::empty()
    } else {
        blob_v(items, t - 1) + items[t - 1] + seq![0u8]
    }
}

/// Offsets over an argument list equal offsets over its byte strings.
pub proof fn lemma_str_off_views(items: Seq<Vec<u8>>, i: int)
    requires
        i <= items.len(),
    ensures
        str_off(items, i) == str_off_v(views_of(items), i),
    decreases i,
{
    if i > 0 {
        lemma_str_off_views(items, i - 1);
        assert(views_of(items)[i - 1] == items[i - 1]@);
    }
}

/// Packed blocks over an argument list equal those over its byte strings.
pub proof fn lemma_blob_views(items: Seq<Vec<u8>>, t: int)
    requires
        t <= items.len(),
    ensures
        blob_spec(items, t) == blob_v(views_of(items), t),
    decreases t,
{
    if t > 0 {
        lemma_blob_views(items, t - 1);
        assert(views_of(items)[t - 1] == items[t - 1]@);
    }
}

/// A concatenation reads its second part's 64-bit values past the first.
pub proof fn lemma_le64_concat(a: Seq<u8>, b: Seq<u8>, x: int)
    requires
        0 <= x,
        x + 8 <= b.len(),
    ensures
        le64(a + b, a.len() + x) == le64(b, x),
{
    assert forall|k: int| 0 <= k < 8 implies #[trigger] (a + b)[a.len() + x + k] == b[x
        + k] by {}
}

/// A concatenation reads its second part's subranges past the first.
pub proof fn lemma_subrange_concat(a: Seq<u8>, b: Seq<u8>, x: int, y: int)
    requires
        0 <= x <= y <= b.len(),
    ensures
        (a + b).subrange(a.len() + x, a.len() + y) == b.subrange(x, y),
{
    assert((a + b).subrange(a.len() + x, a.len() + y) =~= b.subrange(x, y));
}

/// Everything a load needs to succeed: the chain's file parses (and its
/// dynamic linker, when named, is readable and parses), every mapped
/// segment range is non-empty, in the user range, free, pairwise
/// disjoint and clear of the fixed stack and heap regions, those two
/// regions are themselves free, and the argument block fits the stack.
pub open spec fn load_fits(
    a: AddressSpace,
    fs: FsModel,
    data: Seq<u8>,
    fargs: Seq<Seq<u8>>,
    envs: Seq<Vec<u8>>,
) -> bool {
    let sb = USER_SPACE_BASE as int;
    let ib = USER_INTERP_BASE as int;
    let all = all_load_segs(fs, data);
    &&& elf_parses(data, sb)
    &&& (match elf_interp(data, sb) {
        None => true,
        Some(ip) => fs.file_at(ip) matches Some(ld) && elf_parses(ld, ib),
    })
    &&& segs_in_space(all, a)
    &&& segs_disjoint(all)
    &&& (forall|j: int|
        0 <= j < all.len() ==> (seg_start(#[trigger] all[j]) + seg_asize(all[j])
            <= USER_STACK_TOP - USER_STACK_SIZE || USER_STACK_TOP <= seg_start(all[j]))
            && (seg_start(all[j]) + seg_asize(all[j]) <= USER_HEAP_BASE || USER_HEAP_BASE
            + USER_HEAP_SIZE <= seg_start(all[j])))
    &&& a.range_free(USER_STACK_TOP - USER_STACK_SIZE as int, USER_STACK_SIZE as int)
    &&& a.range_free(USER_HEAP_BASE as int, USER_HEAP_SIZE as int)
    &&& fargs.len() < 0x1000
    &&& envs.len() < 0x1000
    &&& str_off_v(fargs, fargs.len() as int) + str_off(envs, envs.len() as int) + 8 * (
    fargs.len() + envs.len() + 11) + 16 <= USER_STACK_SIZE
}

/// Whether the image parses: a well-formed header, an entry point that
/// fits the machine word after the load bias, and a clean program-header
/// walk.
pub open spec fn elf_parses(data: Seq<u8>, base: int) -> bool {
    &&& elf_header_ok(data)
    &&& le64(data, 24) + bias_of(data, base) <= usize::MAX
    &&& parse_phdrs(
        data,
        le64(data, 32),
        le16(data, 54),
        0,
        le16(data, 56),
        bias_of(data, base),
    ) is Ok
}

/// The error an unparsable image produces.
pub open spec fn elf_parse_err(data: Seq<u8>, base: int) -> LinuxError {
    if !elf_header_ok(data) || le64(data, 24) + bias_of(data, base) > usize::MAX {
        LinuxError::ENOEXEC
    } else {
        match parse_phdrs(
            data,
            le64(data, 32),
            le16(data, 54),
            0,
            le16(data, 56),
            bias_of(data, base),
        ) {
            Ok(t) => LinuxError::ENOEXEC,
            Err(e) => e,
        }
    }
}

/// The image's entry point, load bias applied.
pub open spec fn elf_entry(data: Seq<u8>, base: int) -> int {
    le64(data, 24) + bias_of(data, base)
}

/// The image's loadable segments.
pub open spec fn elf_segs(data: Seq<u8>, base: int) -> Seq<ElfSegment> {
    match parse_phdrs(
        data,
        le64(data, 32),
        le16(data, 54),
        0,
        le16(data, 56),
        bias_of(data, base),
    ) {
        Ok(t) => t.0,
        Err(e) => Seq::empty(),
    }
}

/// The interpreter path the image names, if any.
pub open spec fn elf_interp(data: Seq<u8>, base: int) -> Option<Seq<u8>> {
    match parse_phdrs(
        data,
        le64(data, 32),
        le16(data, 54),
        0,
        le16(data, 56),
        bias_of(data, base),
    ) {
        Ok(t) => t.1,
        Err(e) => None,
    }
}

/// Every loadable segment the load maps: the dynamic linker's (when one
/// is named and readable) followed by the main image's.
pub open spec fn all_load_segs(fs: FsModel, data: Seq<u8>) -> Seq<ElfSegment> {
    match elf_interp(data, USER_SPACE_BASE as int) {
        None => elf_segs(data, USER_SPACE_BASE as int),
        Some(ip) => match fs.file_at(ip) {
            Some(ld) => elf_segs(ld, USER_INTERP_BASE as int) + elf_segs(
                data,
                USER_SPACE_BASE as int,
            ),
            None => elf_segs(data, USER_SPACE_BASE as int),
        },
    }
}

/// Parses the resolved binary, loads its dynamic linker first when one
/// is named, then maps the main image.  Returns the process entry point
/// (the linker's when present, else the image's own), the main image's
/// entry point for the auxiliary vector, and the linker base.
#[verifier::rlimit(100)]
#[verifier::spinoff_prover]
fn load_elf_images(uspace: &mut AddressSpace, fs: &FsModel, data: &Vec<u8>) -> (r: Result<
    (usize, usize, Option<usize>),
    LinuxError,
>)
    requires
        old(uspace).wf(),
        old(uspace).base == USER_SPACE_BASE,
        old(uspace).size == USER_SPACE_SIZE,
    ensures
        final(uspace).wf(),
        final(uspace).base == old(uspace).base,
        final(uspace).size == old(uspace).size,
        final(uspace).pt_root == old(uspace).pt_root,
        final(uspace).kernel_mapped == old(uspace).kernel_mapped,
        ({
            let sb = USER_SPACE_BASE as int;
            let ib = USER_INTERP_BASE as int;
            let all = all_load_segs(*fs, data@);
            &&& !elf_parses(data@, sb) ==> r == Err::<(usize, usize, Option<usize>), LinuxError>(
                elf_parse_err(data@, sb),
            ) && final(uspace).areas@ == old(uspace).areas@
            &&& elf_parses(data@, sb) ==> (elf_interp(data@, sb) matches Some(ip) ==> ({
                &&& fs.file_at(ip) is None ==> r == Err::<
                    (usize, usize, Option<usize>),
                    LinuxError,
                >(LinuxError::ENOENT) && final(uspace).areas@ == old(uspace).areas@
                &&& fs.file_at(ip) matches Some(ld) ==> ({
                    &&& !elf_parses(ld, ib) ==> r == Err::<
                        (usize, usize, Option<usize>),
                        LinuxError,
                    >(elf_parse_err(ld, ib)) && final(uspace).areas@ == old(uspace).areas@
                    &&& elf_parses(ld, ib) ==> (r matches Ok(t) ==> t.0 == elf_entry(ld, ib)
                        && t.1 == elf_entry(data@, sb) && t.2 == Some(USER_INTERP_BASE))
                })
            }))
            &&& elf_parses(data@, sb) && elf_interp(data@, sb) is None ==> (r matches Ok(t)
                ==> t.0 == elf_entry(data@, sb) && t.1 == elf_entry(data@, sb) && t.2 is None)
            &&& elf_parses(data@, sb) && (match elf_interp(data@, sb) {
                None => true,
                Some(ip) => fs.file_at(ip) matches Some(ld) && elf_parses(ld, ib),
            }) && segs_in_space(all, *old(uspace)) && segs_disjoint(all) ==> r is Ok
            &&& r matches Ok(t) ==> final(uspace).areas@.len() == old(uspace).areas@.len()
                + all.len() && final(uspace).areas@.subrange(0, old(uspace).areas@.len() as int)
                == old(uspace).areas@ && (forall|p: int|
                old(uspace).areas@.len() <= p < final(uspace).areas@.len() ==> ({
                    let j = p - old(uspace).areas@.len();
                    (#[trigger] final(uspace).areas@[p]).start == seg_start(all[j])
                        && final(uspace).areas@[p].size == seg_asize(all[j])
                }))
        }),
{
    let ghost sb = USER_SPACE_BASE as int;
    let ghost ib = USER_INTERP_BASE as int;
    let ghost allsegs = all_load_segs(*fs, data@);
    let img = match parse_elf(data, USER_SPACE_BASE) {
        Err(e) => {
            proof {
                assert(!elf_parses(data@, sb));
                assert(e == elf_parse_err(data@, sb));
            }
            return Err(e);
        },
        Ok(img) => img,
    };
    // ties the image length to the machine word for the walk lemma
    let _dlen = data.len();
    proof {
        assert(elf_parses(data@, sb));
        lemma_parse_phdrs_wf(
            data@,
            le64(data@, 32),
            le16(data@, 54),
            0,
            le16(data@, 56),
            bias_of(data@, sb),
        );
    }
    let (entry, interp_base): (usize, Option<usize>) = match img.interp {
        Some(ref ipath) => {
            let ldata = match fs.read_file(ipath) {
                None => {
                    return Err(LinuxError::ENOENT);
                },
                Some(d) => d,
            };
            let limg = match parse_elf(&ldata, USER_INTERP_BASE) {
                Err(e) => {
                    proof {
                        assert(!elf_parses(ldata@, ib));
                        assert(e == elf_parse_err(ldata@, ib));
                    }
                    return Err(e);
                },
                Ok(l) => l,
            };
            let _ldlen = ldata.len();
            proof {
                assert(elf_parses(ldata@, ib));
                lemma_parse_phdrs_wf(
                    ldata@,
                    le64(ldata@, 32),
                    le16(ldata@, 54),
                    0,
                    le16(ldata@, 56),
                    bias_of(ldata@, ib),
                );
                assert(allsegs == limg.segments@ + img.segments@);
                if segs_in_space(allsegs, *old(uspace)) && segs_disjoint(allsegs) {
                    assert forall|j: int|
                        0 <= j < limg.segments@.len() implies seg_asize(
                        #[trigger] limg.segments@[j],
                    ) > 0 && old(uspace).base <= seg_start(limg.segments@[j]) && seg_start(
                        limg.segments@[j],
                    ) + seg_asize(limg.segments@[j]) <= old(uspace).base + old(uspace).size
                        && old(uspace).range_free(
                        seg_start(limg.segments@[j]),
                        seg_asize(limg.segments@[j]),
                    ) by {
                        assert(allsegs[j] == limg.segments@[j]);
                    }
                    assert forall|j: int, k: int|
                        0 <= j < k < limg.segments@.len() implies seg_start(
                        #[trigger] limg.segments@[j],
                    ) + seg_asize(limg.segments@[j]) <= seg_start(#[trigger] limg.segments@[k])
                        || seg_start(limg.segments@[k]) + seg_asize(limg.segments@[k])
                        <= seg_start(limg.segments@[j]) by {
                        assert(allsegs[j] == limg.segments@[j]);
                        assert(allsegs[k] == limg.segments@[k]);
                    }
                    assert(segs_in_space(limg.segments@, *old(uspace)));
                    assert(segs_disjoint(limg.segments@));
                }
            }
            match map_elf(uspace, &limg.segments, &ldata) {
                Err(e) => {
                    proof {
                        assert(!(segs_in_space(allsegs, *old(uspace)) && segs_disjoint(
                            allsegs,
                        )));
                    }
                    return Err(e);
                },
                Ok(()) => {},
            }
            let ghost t1 = *uspace;
            let ghost ol = old(uspace).areas@.len() as int;
            let ghost ll = limg.segments@.len() as int;
            proof {
                if segs_in_space(allsegs, *old(uspace)) && segs_disjoint(allsegs) {
                    assert forall|j: int|
                        0 <= j < img.segments@.len() implies seg_asize(
                        #[trigger] img.segments@[j],
                    ) > 0 && t1.base <= seg_start(img.segments@[j]) && seg_start(
                        img.segments@[j],
                    ) + seg_asize(img.segments@[j]) <= t1.base + t1.size && t1.range_free(
                        seg_start(img.segments@[j]),
                        seg_asize(img.segments@[j]),
                    ) by {
                        assert(allsegs[ll + j] == img.segments@[j]);
                        assert forall|p: int|
                            0 <= p < t1.areas@.len() implies ((#[trigger] t1.areas@[p]).start
                            + t1.areas@[p].size <= seg_start(img.segments@[j]) || seg_start(
                            img.segments@[j],
                        ) + seg_asize(img.segments@[j]) <= t1.areas@[p].start) by {
                            if p < ol {
                                assert(t1.areas@.subrange(0, ol)[p] == t1.areas@[p]);
                                assert(t1.areas@[p] == old(uspace).areas@[p]);
                            } else {
                                let t = p - ol;
                                assert(t1.areas@[p].start == seg_start(limg.segments@[t]));
                                assert(t1.areas@[p].size == seg_asize(limg.segments@[t]));
                                assert(allsegs[t] == limg.segments@[t]);
                            }
                        }
                    }
                    assert forall|j: int, k: int|
                        0 <= j < k < img.segments@.len() implies seg_start(
                        #[trigger] img.segments@[j],
                    ) + seg_asize(img.segments@[j]) <= seg_start(#[trigger] img.segments@[k])
                        || seg_start(img.segments@[k]) + seg_asize(img.segments@[k])
                        <= seg_start(img.segments@[j]) by {
                        assert(allsegs[ll + j] == img.segments@[j]);
                        assert(allsegs[ll + k] == img.segments@[k]);
                    }
                    assert(segs_in_space(img.segments@, t1));
                    assert(segs_disjoint(img.segments@));
                }
            }
            match map_elf(uspace, &img.segments, data) {
                Err(e) => {
                    proof {
                        assert(!(segs_in_space(allsegs, *old(uspace)) && segs_disjoint(
                            allsegs,
                        )));
                    }
                    return Err(e);
                },
                Ok(()) => {},
            }
            proof {
                assert forall|p: int| 0 <= p < ol implies #[trigger] uspace.areas@[p] == old(
                    uspace,
                ).areas@[p] by {
                    assert(uspace.areas@.subrange(0, t1.areas@.len() as int)[p]
                        == uspace.areas@[p]);
                    assert(t1.areas@.subrange(0, ol)[p] == t1.areas@[p]);
                }
                assert(uspace.areas@.subrange(0, ol) =~= old(uspace).areas@);
                assert forall|p: int|
                    ol <= p < uspace.areas@.len() implies ({
                    let j = p - ol;
                    (#[trigger] uspace.areas@[p]).start == seg_start(allsegs[j])
                        && uspace.areas@[p].size == seg_asize(allsegs[j])
                }) by {
                    if p < ol + ll {
                        assert(uspace.areas@.subrange(0, t1.areas@.len() as int)[p]
                            == uspace.areas@[p]);
                        assert(t1.areas@[p].start == seg_start(limg.segments@[p - ol]));
                        assert(t1.areas@[p].size == seg_asize(limg.segments@[p - ol]));
                        assert(allsegs[p - ol] == limg.segments@[p - ol]);
                    } else {
                        let t = p - t1.areas@.len();
                        assert(uspace.areas@[p].start == seg_start(img.segments@[t]));
                        assert(uspace.areas@[p].size == seg_asize(img.segments@[t]));
                        assert(allsegs[ll + t] == img.segments@[t]);
                    }
                }
            }
            (limg.entry, Some(USER_INTERP_BASE))
        },
        None => {
            proof {
                assert(allsegs == img.segments@);
            }
            match map_elf(uspace, &img.segments, data) {
                Err(e) => {
                    proof {
                        assert(!(segs_in_space(allsegs, *old(uspace)) && segs_disjoint(
                            allsegs,
                        )));
                    }
                    return Err(e);
                },
                Ok(()) => {},
            }
            (img.entry, None)
        },
    };
    Ok((entry, img.entry, interp_base))
}

/// Loads a user binary into a fresh address space and lays out its
/// initial stack and heap.
///
/// The path (or first argument) is resolved through script indirections
/// exactly as the resolution chain specifies: a `.sh` suffix and a
/// shebang header each prepend their interpreter to the arguments and
/// restart, recursively, until a plain binary is reached.  That file is
/// parsed as ELF and its segments mapped; a `PT_INTERP` dynamic linker,
/// when present, is loaded at the fixed secondary base and its entry
/// point becomes the process entry point; the fixed-size stack region
/// is mapped below the fixed top with the final argument list, the
/// environment and the auxiliary vector serialized at its top; and the
/// fixed-size heap region is mapped empty.  Returns the entry point and
/// the initial stack pointer, which addresses the serialized argument
/// block — its argument count, pointers into the packed strings that
/// end at the stack top, and the auxiliary pairs recording the page
/// size, the interpreter base and the main image's entry.
#[verifier::rlimit(100)]
#[verifier::spinoff_prover]
pub fn load_user_app(
    uspace: &mut AddressSpace,
    fs: &FsModel,
    path: Option<Vec<u8>>,
    args: Vec<Vec<u8>>,
    envs: &Vec<Vec<u8>>,
) -> (r: Result<(usize, usize), LinuxError>)
    requires
        old(uspace).wf(),
        old(uspace).base == USER_SPACE_BASE,
        old(uspace).size == USER_SPACE_SIZE,
    ensures
        final(uspace).wf(),
        ({
            let c = chain_spec(*fs, opt_view(path), views_of(args@), SCRIPT_RECURSION_LIMIT as nat);
            let sb = USER_SPACE_BASE as int;
            let ib = USER_INTERP_BASE as int;
            &&& c matches Err(e) ==> r == Err::<(usize, usize), LinuxError>(e)
                && final(uspace).areas@ == old(uspace).areas@
            &&& c matches Ok(t) ==> ({
                let data = t.0;
                let fargs = t.1;
                &&& !elf_parses(data, sb) ==> r == Err::<(usize, usize), LinuxError>(
                    elf_parse_err(data, sb),
                ) && final(uspace).areas@ == old(uspace).areas@
                &&& elf_parses(data, sb) ==> (elf_interp(data, sb) matches Some(ip) ==> ({
                    &&& fs.file_at(ip) is None ==> r == Err::<(usize, usize), LinuxError>(
                        LinuxError::ENOENT,
                    ) && final(uspace).areas@ == old(uspace).areas@
                    &&& fs.file_at(ip) matches Some(ld) ==> (!elf_parses(ld, ib) ==> r
                        == Err::<(usize, usize), LinuxError>(elf_parse_err(ld, ib))
                        && final(uspace).areas@ == old(uspace).areas@)
                }))
                &&& load_fits(*old(uspace), *fs, data, fargs, envs@) ==> r is Ok
                &&& r matches Ok(es) ==> ({
                    let entry_expected = match elf_interp(data, sb) {
                        None => elf_entry(data, sb),
                        Some(ip) => elf_entry(fs.file_at(ip).unwrap(), ib),
                    };
                    let ibase: int = match elf_interp(data, sb) {
                        None => 0,
                        Some(ip) => USER_INTERP_BASE as int,
                    };
                    let n = fargs.len() as int;
                    let m = envs@.len() as int;
                    let sbv = str_off_v(fargs, n) + str_off(envs@, m);
                    let areas = final(uspace).areas@;
                    let stack_area = areas[areas.len() - 2];
                    let sd = stack_area.data@;
                    let off = es.1 - (USER_STACK_TOP - USER_STACK_SIZE);
                    &&& es.0 == entry_expected
                    &&& areas.len() >= 2
                    &&& areas.last().start == USER_HEAP_BASE
                    &&& areas.last().size == USER_HEAP_SIZE
                    &&& areas.last().flags == (MapFlags {
                        read: true,
                        write: true,
                        execute: false,
                        user: true,
                    })
                    &&& stack_area.start == USER_STACK_TOP - USER_STACK_SIZE
                    &&& stack_area.size == USER_STACK_SIZE
                    &&& stack_area.flags == (MapFlags {
                        read: true,
                        write: true,
                        execute: false,
                        user: true,
                    })
                    &&& USER_STACK_TOP - USER_STACK_SIZE <= es.1 < USER_STACK_TOP
                    &&& es.1 % 16 == 0
                    &&& le64(sd, off) == n
                    &&& (forall|q: int|
                        0 <= q < n ==> le64(sd, off + 8 * (1 + q)) == USER_STACK_TOP - sbv
                            + #[trigger] str_off_v(fargs, q))
                    &&& le64(sd, off + 8 * (1 + n)) == 0
                    &&& (forall|q: int|
                        0 <= q < m ==> le64(sd, off + 8 * (2 + n + q)) == USER_STACK_TOP - sbv
                            + str_off_v(fargs, n) + #[trigger] str_off(envs@, q))
                    &&& le64(sd, off + 8 * (2 + n + m)) == 0
                    &&& le64(sd, off + 8 * (3 + n + m)) == AT_PAGESZ
                    &&& le64(sd, off + 8 * (4 + n + m)) == PAGE_SIZE_4K
                    &&& le64(sd, off + 8 * (5 + n + m)) == AT_BASE
                    &&& le64(sd, off + 8 * (6 + n + m)) == ibase
                    &&& le64(sd, off + 8 * (7 + n + m)) == AT_ENTRY
                    &&& le64(sd, off + 8 * (8 + n + m)) == elf_entry(data, sb)
                    &&& sd.subrange(USER_STACK_SIZE - sbv, USER_STACK_SIZE as int) == blob_v(
                        fargs,
                        n,
                    ) + blob_spec(envs@, m)
                })
            })
        }),
{
    let chain = match resolve_script_chain(fs, path, args, SCRIPT_RECURSION_LIMIT) {
        Err(e) => {
            return Err(e);
        },
        Ok(c) => c,
    };
    let data = chain.0;
    let final_args = chain.1;
    let ghost gdata = data@;
    let ghost gfargs = views_of(final_args@);
    let ghost fits = load_fits(*old(uspace), *fs, gdata, gfargs, envs@);
    let (entry, main_entry, interp_base) = match load_elf_images(uspace, fs, &data) {
        Err(e) => {
            proof {
                if fits {
                    assert(false);
                }
            }
            return Err(e);
        },
        Ok(t) => t,
    };
    let ghost imgdone = *uspace;
    let ghost ol = old(uspace).areas@.len() as int;
    let ghost allsegs = all_load_segs(*fs, gdata);
    let auxv = build_aux_vector(main_entry, interp_base);
    proof {
        lemma_str_off_views(final_args@, final_args@.len() as int);
        assert(gfargs.len() == final_args@.len());
    }
    let (stack_img, sp) = match app_stack_region(&final_args, envs, &auxv) {
        Err(e) => {
            proof {
                if fits {
                    assert(false);
                }
            }
            return Err(e);
        },
        Ok(p) => p,
    };
    proof {
        lemma_str_off_mono(final_args@, 0, final_args@.len() as int);
        lemma_str_off_mono(envs@, 0, envs@.len() as int);
        assert(stack_img@.len() >= 40);
        assert(sp < USER_STACK_TOP);
        if fits {
            assert forall|p: int|
                0 <= p < uspace.areas@.len() implies ((#[trigger] uspace.areas@[p]).start
                + uspace.areas@[p].size <= USER_STACK_TOP - USER_STACK_SIZE || USER_STACK_TOP
                - USER_STACK_SIZE + USER_STACK_SIZE <= uspace.areas@[p].start) by {
                if p < ol {
                    assert(uspace.areas@.subrange(0, ol)[p] == uspace.areas@[p]);
                    assert(uspace.areas@[p] == old(uspace).areas@[p]);
                } else {
                    assert(uspace.areas@[p].start == seg_start(allsegs[p - ol]));
                    assert(uspace.areas@[p].size == seg_asize(allsegs[p - ol]));
                }
            }
            assert(uspace.range_free(
                USER_STACK_TOP - USER_STACK_SIZE as int,
                USER_STACK_SIZE as int,
            ));
        }
    }
    let zlen = USER_STACK_SIZE - stack_img.len();
    let mut content = zeroed(zlen);
    let ghost zeros = content@;
    append_bytes(&mut content, &stack_img);
    match uspace.map_region(
        USER_STACK_TOP - USER_STACK_SIZE,
        USER_STACK_SIZE,
        MapFlags { read: true, write: true, execute: false, user: true },
        content,
    ) {
        Err(e) => {
            proof {
                if fits {
                    assert(false);
                }
            }
            return Err(e);
        },
        Ok(()) => {},
    }
    let ghost stackdone = *uspace;
    proof {
        if fits {
            assert forall|p: int|
                0 <= p < uspace.areas@.len() implies ((#[trigger] uspace.areas@[p]).start
                + uspace.areas@[p].size <= USER_HEAP_BASE || USER_HEAP_BASE + USER_HEAP_SIZE
                <= uspace.areas@[p].start) by {
                if p < uspace.areas@.len() - 1 {
                    assert(uspace.areas@.subrange(0, imgdone.areas@.len() as int)[p]
                        == uspace.areas@[p]);
                    if p < ol {
                        assert(imgdone.areas@.subrange(0, ol)[p] == imgdone.areas@[p]);
                        assert(uspace.areas@[p] == old(uspace).areas@[p]);
                    } else {
                        assert(uspace.areas@[p].start == seg_start(allsegs[p - ol]));
                        assert(uspace.areas@[p].size == seg_asize(allsegs[p - ol]));
                    }
                }
            }
            assert(uspace.range_free(USER_HEAP_BASE as int, USER_HEAP_SIZE as int));
        }
    }
    match uspace.map_alloc(
        USER_HEAP_BASE,
        USER_HEAP_SIZE,
        MapFlags { read: true, write: true, execute: false, user: true },
    ) {
        Err(e) => {
            proof {
                if fits {
                    assert(false);
                }
            }
            return Err(e);
        },
        Ok(()) => {},
    }
    proof {
        let n2 = uspace.areas@.len() as int;
        assert(uspace.areas@.subrange(0, n2 - 1)[n2 - 2] == uspace.areas@[n2 - 2]);
        let sd = uspace.areas@[n2 - 2].data@;
        assert(sd == zeros + stack_img@);
        let off = sp - (USER_STACK_TOP - USER_STACK_SIZE);
        assert(zeros.len() == off);
        let n = gfargs.len() as int;
        let m = envs@.len() as int;
        assert forall|q: int| 0 <= q < n + m + 11 implies #[trigger] le64(sd, off + 8 * q)
            == le64(stack_img@, 8 * q) by {
            lemma_le64_concat(zeros, stack_img@, 8 * q);
        }
        assert forall|q: int| 0 <= q < n implies str_off(final_args@, q) == #[trigger] str_off_v(
            gfargs,
            q,
        ) by {
            lemma_str_off_views(final_args@, q);
        }
        lemma_blob_views(final_args@, final_args@.len() as int);
        let sbv = str_off_v(gfargs, n) + str_off(envs@, m);
        lemma_subrange_concat(
            zeros,
            stack_img@,
            stack_img@.len() - sbv,
            stack_img@.len() as int,
        );
    }
    Ok((entry, sp))
}

} // verus!
