//! Reading a program image: the header of a 64-bit little-endian ELF file
//! and its loadable segments.

use vstd::prelude::*;
use crate::mm::{segment_views, ProgramImage, Segment, SegmentView};

verus! {

/// Bytes in the file header.
pub const ELF_HEADER_SIZE: usize = 64;

/// Bytes of a program header that are read.
pub const PROGRAM_HEADER_SIZE: usize = 56;

/// Type of a program header that describes a loadable segment.
pub const PT_LOAD: u32 = 1;

/// The 16-bit number at `at`, low byte first.
pub open spec fn le16(b: Seq<u8>, at: int) -> int {
    b[at] + b[at + 1] * 256
}

/// The 32-bit number at `at`, low byte first.
pub open spec fn le32(b: Seq<u8>, at: int) -> int {
    le16(b, at) + le16(b, at + 2) * 65536
}

/// The 64-bit number at `at`, low byte first.
pub open spec fn le64(b: Seq<u8>, at: int) -> int {
    le32(b, at) + le32(b, at + 4) * 4294967296
}

/// The file starts like a 64-bit little-endian ELF file and holds a whole
/// header, whose program headers are large enough to be read.
pub open spec fn header_ok(b: Seq<u8>) -> bool {
    &&& b.len() >= ELF_HEADER_SIZE
    &&& b[0] == 0x7f
    &&& b[1] == 0x45
    &&& b[2] == 0x4c
    &&& b[3] == 0x46
    &&& b[4] == 2
    &&& b[5] == 1
    &&& le64(b, 24) <= usize::MAX
    &&& le16(b, 54) >= PROGRAM_HEADER_SIZE
}

/// The address of the first instruction.
pub open spec fn entry_of(b: Seq<u8>) -> int {
    le64(b, 24)
}

/// Number of program headers.
pub open spec fn header_count(b: Seq<u8>) -> int {
    le16(b, 56)
}

/// Where program header `i` starts in the file.
pub open spec fn header_at(b: Seq<u8>, i: int) -> int {
    le64(b, 32) + i * le16(b, 54)
}

/// What a program header says.
pub enum HeaderView {
    /// It reaches beyond the file, or its numbers do not fit the machine.
    Malformed,
    /// It describes nothing to load.
    Skip,
    /// It describes a segment to load.
    Load(SegmentView),
}

/// What program header `i` says.
pub open spec fn header_view(b: Seq<u8>, i: int) -> HeaderView {
    let at = header_at(b, i);
    if at + PROGRAM_HEADER_SIZE > b.len() {
        HeaderView::Malformed
    } else if le32(b, at) != PT_LOAD {
        HeaderView::Skip
    } else {
        let offset = le64(b, at + 8);
        let vaddr = le64(b, at + 16);
        let filesz = le64(b, at + 32);
        let memsz = le64(b, at + 40);
        if offset + filesz > b.len() || vaddr > usize::MAX || memsz > usize::MAX {
            HeaderView::Malformed
        } else {
            HeaderView::Load(
                SegmentView {
                    start_va: vaddr as usize,
                    mem_size: memsz as usize,
                    flags: (le32(b, at + 4) % 8) as u8,
                    data: b.subrange(offset, offset + filesz),
                },
            )
        }
    }
}

/// The segments that the first `n` program headers describe, in order;
/// nothing if one of these headers is malformed.
pub open spec fn segments_of(b: Seq<u8>, n: int) -> Option<Seq<SegmentView>>
    decreases n,
{
    if n <= 0 {
        Some(Seq::empty())
    } else {
        match segments_of(b, n - 1) {
            None => None,
            Some(segs) => match header_view(b, n - 1) {
                HeaderView::Malformed => None,
                HeaderView::Skip => Some(segs),
                HeaderView::Load(seg) => Some(segs.push(seg)),
            },
        }
    }
}

fn read16(b: &Vec<u8>, at: usize) -> (x: u16)
    requires
        at + 2 <= b.len(),
    ensures
        x == le16(b@, at as int),
{
    (b[at] as u16) + (b[at + 1] as u16) * 256
}

fn read32(b: &Vec<u8>, at: usize) -> (x: u32)
    requires
        at + 4 <= b.len(),
    ensures
        x == le32(b@, at as int),
{
    (read16(b, at) as u32) + (read16(b, at + 2) as u32) * 65536
}

fn read64(b: &Vec<u8>, at: usize) -> (x: u64)
    requires
        at + 8 <= b.len(),
    ensures
        x == le64(b@, at as int),
{
    (read32(b, at) as u64) + (read32(b, at + 4) as u64) * 4294967296
}

/// Once a program header is malformed, the file is.
proof fn lemma_malformed_for_good(b: Seq<u8>, k: int, n: int)
    requires
        0 <= k <= n,
        segments_of(b, k) is None,
    ensures
        segments_of(b, n) is None,
    decreases n - k,
{
    if k < n {
        lemma_malformed_for_good(b, k, n - 1);
    }
}

/// What the bytes of a program file say: the entry point and the segments
/// to load, or nothing if they are no ELF file of the kind this kernel
/// loads or a program header is malformed.
pub open spec fn program_of(b: Seq<u8>) -> Option<(usize, Seq<SegmentView>)> {
    if header_ok(b) && segments_of(b, header_count(b)) is Some {
        Some((entry_of(b) as usize, segments_of(b, header_count(b))->0))
    } else {
        None
    }
}

/// Reads a program image. Nothing if the bytes are not an ELF file of the
/// kind this kernel loads or a program header is malformed.
pub fn parse_elf(bytes: &Vec<u8>) -> (image: Option<ProgramImage>)
    ensures
        match image {
            Some(img) => program_of(bytes@) == Some((img.entry, segment_views(img.segments@))),
            None => program_of(bytes@) is None,
        },
{
    let len = bytes.len();
    if len < ELF_HEADER_SIZE {
        return None;
    }
    if bytes[0] != 0x7f || bytes[1] != 0x45 || bytes[2] != 0x4c || bytes[3] != 0x46 || bytes[4] != 2
        || bytes[5] != 1 {
        return None;
    }
    let entry = read64(bytes, 24);
    let phoff = read64(bytes, 32);
    let phentsize = read16(bytes, 54);
    let phnum = read16(bytes, 56);
    if entry > usize::MAX as u64 || (phentsize as usize) < PROGRAM_HEADER_SIZE {
        return None;
    }
    let mut segments: Vec<Segment> = Vec::new();
    let mut i: u16 = 0;
    assert(segment_views(segments@) =~= Seq::empty());
    while i < phnum
        invariant
            len == bytes@.len(),
            len >= ELF_HEADER_SIZE,
            phoff == le64(bytes@, 32),
            phentsize == le16(bytes@, 54),
            phnum == header_count(bytes@),
            i <= phnum,
            segments_of(bytes@, i as int) == Some(segment_views(segments@)),
        decreases phnum - i,
    {
        let ghost at_spec = header_at(bytes@, i as int);
        assert(0 <= i * phentsize < 0x1_0000_0000) by (nonlinear_arith)
            requires
                0 <= i < 65536,
                0 <= phentsize < 65536,
        ;
        let step = (i as u64) * (phentsize as u64);
        if phoff > (len as u64) || step > (len as u64) - phoff || (len as u64) - phoff - step
            < PROGRAM_HEADER_SIZE as u64 {
            proof {
                assert(header_view(bytes@, i as int) is Malformed);
                lemma_malformed_for_good(bytes@, i as int + 1, phnum as int);
            }
            return None;
        }
        let at = (phoff + step) as usize;
        assert(at == at_spec);
        if read32(bytes, at) == PT_LOAD {
            let offset = read64(bytes, at + 8);
            let vaddr = read64(bytes, at + 16);
            let filesz = read64(bytes, at + 32);
            let memsz = read64(bytes, at + 40);
            if offset > (len as u64) || filesz > (len as u64) - offset || vaddr > usize::MAX as u64
                || memsz > usize::MAX as u64 {
                proof {
                    assert(header_view(bytes@, i as int) is Malformed);
                    lemma_malformed_for_good(bytes@, i as int + 1, phnum as int);
                }
                return None;
            }
            let flags = (read32(bytes, at + 4) % 8) as u8;
            let mut data: Vec<u8> = Vec::new();
            let mut k: usize = 0;
            let start = offset as usize;
            let count = filesz as usize;
            while k < count
                invariant
                    start + count <= bytes.len(),
                    k <= count,
                    data@ == bytes@.subrange(start as int, start + k),
                decreases count - k,
            {
                data.push(bytes[start + k]);
                assert(bytes@.subrange(start as int, start + k + 1) =~= bytes@.subrange(
                    start as int,
                    start + k,
                ).push(bytes@[start + k]));
                k = k + 1;
            }
            let seg = Segment { start_va: vaddr as usize, mem_size: memsz as usize, flags, data };
            let ghost before = segments@;
            segments.push(seg);
            assert(segment_views(segments@) =~= segment_views(before).push(seg@));
        }
        i = i + 1;
    }
    Some(ProgramImage { entry: entry as usize, segments })
}

} // verus!
