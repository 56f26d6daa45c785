//! The wire form of the boot-information arrays: little-endian, naturally
//! aligned records, written into the allocation and read back by the kernel
//! through the header's `(offset, length)` pairs.

use vstd::prelude::*;
use crate::boot_info::BootInformation;
use crate::frame_buffer::{FrameBuffer, FrameBufferInfo, PixelFormat};
use crate::kernel::ElfSection;
use crate::modules::{module_wf, Module};
use crate::regions::{MemoryRegion, MemoryRegionKind};

verus! {

/// Byte `k` of the little-endian form of `x`.
pub open spec fn spec_le_byte(x: u64, k: int) -> u8 {
    if k == 0 {
        (x & 0xFF) as u8
    } else if k == 1 {
        ((x >> 8) & 0xFF) as u8
    } else if k == 2 {
        ((x >> 16) & 0xFF) as u8
    } else if k == 3 {
        ((x >> 24) & 0xFF) as u8
    } else if k == 4 {
        ((x >> 32) & 0xFF) as u8
    } else if k == 5 {
        ((x >> 40) & 0xFF) as u8
    } else if k == 6 {
        ((x >> 48) & 0xFF) as u8
    } else {
        ((x >> 56) & 0xFF) as u8
    }
}

/// The eight bytes starting at `off` read back as one little-endian word.
pub open spec fn spec_read_u64(b: Seq<u8>, off: int) -> u64 {
    (b[off] as u64) | (b[off + 1] as u64) << 8 | (b[off + 2] as u64) << 16 | (b[off + 3] as u64)
        << 24 | (b[off + 4] as u64) << 32 | (b[off + 5] as u64) << 40 | (b[off + 6] as u64) << 48
        | (b[off + 7] as u64) << 56
}

/// Reading the eight little-endian bytes of a word yields the word.
pub proof fn lemma_le_round_trip(x: u64, b: Seq<u8>, off: int)
    requires
        forall|k: int| 0 <= k < 8 ==> b[off + k] == spec_le_byte(x, k),
    ensures
        spec_read_u64(b, off) == x,
{
    assert(b[off + 0] == spec_le_byte(x, 0));
    assert(b[off + 1] == spec_le_byte(x, 1));
    assert(b[off + 2] == spec_le_byte(x, 2));
    assert(b[off + 3] == spec_le_byte(x, 3));
    assert(b[off + 4] == spec_le_byte(x, 4));
    assert(b[off + 5] == spec_le_byte(x, 5));
    assert(b[off + 6] == spec_le_byte(x, 6));
    assert(b[off + 7] == spec_le_byte(x, 7));
    assert(((x & 0xFF) as u8 as u64) | (((x >> 8) & 0xFF) as u8 as u64) << 8 | (((x >> 16)
        & 0xFF) as u8 as u64) << 16 | (((x >> 24) & 0xFF) as u8 as u64) << 24 | (((x >> 32)
        & 0xFF) as u8 as u64) << 32 | (((x >> 40) & 0xFF) as u8 as u64) << 40 | (((x >> 48)
        & 0xFF) as u8 as u64) << 48 | (((x >> 56) & 0xFF) as u8 as u64) << 56 == x)
        by (bit_vector);
}

/// Appends the eight little-endian bytes of `x`.
pub fn put_u64(buf: &mut Vec<u8>, x: u64)
    ensures
        final(buf)@.len() == old(buf)@.len() + 8,
        forall|j: int| 0 <= j < old(buf)@.len() ==> final(buf)@[j] == old(buf)@[j],
        forall|k: int| 0 <= k < 8 ==> final(buf)@[old(buf)@.len() + k] == spec_le_byte(x, k),
{
    buf.push((x & 0xFF) as u8);
    buf.push(((x >> 8u64) & 0xFF) as u8);
    buf.push(((x >> 16u64) & 0xFF) as u8);
    buf.push(((x >> 24u64) & 0xFF) as u8);
    buf.push(((x >> 32u64) & 0xFF) as u8);
    buf.push(((x >> 40u64) & 0xFF) as u8);
    buf.push(((x >> 48u64) & 0xFF) as u8);
    buf.push(((x >> 56u64) & 0xFF) as u8);
}

/// Reads the little-endian word at `off`.
pub fn get_u64(buf: &Vec<u8>, off: usize) -> (r: u64)
    requires
        off + 8 <= buf@.len(),
    ensures
        r == spec_read_u64(buf@, off as int),
{
    let n = buf.len();
    (buf[off] as u64) | (buf[off + 1] as u64) << 8u64 | (buf[off + 2] as u64) << 16u64 | (buf[off
        + 3] as u64) << 24u64 | (buf[off + 4] as u64) << 32u64 | (buf[off + 5] as u64) << 40u64 | (
    buf[off + 6] as u64) << 48u64 | (buf[off + 7] as u64) << 56u64
}

/// A region kind as one word: the low half names the kind, the high half
/// carries the firmware tag of a region the bootloader does not interpret.
pub open spec fn spec_kind_word(k: MemoryRegionKind) -> u64 {
    match k {
        MemoryRegionKind::Usable => 0,
        MemoryRegionKind::UnknownUefi(tag) => (1 + (tag as u64) * 0x1_0000_0000) as u64,
        MemoryRegionKind::BootloaderReserved => 2,
        MemoryRegionKind::KernelReserved => 3,
    }
}

pub open spec fn spec_word_kind(w: u64) -> MemoryRegionKind {
    if w % 0x1_0000_0000 == 0 {
        MemoryRegionKind::Usable
    } else if w % 0x1_0000_0000 == 2 {
        MemoryRegionKind::BootloaderReserved
    } else if w % 0x1_0000_0000 == 3 {
        MemoryRegionKind::KernelReserved
    } else {
        MemoryRegionKind::UnknownUefi((w / 0x1_0000_0000) as u32)
    }
}

pub proof fn lemma_kind_word_round_trip(k: MemoryRegionKind)
    ensures
        spec_word_kind(spec_kind_word(k)) == k,
{
    match k {
        MemoryRegionKind::UnknownUefi(tag) => {
            let w = 1 + (tag as u64) * 0x1_0000_0000;
            vstd::arithmetic::div_mod::lemma_fundamental_div_mod_converse_mod(
                w as int,
                0x1_0000_0000,
                tag as int,
                1,
            );
            vstd::arithmetic::div_mod::lemma_fundamental_div_mod_converse_div(
                w as int,
                0x1_0000_0000,
                tag as int,
                1,
            );
        },
        _ => {},
    }
}

pub fn kind_word(k: MemoryRegionKind) -> (r: u64)
    ensures
        r == spec_kind_word(k),
{
    match k {
        MemoryRegionKind::Usable => 0,
        MemoryRegionKind::UnknownUefi(tag) => 1 + (tag as u64) * 0x1_0000_0000,
        MemoryRegionKind::BootloaderReserved => 2,
        MemoryRegionKind::KernelReserved => 3,
    }
}

pub fn word_kind(w: u64) -> (r: MemoryRegionKind)
    ensures
        r == spec_word_kind(w),
{
    let low = w % 0x1_0000_0000;
    if low == 0 {
        MemoryRegionKind::Usable
    } else if low == 2 {
        MemoryRegionKind::BootloaderReserved
    } else if low == 3 {
        MemoryRegionKind::KernelReserved
    } else {
        MemoryRegionKind::UnknownUefi((w / 0x1_0000_0000) as u32)
    }
}

/// The region record decoded from the twenty-four bytes at `off`: start,
/// length, kind word.
pub open spec fn spec_read_region(b: Seq<u8>, off: int) -> MemoryRegion {
    MemoryRegion {
        start: spec_read_u64(b, off),
        len: spec_read_u64(b, off + 8),
        kind: spec_word_kind(spec_read_u64(b, off + 16)),
    }
}

/// Appends one region record; what the kernel decodes at its offset is the
/// region itself.
pub fn put_region(buf: &mut Vec<u8>, r: &MemoryRegion)
    ensures
        final(buf)@.len() == old(buf)@.len() + 24,
        forall|j: int| 0 <= j < old(buf)@.len() ==> final(buf)@[j] == old(buf)@[j],
        spec_read_region(final(buf)@, old(buf)@.len() as int) == *r,
{
    put_u64(buf, r.start);
    put_u64(buf, r.len);
    let w = kind_word(r.kind);
    put_u64(buf, w);
    proof {
        lemma_le_round_trip(r.start, buf@, old(buf)@.len() as int);
        lemma_le_round_trip(r.len, buf@, old(buf)@.len() as int + 8);
        lemma_le_round_trip(w, buf@, old(buf)@.len() as int + 16);
        lemma_kind_word_round_trip(r.kind);
    }
}

/// Reads the region record at `off`.
pub fn get_region(buf: &Vec<u8>, off: usize) -> (r: MemoryRegion)
    requires
        off + 24 <= buf@.len(),
    ensures
        r == spec_read_region(buf@, off as int),
{
    let n = buf.len();
    MemoryRegion {
        start: get_u64(buf, off),
        len: get_u64(buf, off + 8),
        kind: word_kind(get_u64(buf, off + 16)),
    }
}

/// Appends the whole memory-regions array in order.
pub fn put_regions(buf: &mut Vec<u8>, regions: &Vec<MemoryRegion>)
    ensures
        final(buf)@.len() == old(buf)@.len() + regions@.len() * 24,
        forall|j: int| 0 <= j < old(buf)@.len() ==> final(buf)@[j] == old(buf)@[j],
        forall|i: int|
            0 <= i < regions@.len() ==> #[trigger] spec_read_region(
                final(buf)@,
                old(buf)@.len() + i * 24,
            ) == regions@[i],
{
    let mut i: usize = 0;
    while i < regions.len()
        invariant
            0 <= i <= regions@.len(),
            buf@.len() == old(buf)@.len() + i * 24,
            forall|j: int| 0 <= j < old(buf)@.len() ==> buf@[j] == old(buf)@[j],
            forall|t: int|
                0 <= t < i ==> #[trigger] spec_read_region(buf@, old(buf)@.len() + t * 24)
                    == regions@[t],
        decreases regions@.len() - i,
    {
        let ghost before = buf@;
        put_region(buf, &regions[i]);
        proof {
            assert forall|t: int|
                0 <= t < i + 1 implies #[trigger] spec_read_region(
                buf@,
                old(buf)@.len() + t * 24,
            ) == regions@[t] by {
                if t < i {
                    assert(spec_read_region(before, old(buf)@.len() + t * 24) == regions@[t]);
                    assert((t + 1) * 24 <= i * 24);
                    assert(spec_read_region(buf@, old(buf)@.len() + t * 24) == spec_read_region(
                        before,
                        old(buf)@.len() + t * 24,
                    ));
                } else {
                    assert(old(buf)@.len() + t * 24 == before.len());
                }
            }
        }
        i += 1;
    }
}

/// Reads back `len` region records from `off`: the kernel's view of the
/// array through its `(offset, length)` pair.
pub fn get_regions(buf: &Vec<u8>, off: usize, len: usize) -> (out: Vec<MemoryRegion>)
    requires
        off + len * 24 <= buf@.len(),
    ensures
        out@.len() == len,
        forall|i: int|
            0 <= i < len ==> out@[i] == #[trigger] spec_read_region(buf@, off + i * 24),
{
    let mut out: Vec<MemoryRegion> = Vec::new();
    let mut i: usize = 0;
    while i < len
        invariant
            0 <= i <= len,
            off + len * 24 <= buf@.len(),
            out@.len() == i,
            forall|t: int|
                0 <= t < i ==> out@[t] == #[trigger] spec_read_region(buf@, off + t * 24),
        decreases len - i,
    {
        let n = buf.len();
        proof {
            assert((i + 1) * 24 <= len * 24);
        }
        let r = get_region(buf, off + i * 24);
        out.push(r);
        i += 1;
    }
    out
}

/// Reading the memory-regions array back through its `(offset, length)`
/// pair yields exactly the records written.
pub fn write_and_read_regions_round_trip(regions: &Vec<MemoryRegion>) -> (out: Vec<MemoryRegion>)
    ensures
        out@ == regions@,
{
    let mut buf: Vec<u8> = Vec::new();
    put_regions(&mut buf, regions);
    let out = get_regions(&buf, 0, regions.len());
    proof {
        assert forall|i: int| 0 <= i < regions@.len() implies out@[i] == regions@[i] by {
            assert(spec_read_region(buf@, 0 + i * 24) == regions@[i]);
            assert(out@[i] == spec_read_region(buf@, 0 + i * 24));
        }
        assert(out@ =~= regions@);
    }
    out
}

/// Appends raw bytes, the fixed-capacity name field of a record.
pub fn put_bytes(buf: &mut Vec<u8>, bytes: &Vec<u8>)
    ensures
        final(buf)@.len() == old(buf)@.len() + bytes@.len(),
        forall|j: int| 0 <= j < old(buf)@.len() ==> final(buf)@[j] == old(buf)@[j],
        final(buf)@.subrange(
            old(buf)@.len() as int,
            old(buf)@.len() as int + bytes@.len(),
        ) == bytes@,
{
    let mut i: usize = 0;
    while i < bytes.len()
        invariant
            0 <= i <= bytes@.len(),
            buf@.len() == old(buf)@.len() + i,
            forall|j: int| 0 <= j < old(buf)@.len() ==> buf@[j] == old(buf)@[j],
            forall|t: int| 0 <= t < i ==> buf@[old(buf)@.len() + t] == bytes@[t],
        decreases bytes@.len() - i,
    {
        buf.push(bytes[i]);
        i += 1;
    }
    proof {
        assert(buf@.subrange(old(buf)@.len() as int, old(buf)@.len() as int + bytes@.len()) =~= bytes@);
    }
}

/// Reads `n` raw bytes at `off`.
pub fn get_bytes(buf: &Vec<u8>, off: usize, n: usize) -> (out: Vec<u8>)
    requires
        off + n <= buf@.len(),
    ensures
        out@ == buf@.subrange(off as int, off + n),
{
    let m = buf.len();
    let mut out: Vec<u8> = Vec::new();
    let mut i: usize = 0;
    while i < n
        invariant
            0 <= i <= n,
            off + n <= buf@.len(),
            buf@.len() == m,
            out@.len() == i,
            forall|t: int| 0 <= t < i ==> out@[t] == buf@[off + t],
        decreases n - i,
    {
        out.push(buf[off + i]);
        i += 1;
    }
    proof {
        assert(out@ =~= buf@.subrange(off as int, off + n));
    }
    out
}

/// Appends one module record: its padded name, start, length.
pub fn put_module(buf: &mut Vec<u8>, m: &Module)
    requires
        module_wf(*m),
    ensures
        final(buf)@.len() == old(buf)@.len() + 80,
        forall|j: int| 0 <= j < old(buf)@.len() ==> final(buf)@[j] == old(buf)@[j],
        final(buf)@.subrange(old(buf)@.len() as int, old(buf)@.len() as int + 64) == m.name@,
        spec_read_u64(final(buf)@, old(buf)@.len() as int + 64) == m.start,
        spec_read_u64(final(buf)@, old(buf)@.len() as int + 72) == m.len,
{
    put_bytes(buf, &m.name);
    let ghost after_name = buf@;
    put_u64(buf, m.start);
    put_u64(buf, m.len);
    proof {
        assert(buf@.subrange(old(buf)@.len() as int, old(buf)@.len() as int + 64) =~= m.name@);
        lemma_le_round_trip(m.start, buf@, old(buf)@.len() as int + 64);
        lemma_le_round_trip(m.len, buf@, old(buf)@.len() as int + 72);
    }
}

/// Reads the module record at `off`; what comes back is exactly what
/// `put_module` wrote there.
pub fn get_module(buf: &Vec<u8>, off: usize) -> (r: Module)
    requires
        off + 80 <= buf@.len(),
    ensures
        r.name@ == buf@.subrange(off as int, off + 64),
        r.start == spec_read_u64(buf@, off + 64),
        r.len == spec_read_u64(buf@, off + 72),
        module_wf(r),
{
    let n = buf.len();
    let name = get_bytes(buf, off, 64);
    let start = get_u64(buf, off + 64);
    let len = get_u64(buf, off + 72);
    Module { name, start, len }
}

/// Appends one section record: its padded name, address, size, flag word.
pub fn put_elf_section(buf: &mut Vec<u8>, s: &ElfSection)
    requires
        s.name@.len() == 64,
    ensures
        final(buf)@.len() == old(buf)@.len() + 88,
        forall|j: int| 0 <= j < old(buf)@.len() ==> final(buf)@[j] == old(buf)@[j],
        final(buf)@.subrange(old(buf)@.len() as int, old(buf)@.len() as int + 64) == s.name@,
        spec_read_u64(final(buf)@, old(buf)@.len() as int + 64) == s.virtual_address,
        spec_read_u64(final(buf)@, old(buf)@.len() as int + 72) == s.size,
        spec_read_u64(final(buf)@, old(buf)@.len() as int + 80) == s.flags,
{
    put_bytes(buf, &s.name);
    put_u64(buf, s.virtual_address);
    put_u64(buf, s.size);
    put_u64(buf, s.flags);
    proof {
        assert(buf@.subrange(old(buf)@.len() as int, old(buf)@.len() as int + 64) =~= s.name@);
        lemma_le_round_trip(s.virtual_address, buf@, old(buf)@.len() as int + 64);
        lemma_le_round_trip(s.size, buf@, old(buf)@.len() as int + 72);
        lemma_le_round_trip(s.flags, buf@, old(buf)@.len() as int + 80);
    }
}

/// Reads the section record at `off`; what comes back is exactly what
/// `put_elf_section` wrote there.
pub fn get_elf_section(buf: &Vec<u8>, off: usize) -> (r: ElfSection)
    requires
        off + 88 <= buf@.len(),
    ensures
        r.name@ == buf@.subrange(off as int, off + 64),
        r.virtual_address == spec_read_u64(buf@, off + 64),
        r.size == spec_read_u64(buf@, off + 72),
        r.flags == spec_read_u64(buf@, off + 80),
{
    let n = buf.len();
    let name = get_bytes(buf, off, 64);
    let virtual_address = get_u64(buf, off + 64);
    let size = get_u64(buf, off + 72);
    let flags = get_u64(buf, off + 80);
    ElfSection { name, virtual_address, size, flags }
}


pub open spec fn spec_pixel_format_word(p: PixelFormat) -> u64 {
    match p {
        PixelFormat::Rgb => 0,
        PixelFormat::Bgr => 1,
    }
}

pub open spec fn spec_word_pixel_format(w: u64) -> PixelFormat {
    if w == 0 {
        PixelFormat::Rgb
    } else {
        PixelFormat::Bgr
    }
}

pub fn pixel_format_word(p: PixelFormat) -> (r: u64)
    ensures
        r == spec_pixel_format_word(p),
{
    match p {
        PixelFormat::Rgb => 0,
        PixelFormat::Bgr => 1,
    }
}

pub fn word_pixel_format(w: u64) -> (r: PixelFormat)
    ensures
        r == spec_word_pixel_format(w),
{
    if w == 0 {
        PixelFormat::Rgb
    } else {
        PixelFormat::Bgr
    }
}

/// The header decoded from the 136 bytes at `off`: seventeen words — total
/// size; framebuffer flag, start and six geometry words; root-pointer flag
/// and value; the three `(offset, length)` pairs.
pub open spec fn spec_read_boot_information(b: Seq<u8>, off: int) -> BootInformation {
    BootInformation {
        size: spec_read_u64(b, off),
        frame_buffer: if spec_read_u64(b, off + 8) == 0 {
            None
        } else {
            Some(
                FrameBuffer {
                    start: spec_read_u64(b, off + 16),
                    info: FrameBufferInfo {
                        size: spec_read_u64(b, off + 24),
                        width: spec_read_u64(b, off + 32),
                        height: spec_read_u64(b, off + 40),
                        pixel_format: spec_word_pixel_format(spec_read_u64(b, off + 48)),
                        bytes_per_pixel: spec_read_u64(b, off + 56),
                        stride: spec_read_u64(b, off + 64),
                    },
                },
            )
        },
        rsdp_address: if spec_read_u64(b, off + 72) == 0 {
            None
        } else {
            Some(spec_read_u64(b, off + 80))
        },
        memory_regions_offset: spec_read_u64(b, off + 88),
        memory_regions_len: spec_read_u64(b, off + 96),
        modules_offset: spec_read_u64(b, off + 104),
        modules_len: spec_read_u64(b, off + 112),
        elf_sections_offset: spec_read_u64(b, off + 120),
        elf_sections_len: spec_read_u64(b, off + 128),
    }
}

/// Appends the 136-byte header; what the kernel decodes at its offset is
/// the header itself.
#[verifier::rlimit(100)]
pub fn put_boot_information(buf: &mut Vec<u8>, h: &BootInformation)
    ensures
        final(buf)@.len() == old(buf)@.len() + 136,
        forall|j: int| 0 <= j < old(buf)@.len() ==> final(buf)@[j] == old(buf)@[j],
        spec_read_boot_information(final(buf)@, old(buf)@.len() as int) == *h,
{
    put_u64(buf, h.size);
    let (fb_flag, fb_start, fb_size, fb_width, fb_height, fb_pf, fb_bpp, fb_stride): (
        u64,
        u64,
        u64,
        u64,
        u64,
        u64,
        u64,
        u64,
    ) = match &h.frame_buffer {
        None => (0, 0, 0, 0, 0, 0, 0, 0),
        Some(fb) => (
            1,
            fb.start,
            fb.info.size,
            fb.info.width,
            fb.info.height,
            pixel_format_word(fb.info.pixel_format),
            fb.info.bytes_per_pixel,
            fb.info.stride,
        ),
    };
    put_u64(buf, fb_flag);
    put_u64(buf, fb_start);
    put_u64(buf, fb_size);
    put_u64(buf, fb_width);
    put_u64(buf, fb_height);
    put_u64(buf, fb_pf);
    put_u64(buf, fb_bpp);
    put_u64(buf, fb_stride);
    let (rsdp_flag, rsdp): (u64, u64) = match h.rsdp_address {
        None => (0, 0),
        Some(a) => (1, a),
    };
    put_u64(buf, rsdp_flag);
    put_u64(buf, rsdp);
    put_u64(buf, h.memory_regions_offset);
    put_u64(buf, h.memory_regions_len);
    put_u64(buf, h.modules_offset);
    put_u64(buf, h.modules_len);
    put_u64(buf, h.elf_sections_offset);
    put_u64(buf, h.elf_sections_len);
    proof {
        let base = old(buf)@.len() as int;
        lemma_le_round_trip(h.size, buf@, base);
        lemma_le_round_trip(fb_flag, buf@, base + 8);
        lemma_le_round_trip(fb_start, buf@, base + 16);
        lemma_le_round_trip(fb_size, buf@, base + 24);
        lemma_le_round_trip(fb_width, buf@, base + 32);
        lemma_le_round_trip(fb_height, buf@, base + 40);
        lemma_le_round_trip(fb_pf, buf@, base + 48);
        lemma_le_round_trip(fb_bpp, buf@, base + 56);
        lemma_le_round_trip(fb_stride, buf@, base + 64);
        lemma_le_round_trip(rsdp_flag, buf@, base + 72);
        lemma_le_round_trip(rsdp, buf@, base + 80);
        lemma_le_round_trip(h.memory_regions_offset, buf@, base + 88);
        lemma_le_round_trip(h.memory_regions_len, buf@, base + 96);
        lemma_le_round_trip(h.modules_offset, buf@, base + 104);
        lemma_le_round_trip(h.modules_len, buf@, base + 112);
        lemma_le_round_trip(h.elf_sections_offset, buf@, base + 120);
        lemma_le_round_trip(h.elf_sections_len, buf@, base + 128);
    }
}

/// Reads the header at `off`.
pub fn get_boot_information(buf: &Vec<u8>, off: usize) -> (r: BootInformation)
    requires
        off + 136 <= buf@.len(),
    ensures
        r == spec_read_boot_information(buf@, off as int),
{
    let n = buf.len();
    let frame_buffer = if get_u64(buf, off + 8) == 0 {
        None
    } else {
        Some(
            FrameBuffer {
                start: get_u64(buf, off + 16),
                info: FrameBufferInfo {
                    size: get_u64(buf, off + 24),
                    width: get_u64(buf, off + 32),
                    height: get_u64(buf, off + 40),
                    pixel_format: word_pixel_format(get_u64(buf, off + 48)),
                    bytes_per_pixel: get_u64(buf, off + 56),
                    stride: get_u64(buf, off + 64),
                },
            },
        )
    };
    let rsdp_address = if get_u64(buf, off + 72) == 0 {
        None
    } else {
        Some(get_u64(buf, off + 80))
    };
    BootInformation {
        size: get_u64(buf, off),
        frame_buffer,
        rsdp_address,
        memory_regions_offset: get_u64(buf, off + 88),
        memory_regions_len: get_u64(buf, off + 96),
        modules_offset: get_u64(buf, off + 104),
        modules_len: get_u64(buf, off + 112),
        elf_sections_offset: get_u64(buf, off + 120),
        elf_sections_len: get_u64(buf, off + 128),
    }
}


} // verus!
