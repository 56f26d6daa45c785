//! Layout of the boot-information record: a fixed header followed by three
//! arrays, in one contiguous allocation. All sizes here are the handoff
//! format, little-endian and naturally aligned; every element size is a
//! multiple of eight, so each array is aligned by construction.

use vstd::prelude::*;
use crate::error::BootError;

verus! {

/// Bytes of the fixed header: total size, the optional framebuffer
/// descriptor, the optional root-system-description pointer, and one
/// `(offset, length)` pair for each of the three arrays.
pub const BOOT_INFO_HEADER_SIZE: u64 = 136;

/// Bytes of one serialized memory region: start, length, kind word.
pub const MEMORY_REGION_SIZE: u64 = 24;

/// Bytes of one serialized module record: 64 name bytes, start, length.
pub const MODULE_SIZE: u64 = 80;

/// Bytes of one serialized section record: 64 name bytes, address, size,
/// flag word.
pub const ELF_SECTION_SIZE: u64 = 88;

/// Ceiling on each array's element count; keeps every layout computation
/// inside 64 bits.
pub const MAX_ARRAY_LEN: u64 = 0x100_0000_0000;

pub open spec fn spec_memory_regions_offset() -> int {
    BOOT_INFO_HEADER_SIZE as int
}

pub open spec fn spec_modules_offset(num_regions: u64) -> int {
    spec_memory_regions_offset() + num_regions * MEMORY_REGION_SIZE
}

pub open spec fn spec_elf_sections_offset(num_regions: u64, num_modules: u64) -> int {
    spec_modules_offset(num_regions) + num_modules * MODULE_SIZE
}

pub open spec fn spec_layout_size(num_regions: u64, num_modules: u64, num_sections: u64) -> int {
    spec_elf_sections_offset(num_regions, num_modules) + num_sections * ELF_SECTION_SIZE
}

/// Where each array begins inside the allocation, and its total size.
#[derive(Clone, Copy, Debug, PartialEq, Eq, Structural)]
pub struct BootInfoLayout {
    pub memory_regions_offset: u64,
    pub modules_offset: u64,
    pub elf_sections_offset: u64,
    pub size: u64,
}

/// Extends the header with the three arrays in order and records each
/// array's byte offset. Counts large enough to overflow the address space
/// are fatal.
pub fn compute_layout(num_regions: u64, num_modules: u64, num_sections: u64) -> (r: Result<
    BootInfoLayout,
    BootError,
>)
    ensures
        (r is Ok <==> num_regions < MAX_ARRAY_LEN && num_modules < MAX_ARRAY_LEN && num_sections
            < MAX_ARRAY_LEN),
        match r {
            Err(e) => e == BootError::LayoutOverflow,
            Ok(l) => {
                &&& l.memory_regions_offset == spec_memory_regions_offset()
                &&& l.modules_offset == spec_modules_offset(num_regions)
                &&& l.elf_sections_offset == spec_elf_sections_offset(num_regions, num_modules)
                &&& l.size == spec_layout_size(num_regions, num_modules, num_sections)
                // each array is in bounds and leaves room for the next
                &&& BOOT_INFO_HEADER_SIZE <= l.memory_regions_offset
                &&& l.memory_regions_offset + num_regions * MEMORY_REGION_SIZE
                    == l.modules_offset
                &&& l.modules_offset + num_modules * MODULE_SIZE == l.elf_sections_offset
                &&& l.elf_sections_offset + num_sections * ELF_SECTION_SIZE == l.size
                // every offset is aligned for its eight-byte-worded elements
                &&& l.memory_regions_offset % 8 == 0
                &&& l.modules_offset % 8 == 0
                &&& l.elf_sections_offset % 8 == 0
                &&& l.size < 0x4000_0000_0000_0000
            },
        },
{
    if num_regions >= MAX_ARRAY_LEN || num_modules >= MAX_ARRAY_LEN || num_sections
        >= MAX_ARRAY_LEN {
        return Err(BootError::LayoutOverflow);
    }
    let memory_regions_offset = BOOT_INFO_HEADER_SIZE;
    let modules_offset = memory_regions_offset + num_regions * MEMORY_REGION_SIZE;
    let elf_sections_offset = modules_offset + num_modules * MODULE_SIZE;
    let size = elf_sections_offset + num_sections * ELF_SECTION_SIZE;
    Ok(BootInfoLayout { memory_regions_offset, modules_offset, elf_sections_offset, size })
}

/// Every offset of the header, added to the base address at which the
/// kernel observes the record, lands inside the allocation, and so does the
/// last byte of each array; all offsets are aligned for their elements.
pub proof fn lemma_offsets_in_allocation(
    base: u64,
    num_regions: u64,
    num_modules: u64,
    num_sections: u64,
)
    requires
        num_regions < MAX_ARRAY_LEN,
        num_modules < MAX_ARRAY_LEN,
        num_sections < MAX_ARRAY_LEN,
        base + spec_layout_size(num_regions, num_modules, num_sections) <= u64::MAX,
    ensures
        base + spec_memory_regions_offset() + num_regions * MEMORY_REGION_SIZE <= base
            + spec_layout_size(num_regions, num_modules, num_sections),
        base + spec_modules_offset(num_regions) + num_modules * MODULE_SIZE <= base
            + spec_layout_size(num_regions, num_modules, num_sections),
        base + spec_elf_sections_offset(num_regions, num_modules) + num_sections
            * ELF_SECTION_SIZE == base + spec_layout_size(num_regions, num_modules, num_sections),
        spec_memory_regions_offset() % 8 == 0,
        spec_modules_offset(num_regions) % 8 == 0,
        spec_elf_sections_offset(num_regions, num_modules) % 8 == 0,
{
}

} // verus!
