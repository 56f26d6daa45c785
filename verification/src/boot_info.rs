//! The boot-information allocation: one contiguous run of frames holding
//! the header and its three arrays, written through the firmware identity
//! mapping and read by the kernel at a fresh virtual base.

use vstd::prelude::*;
use crate::addr::{spec_page_count, Page, VirtualAddress, CANONICAL_HIGH_START, PAGE_SIZE};
use crate::error::BootError;
use crate::frame_buffer::FrameBuffer;
use crate::layout::{compute_layout, spec_layout_size, BootInfoLayout, MAX_ARRAY_LEN};
use crate::memory::{
    lemma_pages_align, lemma_vpn_of_high_floor, lemma_vpn_step, vpn_of, Memory, HEAP_LIMIT,
};
use crate::pte::PteFlags;

verus! {

/// The boot-information storage as the kernel will see it: the virtual
/// address of the header, and the byte offset of each trailing array. The
/// kernel resolves an array by adding its offset to the address at which it
/// observes the header.
#[derive(Clone, Copy, Debug, PartialEq, Eq, Structural)]
pub struct BootInformationKernelMappings {
    pub boot_info: u64,
    pub memory_regions_offset: u64,
    pub modules_offset: u64,
    pub elf_sections_offset: u64,
}

/// A fresh boot-information allocation: its total size, the physical start
/// of the contiguous frame run backing it — the writer's window through the
/// firmware identity mapping — and the kernel-side view of the same bytes.
#[derive(Clone, Copy, Debug, PartialEq, Eq, Structural)]
pub struct BootInformationAllocation {
    pub size: u64,
    pub physical_start: u64,
    pub kernel_mappings: BootInformationKernelMappings,
}

/// The fixed header of the record the kernel receives.
#[derive(Clone, Debug, PartialEq, Eq, Structural)]
pub struct BootInformation {
    pub size: u64,
    pub frame_buffer: Option<FrameBuffer>,
    pub rsdp_address: Option<u64>,
    pub memory_regions_offset: u64,
    pub memory_regions_len: u64,
    pub modules_offset: u64,
    pub modules_len: u64,
    pub elf_sections_offset: u64,
    pub elf_sections_len: u64,
}

/// Computes the combined layout for the given array counts, allocates one
/// contiguous run of frames covering it, and maps it at a fresh virtual
/// base with read-write access. Fails when the counts overflow the layout
/// or no contiguous run is large enough.
#[verifier::rlimit(100)]
pub fn create_boot_info(
    memory: &mut Memory,
    num_memory_regions: u64,
    num_modules: u64,
    num_elf_sections: u64,
) -> (r: Result<BootInformationAllocation, BootError>)
    requires
        old(memory).wf(),
        num_memory_regions < MAX_ARRAY_LEN,
        num_modules < MAX_ARRAY_LEN,
        num_elf_sections < MAX_ARRAY_LEN,
        old(memory).spec_next_free() + spec_layout_size(
            num_memory_regions,
            num_modules,
            num_elf_sections,
        ) + 2 * PAGE_SIZE <= HEAP_LIMIT,
    ensures
        final(memory).wf(),
        final(memory).spec_root_frame() == old(memory).spec_root_frame(),
        (r is Ok <==> exists|i: int|
            0 <= i < old(memory).spec_free().len() && (#[trigger] old(memory).spec_free()[i]).count
                >= spec_page_count(
                (spec_layout_size(num_memory_regions, num_modules, num_elf_sections)) as u64,
            )),
        match r {
            Err(e) => e == BootError::OutOfFrames,
            Ok(a) => {
                let pages = spec_page_count(a.size);
                let base = vpn_of(a.kernel_mappings.boot_info);
                &&& a.size == spec_layout_size(num_memory_regions, num_modules, num_elf_sections)
                &&& a.kernel_mappings.boot_info == old(memory).spec_next_free()
                &&& a.kernel_mappings.memory_regions_offset
                    == crate::layout::spec_memory_regions_offset()
                &&& a.kernel_mappings.modules_offset == crate::layout::spec_modules_offset(
                    num_memory_regions,
                )
                &&& a.kernel_mappings.elf_sections_offset
                    == crate::layout::spec_elf_sections_offset(num_memory_regions, num_modules)
                &&& a.physical_start % PAGE_SIZE == 0
                &&& a.physical_start + pages * PAGE_SIZE <= crate::addr::CANONICAL_LOW_END
                // the whole allocation is mapped, page for page in order
                &&& (forall|k: int|
                    0 <= k < pages ==> #[trigger] final(memory).spec_walk((base + k) as u64)
                        == Some(
                        (
                            (a.physical_start / PAGE_SIZE + k) as u64,
                            PteFlags::spec_present_writable(),
                        ),
                    ))
                &&& (forall|v: u64|
                    v < crate::page_table::VPN_LIMIT && !(base <= v < base + pages)
                        ==> #[trigger] final(memory).spec_walk(v) == old(memory).spec_walk(v))
            },
        },
{
    let layout = match compute_layout(num_memory_regions, num_modules, num_elf_sections) {
        Err(_) => {
            proof {
                assert(false);
            }
            return Err(BootError::OutOfFrames);
        },
        Ok(l) => l,
    };
    let pages = (layout.size + (PAGE_SIZE - 1)) / PAGE_SIZE;
    proof {
        assert(pages == spec_page_count(layout.size)) by {
            lemma_pages_align(0, layout.size);
        }
        assert(pages >= 1);
    }
    let frames = match memory.allocate_frames(pages) {
        None => {
            return Err(BootError::OutOfFrames);
        },
        Some(f) => f,
    };
    let start = memory.get_free_address(layout.size);
    let ghost base = vpn_of(start.spec_value());
    proof {
        lemma_pages_align(start.spec_value(), layout.size);
        lemma_vpn_step(start.spec_value(), pages);
        lemma_vpn_of_high_floor(start.spec_value());
    }
    let start_page = Page::containing_address(start);
    let mut k: u64 = 0;
    while k < pages
        invariant
            1 <= pages,
            0 <= k <= pages,
            memory.wf(),
            memory.spec_root_frame() == old(memory).spec_root_frame(),
            start.spec_value() == old(memory).spec_next_free(),
            start.wf(),
            crate::addr::is_page_aligned(start.spec_value()),
            CANONICAL_HIGH_START <= start.spec_value(),
            start.spec_value() + pages * PAGE_SIZE <= HEAP_LIMIT,
            start_page.spec_start() == start.spec_value(),
            start_page.wf(),
            frames.wf(),
            frames.spec_number() + pages <= crate::memory::FRAME_LIMIT,
            base == vpn_of(start.spec_value()),
            base + pages == vpn_of(memory.spec_next_free()),
            base >= 0x8_0000_0000,
            base + pages < crate::page_table::VPN_LIMIT,
            memory.spec_next_free() == start.spec_value() + pages * PAGE_SIZE,
            forall|t: int|
                0 <= t < k ==> #[trigger] memory.spec_walk((base + t) as u64) == Some(
                    ((frames.spec_number() + t) as u64, PteFlags::spec_present_writable()),
                ),
            forall|v: u64|
                v < crate::page_table::VPN_LIMIT && !(base <= v < base + pages)
                    ==> #[trigger] memory.spec_walk(v) == old(memory).spec_walk(v),
            forall|v: u64|
                base <= v < base + pages && #[trigger] memory.spec_walk(v) is Some ==> base <= v
                    < base + k,
        decreases pages - k,
    {
        let page = start_page.plus(k);
        let frame = frames.plus(k);
        proof {
            lemma_vpn_step(start.spec_value(), k);
            assert(page.spec_vpn() == base + k);
            assert(memory.spec_walk(page.spec_vpn()) is None);
            assert(frame.spec_number() == frames.spec_number() + k) by {
                vstd::arithmetic::div_mod::lemma_fundamental_div_mod(
                    frames.spec_start() as int,
                    PAGE_SIZE as int,
                );
                vstd::arithmetic::div_mod::lemma_fundamental_div_mod_converse_div(
                    frames.spec_start() + k * PAGE_SIZE,
                    PAGE_SIZE as int,
                    frames.spec_start() as int / PAGE_SIZE as int + k,
                    0,
                );
            }
        }
        let ghost before = *memory;
        let res = memory.map(page, frame, PteFlags::present_writable());
        proof {
            if res is Err {
                assert(false);
            }
            assert forall|t: int|
                0 <= t < k + 1 implies #[trigger] memory.spec_walk((base + t) as u64) == Some(
                ((frames.spec_number() + t) as u64, PteFlags::spec_present_writable()),
            ) by {
                if t < k {
                    assert(memory.spec_walk((base + t) as u64) == before.spec_walk(
                        (base + t) as u64,
                    ));
                }
            }
        }
        if let Err(_) = res {
            return Err(BootError::OutOfFrames);
        }
        k += 1;
    }
    let physical_start = frames.start_address().value();
    Ok(
        BootInformationAllocation {
            size: layout.size,
            physical_start,
            kernel_mappings: BootInformationKernelMappings {
                boot_info: start.value(),
                memory_regions_offset: layout.memory_regions_offset,
                modules_offset: layout.modules_offset,
                elf_sections_offset: layout.elf_sections_offset,
            },
        },
    )
}

/// Assembles the header from the finished parts: the total size from the
/// layout, the framebuffer as remapped, the root-system-description
/// pointer as found, and one `(offset, length)` pair per array.
pub fn finish_boot_info(
    layout: BootInfoLayout,
    frame_buffer: Option<FrameBuffer>,
    rsdp_address: Option<u64>,
    num_memory_regions: u64,
    num_modules: u64,
    num_elf_sections: u64,
) -> (r: BootInformation)
    ensures
        r.size == layout.size,
        r.frame_buffer == frame_buffer,
        r.rsdp_address == rsdp_address,
        r.memory_regions_offset == layout.memory_regions_offset,
        r.memory_regions_len == num_memory_regions,
        r.modules_offset == layout.modules_offset,
        r.modules_len == num_modules,
        r.elf_sections_offset == layout.elf_sections_offset,
        r.elf_sections_len == num_elf_sections,
{
    BootInformation {
        size: layout.size,
        frame_buffer,
        rsdp_address,
        memory_regions_offset: layout.memory_regions_offset,
        memory_regions_len: num_memory_regions,
        modules_offset: layout.modules_offset,
        modules_len: num_modules,
        elf_sections_offset: layout.elf_sections_offset,
        elf_sections_len: num_elf_sections,
    }
}

} // verus!
