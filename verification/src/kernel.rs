//! Loading the kernel: mapping its program segments into the new address
//! space and recording its sections for the kernel's own use.

use vstd::prelude::*;
use crate::addr::{Page, VirtualAddress, CANONICAL_HIGH_START, PAGE_SIZE};
use crate::error::BootError;
use crate::mappings::{frame_at, mapped_with_at};
use crate::memory::{lemma_vpn_of_high_floor, lemma_vpn_of_monotone, lemma_vpn_step, vpn_of, Memory};
use crate::modules::{pad_name, MODULE_NAME_CAPACITY};
use crate::pte::PteFlags;

verus! {

/// The section may be written to.
pub const ELF_SECTION_WRITABLE: u64 = 1;

/// The section occupies memory at run time.
pub const ELF_SECTION_ALLOCATED: u64 = 2;

/// The section holds instructions.
pub const ELF_SECTION_EXECUTABLE: u64 = 4;

/// One named kernel section: where it ended up, its size, and its
/// read-write-execute flag word. The kernel reads these records to find its
/// own parts.
#[derive(Clone, Debug, PartialEq, Eq)]
pub struct ElfSection {
    pub name: Vec<u8>,
    pub virtual_address: u64,
    pub size: u64,
    pub flags: u64,
}

/// Builds a section record; the name is padded to the fixed capacity and
/// an overlong name is fatal.
pub fn make_elf_section(name: &Vec<u8>, virtual_address: u64, size: u64, flags: u64) -> (r: Result<
    ElfSection,
    BootError,
>)
    ensures
        (r is Ok <==> name@.len() <= MODULE_NAME_CAPACITY),
        match r {
            Err(e) => e == BootError::NameTooLong,
            Ok(s) => {
                &&& s.name@.len() == MODULE_NAME_CAPACITY
                &&& s.name@.subrange(0, name@.len() as int) == name@
                &&& (forall|i: int| name@.len() <= i < MODULE_NAME_CAPACITY ==> s.name@[i] == 0u8)
                &&& s.virtual_address == virtual_address
                &&& s.size == size
                &&& s.flags == flags
            },
        },
{
    let padded = match pad_name(name) {
        Err(e) => {
            return Err(e);
        },
        Ok(p) => p,
    };
    Ok(ElfSection { name: padded, virtual_address, size, flags })
}

/// Maps one loadable kernel segment: `pages` fresh frames at the segment's
/// fixed virtual base, writable and executable as its program header says.
/// Fails when the pool runs dry or any page of the range is mapped already:
/// the bootloader does not remap.
#[verifier::rlimit(100)]
pub fn map_kernel_segment(
    memory: &mut Memory,
    vaddr: VirtualAddress,
    pages: u64,
    writable: bool,
    executable: bool,
) -> (r: Result<(), BootError>)
    requires
        old(memory).wf(),
        vaddr.wf(),
        crate::addr::is_page_aligned(vaddr.spec_value()),
        CANONICAL_HIGH_START <= vaddr.spec_value(),
        pages >= 1,
        vaddr.spec_value() + pages * PAGE_SIZE <= old(memory).spec_next_free(),
    ensures
        final(memory).wf(),
        final(memory).spec_root_frame() == old(memory).spec_root_frame(),
        final(memory).spec_next_free() == old(memory).spec_next_free(),
        forall|f: u64|
            old(memory).spec_allocated().contains(f)
                ==> #[trigger] final(memory).spec_allocated().contains(f),
        r is Ok ==> final(memory).spec_total_free() == old(memory).spec_total_free() - pages,
        ({
            let base = vpn_of(vaddr.spec_value());
            &&& (r is Ok <==> old(memory).spec_total_free() >= pages && (forall|k: int|
                0 <= k < pages ==> #[trigger] old(memory).spec_walk((base + k) as u64) is None))
            &&& (forall|v: u64|
                v < crate::page_table::VPN_LIMIT && !(base <= v < base + pages)
                    ==> #[trigger] final(memory).spec_walk(v) == old(memory).spec_walk(v))
            &&& (r is Ok ==> {
                &&& (forall|k: int|
                    0 <= k < pages ==> #[trigger] mapped_with_at(
                        *final(memory),
                        (base + k) as u64,
                        PteFlags::spec_segment_flags(writable, executable),
                    ))
                // every segment frame is newly allocated, none handed out
                // before the call
                &&& (forall|k: int|
                    0 <= k < pages ==> final(memory).spec_allocated().contains(
                        #[trigger] frame_at(*final(memory), (base + k) as u64),
                    ) && !old(memory).spec_allocated().contains(
                        frame_at(*final(memory), (base + k) as u64),
                    ))
                &&& (forall|k: int, l: int|
                    0 <= k < pages && 0 <= l < pages && k != l ==> #[trigger] frame_at(
                        *final(memory),
                        (base + k) as u64,
                    ) != #[trigger] frame_at(*final(memory), (base + l) as u64))
            })
        }),
{
    let ghost base = vpn_of(vaddr.spec_value());
    proof {
        lemma_vpn_of_high_floor(vaddr.spec_value());
        lemma_vpn_step(vaddr.spec_value(), pages);
        lemma_vpn_of_monotone(
            (vaddr.spec_value() + pages * PAGE_SIZE) as u64,
            old(memory).spec_next_free(),
        );
        lemma_vpn_of_high_floor(old(memory).spec_next_free());
    }
    let base_page = Page::containing_address(vaddr);

    // First pass: the whole range must be unmapped, or the segment would
    // remap pages, which is fatal.
    let mut k: u64 = 0;
    while k < pages
        invariant
            0 <= k <= pages,
            memory == old(memory),
            memory.wf(),
            vaddr.wf(),
            crate::addr::is_page_aligned(vaddr.spec_value()),
            CANONICAL_HIGH_START <= vaddr.spec_value(),
            vaddr.spec_value() + pages * PAGE_SIZE <= old(memory).spec_next_free(),
            base_page.spec_start() == vaddr.spec_value(),
            base_page.wf(),
            base == vpn_of(vaddr.spec_value()),
            base + pages < crate::page_table::VPN_LIMIT,
            forall|t: int|
                0 <= t < k ==> #[trigger] old(memory).spec_walk((base + t) as u64) is None,
        decreases pages - k,
    {
        let page = base_page.plus(k);
        proof {
            lemma_vpn_step(vaddr.spec_value(), k);
            assert(page.spec_vpn() == base + k);
        }
        if let Some(_) = memory.lookup(page) {
            return Err(BootError::AlreadyMapped);
        }
        k += 1;
    }

    proof {
        assert forall|v: u64| base <= v < base + pages implies memory.spec_walk(v) is None by {
            let t: int = v - base;
            assert(old(memory).spec_walk((base + t) as u64) is None);
            assert((base + t) as u64 == v);
        }
    }
    let mut k: u64 = 0;
    while k < pages
        invariant
            1 <= pages,
            0 <= k <= pages,
            memory.wf(),
            memory.spec_root_frame() == old(memory).spec_root_frame(),
            memory.spec_next_free() == old(memory).spec_next_free(),
            memory.spec_total_free() == old(memory).spec_total_free() - k,
            forall|f: u64|
                old(memory).spec_allocated().contains(f)
                    ==> #[trigger] memory.spec_allocated().contains(f),
            vaddr.wf(),
            crate::addr::is_page_aligned(vaddr.spec_value()),
            CANONICAL_HIGH_START <= vaddr.spec_value(),
            vaddr.spec_value() + pages * PAGE_SIZE <= old(memory).spec_next_free(),
            base_page.spec_start() == vaddr.spec_value(),
            base_page.wf(),
            base == vpn_of(vaddr.spec_value()),
            base + pages <= vpn_of(memory.spec_next_free()),
            base >= 0x8_0000_0000,
            base + pages < crate::page_table::VPN_LIMIT,
            forall|k2: int|
                0 <= k2 < pages ==> #[trigger] old(memory).spec_walk((base + k2) as u64) is None,
            forall|t: int|
                0 <= t < k ==> #[trigger] mapped_with_at(
                    *memory,
                    (base + t) as u64,
                    PteFlags::spec_segment_flags(writable, executable),
                ) && memory.spec_allocated().contains(frame_at(*memory, (base + t) as u64))
                    && !old(memory).spec_allocated().contains(
                    frame_at(*memory, (base + t) as u64),
                ),
            forall|t: int, u: int|
                0 <= t < k && 0 <= u < k && t != u ==> #[trigger] frame_at(
                    *memory,
                    (base + t) as u64,
                ) != #[trigger] frame_at(*memory, (base + u) as u64),
            forall|v: u64|
                v < crate::page_table::VPN_LIMIT && !(base <= v < base + pages)
                    ==> #[trigger] memory.spec_walk(v) == old(memory).spec_walk(v),
            forall|v: u64|
                base <= v < base + pages && #[trigger] memory.spec_walk(v) is Some ==> base <= v
                    < base + k,
        decreases pages - k,
    {
        let page = base_page.plus(k);
        proof {
            lemma_vpn_step(vaddr.spec_value(), k);
            assert(page.spec_vpn() == base + k);
        }
        let ghost at_loop = *memory;
        let frame = match memory.allocate_frame() {
            None => {
                proof {
                    crate::memory::lemma_ranges_total_nonneg(memory.spec_free());
                }
                return Err(BootError::OutOfFrames);
            },
            Some(f) => f,
        };
        let flags = PteFlags::for_segment(writable, executable);
        let res = memory.map(page, frame, flags);
        proof {
            if res is Err {
                assert(false);
            }
            assert(memory.spec_walk(page.spec_vpn()) == Some((frame.spec_number(), flags)));
            assert forall|t: int|
                0 <= t < k + 1 implies #[trigger] mapped_with_at(
                *memory,
                (base + t) as u64,
                PteFlags::spec_segment_flags(writable, executable),
            ) && memory.spec_allocated().contains(frame_at(*memory, (base + t) as u64))
                && !old(memory).spec_allocated().contains(
                frame_at(*memory, (base + t) as u64),
            ) by {
                if t < k {
                    assert(mapped_with_at(
                        at_loop,
                        (base + t) as u64,
                        PteFlags::spec_segment_flags(writable, executable),
                    ));
                    assert(at_loop.spec_allocated().contains(frame_at(at_loop, (base + t) as u64)));
                    assert(!old(memory).spec_allocated().contains(
                        frame_at(at_loop, (base + t) as u64),
                    ));
                    assert(memory.spec_walk((base + t) as u64) == at_loop.spec_walk(
                        (base + t) as u64,
                    ));
                } else {
                    assert((base + t) as u64 == page.spec_vpn());
                    assert(!at_loop.spec_allocated().contains(frame.spec_number()));
                }
            }
            assert forall|t: int, u: int|
                0 <= t < k + 1 && 0 <= u < k + 1 && t != u implies #[trigger] frame_at(
                *memory,
                (base + t) as u64,
            ) != #[trigger] frame_at(*memory, (base + u) as u64) by {
                if t < k && u < k {
                    assert(frame_at(at_loop, (base + t) as u64) != frame_at(
                        at_loop,
                        (base + u) as u64,
                    ));
                    assert(memory.spec_walk((base + t) as u64) == at_loop.spec_walk(
                        (base + t) as u64,
                    ));
                    assert(memory.spec_walk((base + u) as u64) == at_loop.spec_walk(
                        (base + u) as u64,
                    ));
                } else if t == k && u < k {
                    assert((base + t) as u64 == page.spec_vpn());
                    assert(mapped_with_at(
                        at_loop,
                        (base + u) as u64,
                        PteFlags::spec_segment_flags(writable, executable),
                    ));
                    assert(at_loop.spec_allocated().contains(frame_at(at_loop, (base + u) as u64)));
                    assert(memory.spec_walk((base + u) as u64) == at_loop.spec_walk(
                        (base + u) as u64,
                    ));
                    assert(!at_loop.spec_allocated().contains(frame.spec_number()));
                } else if u == k && t < k {
                    assert((base + u) as u64 == page.spec_vpn());
                    assert(mapped_with_at(
                        at_loop,
                        (base + t) as u64,
                        PteFlags::spec_segment_flags(writable, executable),
                    ));
                    assert(at_loop.spec_allocated().contains(frame_at(at_loop, (base + t) as u64)));
                    assert(memory.spec_walk((base + t) as u64) == at_loop.spec_walk(
                        (base + t) as u64,
                    ));
                    assert(!at_loop.spec_allocated().contains(frame.spec_number()));
                }
            }
        }
        if let Err(_) = res {
            return Err(BootError::AlreadyMapped);
        }
        k += 1;
    }
    proof {
        crate::memory::lemma_ranges_total_nonneg(memory.spec_free());
        assert forall|t: int| 0 <= t < pages implies memory.spec_allocated().contains(
            #[trigger] frame_at(*memory, (base + t) as u64),
        ) && !old(memory).spec_allocated().contains(
            frame_at(*memory, (base + t) as u64),
        ) by {
            assert(mapped_with_at(
                *memory,
                (base + t) as u64,
                PteFlags::spec_segment_flags(writable, executable),
            ));
        }
    }
    Ok(())
}

} // verus!
