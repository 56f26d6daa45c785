//! The handoff mappings: kernel stack with its guard page, the identity
//! mapping of the trampoline page, and the framebuffer.

use vstd::prelude::*;
use crate::addr::{
    is_page_aligned, spec_page_count, Frame, Page, PhysicalAddress, VirtualAddress,
    CANONICAL_HIGH_START, CANONICAL_LOW_END, PAGE_SIZE,
};
use crate::error::BootError;
use crate::frame_buffer::FrameBuffer;
use crate::memory::{
    lemma_pages_align, lemma_vpn_of_high_floor, lemma_vpn_of_low, lemma_vpn_step, vpn_of, Memory,
    HEAP_LIMIT,
};
use crate::pte::PteFlags;

verus! {

/// Size of the kernel stack's usable-plus-guard region: eighteen pages.
pub const STACK_SIZE: u64 = 18 * 4096;

/// What the mapping builder hands on: the first address above the stack's
/// highest mapped page, and where the framebuffer was remapped, if anywhere.
#[derive(Clone, Copy, Debug, PartialEq, Eq, Structural)]
pub struct Mappings {
    pub stack_top: VirtualAddress,
    pub frame_buffer: Option<VirtualAddress>,
}

/// The frame a page walks to; meaningful only where the walk succeeds.
pub open spec fn frame_at(m: Memory, vpn: u64) -> u64 {
    match m.spec_walk(vpn) {
        Some((f, _)) => f,
        None => 0,
    }
}

/// The page walks to some frame with exactly these flags.
pub open spec fn mapped_with_at(m: Memory, vpn: u64, flags: PteFlags) -> bool {
    match m.spec_walk(vpn) {
        Some((_, fl)) => fl == flags,
        None => false,
    }
}

/// Pages the framebuffer mapping will cover; none when graphics are absent.
pub open spec fn spec_fb_page_count(fb: Option<FrameBuffer>) -> int {
    match fb {
        Some(f) => spec_page_count(f.info.size),
        None => 0,
    }
}

/// The trampoline page can be identity-mapped: it is unmapped or already
/// identity-mapped.
pub open spec fn trampoline_free(m: Memory, trampoline: PhysicalAddress) -> bool {
    match m.spec_walk(vpn_of(trampoline.spec_value())) {
        None => true,
        Some((f, _)) => f == vpn_of(trampoline.spec_value()),
    }
}

/// Reserves a stack region of `stack_size` bytes, rounded up to whole pages,
/// and maps every page of it except the first — the guard page — to a fresh
/// frame each. Returns the address just above the region: the stack grows
/// down from it. A region of one page has no usable frame and is fatal.
#[verifier::rlimit(100)]
pub fn map_stack(memory: &mut Memory, stack_size: u64) -> (r: Result<VirtualAddress, BootError>)
    requires
        old(memory).wf(),
        stack_size >= 1,
        old(memory).spec_next_free() + stack_size + 2 * PAGE_SIZE <= HEAP_LIMIT,
    ensures
        final(memory).wf(),
        final(memory).spec_root_frame() == old(memory).spec_root_frame(),
        (r is Ok <==> spec_page_count(stack_size) >= 2 && old(memory).spec_total_free()
            >= spec_page_count(stack_size) - 1),
        (spec_page_count(stack_size) == 1 ==> r == Err::<VirtualAddress, BootError>(
            BootError::StackTooSmall,
        ) && *final(memory) == *old(memory)),
        (spec_page_count(stack_size) >= 2 && old(memory).spec_total_free() < spec_page_count(
            stack_size,
        ) - 1 ==> r == Err::<VirtualAddress, BootError>(BootError::OutOfFrames)),
        forall|f: u64|
            old(memory).spec_allocated().contains(f)
                ==> #[trigger] final(memory).spec_allocated().contains(f),
        r is Ok ==> final(memory).spec_total_free() == old(memory).spec_total_free() - (
        spec_page_count(stack_size) - 1),
        ({
            let pages = spec_page_count(stack_size);
            let guard = vpn_of(old(memory).spec_next_free());
            &&& (forall|v: u64|
                v < crate::page_table::VPN_LIMIT && !(guard <= v < guard + pages)
                    ==> #[trigger] final(memory).spec_walk(v) == old(memory).spec_walk(v))
            &&& match r {
                Err(_) => true,
                Ok(top) => {
                    &&& top.spec_value() == old(memory).spec_next_free() + pages * PAGE_SIZE
                    &&& top.wf()
                    &&& is_page_aligned(top.spec_value())
                    &&& final(memory).spec_next_free() == top.spec_value()
                    &&& final(memory).spec_walk(guard) is None
                    &&& (forall|t: int|
                        1 <= t < pages ==> #[trigger] mapped_with_at(
                            *final(memory),
                            (guard + t) as u64,
                            PteFlags::spec_present_writable(),
                        ))
                    // the stack draws only fresh frames: each mapped frame
                    // is newly allocated, none was handed out before
                    &&& (forall|t: int|
                        1 <= t < pages ==> final(memory).spec_allocated().contains(
                            #[trigger] frame_at(*final(memory), (guard + t) as u64),
                        ) && !old(memory).spec_allocated().contains(
                            frame_at(*final(memory), (guard + t) as u64),
                        ))
                    &&& (forall|t: int, u: int|
                        1 <= t < pages && 1 <= u < pages && t != u ==> #[trigger] frame_at(
                            *final(memory),
                            (guard + t) as u64,
                        ) != #[trigger] frame_at(*final(memory), (guard + u) as u64))
                },
            }
        }),
{
    let pages = (stack_size + (PAGE_SIZE - 1)) / PAGE_SIZE;
    if pages < 2 {
        return Err(BootError::StackTooSmall);
    }
    let start = memory.get_free_address(stack_size);
    let ghost guard = vpn_of(start.spec_value());
    proof {
        lemma_pages_align(start.spec_value(), stack_size);
        lemma_vpn_step(start.spec_value(), pages);
        lemma_vpn_of_high_floor(start.spec_value());
    }
    let start_page = Page::containing_address(start);
    let mut i: u64 = 1;
    while i < pages
        invariant
            2 <= pages == spec_page_count(stack_size),
            1 <= i <= pages,
            memory.wf(),
            memory.spec_root_frame() == old(memory).spec_root_frame(),
            start.spec_value() == old(memory).spec_next_free(),
            start.wf(),
            is_page_aligned(start.spec_value()),
            CANONICAL_HIGH_START <= start.spec_value(),
            start.spec_value() + pages * PAGE_SIZE <= HEAP_LIMIT,
            start_page.spec_start() == start.spec_value(),
            start_page.wf(),
            guard == vpn_of(start.spec_value()),
            guard + pages == vpn_of(memory.spec_next_free()),
            guard >= 0x8_0000_0000,
            guard + pages < crate::page_table::VPN_LIMIT,
            memory.spec_next_free() == start.spec_value() + pages * PAGE_SIZE,
            memory.spec_total_free() == old(memory).spec_total_free() - (i - 1),
            forall|f: u64|
                old(memory).spec_allocated().contains(f) ==> #[trigger] memory.spec_allocated().contains(f),
            memory.spec_walk(guard) is None,
            forall|t: int|
                1 <= t < i ==> #[trigger] mapped_with_at(
                    *memory,
                    (guard + t) as u64,
                    PteFlags::spec_present_writable(),
                ) && memory.spec_allocated().contains(frame_at(*memory, (guard + t) as u64))
                    && !old(memory).spec_allocated().contains(
                    frame_at(*memory, (guard + t) as u64),
                ),
            forall|t: int, u: int|
                1 <= t < i && 1 <= u < i && t != u ==> #[trigger] frame_at(
                    *memory,
                    (guard + t) as u64,
                ) != #[trigger] frame_at(*memory, (guard + u) as u64),
            forall|v: u64|
                v < crate::page_table::VPN_LIMIT && !(guard <= v < guard + pages)
                    ==> #[trigger] memory.spec_walk(v) == old(memory).spec_walk(v),
            forall|v: u64|
                guard <= v < guard + pages && #[trigger] memory.spec_walk(v) is Some ==> guard + 1
                    <= v < guard + i,
        decreases pages - i,
    {
        let ghost at_loop = *memory;
        let frame = match memory.allocate_frame() {
            None => {
                proof {
                    crate::memory::lemma_ranges_total_nonneg(memory.spec_free());
                }
                return Err(BootError::OutOfFrames);
            },
            Some(f) => f,
        };
        let page = start_page.plus(i);
        proof {
            lemma_vpn_step(start.spec_value(), i);
            assert(page.spec_vpn() == guard + i);
            assert(memory.spec_walk(page.spec_vpn()) is None);
        }
        let flags = PteFlags::present_writable();
        let res = memory.map(page, frame, flags);
        proof {
            if res is Err {
                assert(false);
            }
            assert(flags == PteFlags::spec_present_writable());
            assert(memory.spec_walk(page.spec_vpn()) == Some((frame.spec_number(), flags)));
            assert(mapped_with_at(*memory, page.spec_vpn(), PteFlags::spec_present_writable()));
            assert(frame_at(*memory, page.spec_vpn()) == frame.spec_number());
            assert(memory.spec_allocated().contains(frame.spec_number()));
            assert(guard + i <= u64::MAX);
            assert(page.spec_vpn() == (guard + i) as u64);
            assert forall|t: int|
                1 <= t < i + 1 implies #[trigger] mapped_with_at(
                *memory,
                (guard + t) as u64,
                PteFlags::spec_present_writable(),
            ) && memory.spec_allocated().contains(frame_at(*memory, (guard + t) as u64))
                && !old(memory).spec_allocated().contains(
                frame_at(*memory, (guard + t) as u64),
            ) by {
                if t < i {
                    assert(mapped_with_at(
                        at_loop,
                        (guard + t) as u64,
                        PteFlags::spec_present_writable(),
                    ));
                    assert(at_loop.spec_allocated().contains(frame_at(at_loop, (guard + t) as u64)));
                    assert(!old(memory).spec_allocated().contains(
                        frame_at(at_loop, (guard + t) as u64),
                    ));
                    assert(memory.spec_walk((guard + t) as u64) == at_loop.spec_walk(
                        (guard + t) as u64,
                    ));
                } else {
                    assert((guard + t) as u64 == page.spec_vpn());
                    assert(!at_loop.spec_allocated().contains(frame.spec_number()));
                }
            }
            assert forall|t: int, u: int|
                1 <= t < i + 1 && 1 <= u < i + 1 && t != u implies #[trigger] frame_at(
                *memory,
                (guard + t) as u64,
            ) != #[trigger] frame_at(*memory, (guard + u) as u64) by {
                if t < i && u < i {
                    assert(frame_at(at_loop, (guard + t) as u64) != frame_at(
                        at_loop,
                        (guard + u) as u64,
                    ));
                    assert(memory.spec_walk((guard + t) as u64) == at_loop.spec_walk(
                        (guard + t) as u64,
                    ));
                    assert(memory.spec_walk((guard + u) as u64) == at_loop.spec_walk(
                        (guard + u) as u64,
                    ));
                } else if t == i && u < i {
                    assert((guard + t) as u64 == page.spec_vpn());
                    assert(mapped_with_at(
                        at_loop,
                        (guard + u) as u64,
                        PteFlags::spec_present_writable(),
                    ));
                    assert(at_loop.spec_allocated().contains(frame_at(at_loop, (guard + u) as u64)));
                    assert(memory.spec_walk((guard + u) as u64) == at_loop.spec_walk(
                        (guard + u) as u64,
                    ));
                    assert(!at_loop.spec_allocated().contains(frame.spec_number()));
                } else if u == i && t < i {
                    assert((guard + u) as u64 == page.spec_vpn());
                    assert(mapped_with_at(
                        at_loop,
                        (guard + t) as u64,
                        PteFlags::spec_present_writable(),
                    ));
                    assert(at_loop.spec_allocated().contains(frame_at(at_loop, (guard + t) as u64)));
                    assert(memory.spec_walk((guard + t) as u64) == at_loop.spec_walk(
                        (guard + t) as u64,
                    ));
                    assert(!at_loop.spec_allocated().contains(frame.spec_number()));
                }
            }
        }
        if let Err(_) = res {
            return Err(BootError::AlreadyMapped);
        }
        i += 1;
    }
    proof {
        crate::memory::lemma_ranges_total_nonneg(memory.spec_free());
        assert forall|t: int| 1 <= t < pages implies memory.spec_allocated().contains(
            #[trigger] frame_at(*memory, (guard + t) as u64),
        ) && !old(memory).spec_allocated().contains(
            frame_at(*memory, (guard + t) as u64),
        ) by {
            assert(mapped_with_at(
                *memory,
                (guard + t) as u64,
                PteFlags::spec_present_writable(),
            ));
        }
    }
    let top = start_page.plus(pages);
    Ok(top.start_address())
}

/// Maps the pages covering a framebuffer of `size` bytes at physical
/// `fb_start` into a fresh virtual region, page for page in order. No frames
/// are allocated: firmware already reserves the framebuffer's memory. The
/// start is assumed page-aligned, as graphics hardware places it.
#[verifier::rlimit(100)]
pub fn map_framebuffer(memory: &mut Memory, fb_start: u64, size: u64) -> (r: VirtualAddress)
    requires
        old(memory).wf(),
        size >= 1,
        is_page_aligned(fb_start),
        fb_start + size <= CANONICAL_LOW_END,
        old(memory).spec_next_free() + size + 2 * PAGE_SIZE <= HEAP_LIMIT,
    ensures
        final(memory).wf(),
        final(memory).spec_root_frame() == old(memory).spec_root_frame(),
        final(memory).spec_total_free() == old(memory).spec_total_free(),
        // the framebuffer's frames are firmware-reserved: nothing is drawn
        // from the pool
        final(memory).spec_allocated() == old(memory).spec_allocated(),
        final(memory).spec_free() == old(memory).spec_free(),
        r.spec_value() == old(memory).spec_next_free(),
        r.wf(),
        final(memory).spec_next_free() == old(memory).spec_next_free() + spec_page_count(size)
            * PAGE_SIZE,
        ({
            let base = vpn_of(old(memory).spec_next_free());
            let pages = spec_page_count(size);
            &&& (forall|k: int|
                0 <= k < pages ==> #[trigger] final(memory).spec_walk((base + k) as u64) == Some(
                    ((fb_start / PAGE_SIZE + k) as u64, PteFlags::spec_present_writable()),
                ))
            &&& (forall|v: u64|
                v < crate::page_table::VPN_LIMIT && !(base <= v < base + pages)
                    ==> #[trigger] final(memory).spec_walk(v) == old(memory).spec_walk(v))
        }),
{
    let pages = (size + (PAGE_SIZE - 1)) / PAGE_SIZE;
    let start = memory.get_free_address(size);
    let ghost base = vpn_of(start.spec_value());
    proof {
        lemma_pages_align(start.spec_value(), size);
        lemma_vpn_step(start.spec_value(), pages);
        lemma_vpn_of_high_floor(start.spec_value());
    }
    let start_page = Page::containing_address(start);
    let fb_frame = Frame::containing_address(PhysicalAddress::new(fb_start));
    let mut k: u64 = 0;
    while k < pages
        invariant
            1 <= pages == spec_page_count(size),
            0 <= k <= pages,
            memory.wf(),
            memory.spec_root_frame() == old(memory).spec_root_frame(),
            memory.spec_total_free() == old(memory).spec_total_free(),
            memory.spec_allocated() == old(memory).spec_allocated(),
            memory.spec_free() == old(memory).spec_free(),
            start.spec_value() == old(memory).spec_next_free(),
            start.wf(),
            is_page_aligned(start.spec_value()),
            CANONICAL_HIGH_START <= start.spec_value(),
            start.spec_value() + pages * PAGE_SIZE <= HEAP_LIMIT,
            start_page.spec_start() == start.spec_value(),
            start_page.wf(),
            fb_frame.wf(),
            fb_frame.spec_start() == fb_start,
            fb_frame.spec_number() == fb_start / PAGE_SIZE,
            fb_start + size <= CANONICAL_LOW_END,
            base == vpn_of(start.spec_value()),
            base + pages == vpn_of(memory.spec_next_free()),
            base >= 0x8_0000_0000,
            base + pages < crate::page_table::VPN_LIMIT,
            memory.spec_next_free() == start.spec_value() + pages * PAGE_SIZE,
            forall|t: int|
                0 <= t < k ==> #[trigger] memory.spec_walk((base + t) as u64) == Some(
                    ((fb_start / PAGE_SIZE + t) as u64, PteFlags::spec_present_writable()),
                ),
            forall|v: u64|
                v < crate::page_table::VPN_LIMIT && !(base <= v < base + pages)
                    ==> #[trigger] memory.spec_walk(v) == old(memory).spec_walk(v),
            forall|v: u64|
                base <= v < base + pages && #[trigger] memory.spec_walk(v) is Some ==> base <= v
                    < base + k,
        decreases pages - k,
    {
        let page = start_page.plus(k);
        let frame = fb_frame.plus(k);
        proof {
            lemma_vpn_step(start.spec_value(), k);
            assert(page.spec_vpn() == base + k);
            assert(memory.spec_walk(page.spec_vpn()) is None);
            assert(frame.spec_number() == fb_start / PAGE_SIZE + k) by {
                vstd::arithmetic::div_mod::lemma_fundamental_div_mod(fb_start as int, PAGE_SIZE as int);
                vstd::arithmetic::div_mod::lemma_fundamental_div_mod_converse_div(
                    fb_start + k * PAGE_SIZE,
                    PAGE_SIZE as int,
                    fb_start as int / PAGE_SIZE as int + k,
                    0,
                );
            }
        }
        let ghost before = *memory;
        let res = memory.map(page, frame, PteFlags::present_writable());
        proof {
            if res is Err {
                assert(false);
            }
            assert forall|t: int|
                0 <= t < k + 1 implies #[trigger] memory.spec_walk((base + t) as u64) == Some(
                ((fb_start / PAGE_SIZE + t) as u64, PteFlags::spec_present_writable()),
            ) by {
                if t < k {
                    assert(memory.spec_walk((base + t) as u64) == before.spec_walk(
                        (base + t) as u64,
                    ));
                }
            }
        }
        if let Err(_) = res {
            return start;
        }
        k += 1;
    }
    start
}

/// Builds the three handoff mappings in order: the stack with its guard
/// page, the trampoline's identity mapping, and — when graphics are
/// available — the framebuffer (assumed page-aligned, as graphics hardware
/// places it). Fails exactly when the frame pool cannot supply the stack or
/// the trampoline page is mapped elsewhere already.
#[verifier::rlimit(100)]
pub fn set_up_mappings(
    memory: &mut Memory,
    frame_buffer: &Option<FrameBuffer>,
    trampoline: PhysicalAddress,
) -> (r: Result<Mappings, BootError>)
    requires
        old(memory).wf(),
        trampoline.wf(),
        (match *frame_buffer {
            Some(fb) => fb.info.size >= 1 && is_page_aligned(fb.start) && fb.start + fb.info.size
                <= CANONICAL_LOW_END,
            None => true,
        }),
        old(memory).spec_next_free() + STACK_SIZE + (match *frame_buffer {
            Some(fb) => fb.info.size,
            None => 0,
        }) + 4 * PAGE_SIZE <= HEAP_LIMIT,
    ensures
        final(memory).wf(),
        final(memory).spec_root_frame() == old(memory).spec_root_frame(),
        (r is Ok <==> old(memory).spec_total_free() >= 17 && trampoline_free(
            *old(memory),
            trampoline,
        )),
        // whatever the outcome, mappings outside the stack-and-framebuffer
        // window and the trampoline page are untouched: kernel segments and
        // everything else mapped before survive unchanged
        forall|v: u64|
            v < crate::page_table::VPN_LIMIT && !(vpn_of(old(memory).spec_next_free()) <= v
                < vpn_of(old(memory).spec_next_free()) + 18 + spec_fb_page_count(*frame_buffer))
                && v != vpn_of(trampoline.spec_value())
                ==> #[trigger] final(memory).spec_walk(v) == old(memory).spec_walk(v),
        forall|f: u64|
            old(memory).spec_allocated().contains(f)
                ==> #[trigger] final(memory).spec_allocated().contains(f),
        // only the stack allocates: seventeen fresh frames, one per usable
        // stack page; the trampoline and framebuffer pages draw none
        r is Ok ==> final(memory).spec_total_free() == old(memory).spec_total_free() - 17,
        match r {
            Err(_) => true,
            Ok(m) => {
                let guard = vpn_of(old(memory).spec_next_free());
                let tramp_vpn = vpn_of(trampoline.spec_value());
                &&& m.stack_top.spec_value() == old(memory).spec_next_free() + STACK_SIZE
                &&& m.stack_top.wf()
                // the guard page, just below the stack's lowest mapped page,
                // stays unmapped
                &&& final(memory).spec_walk(guard) is None
                &&& (forall|t: int|
                    1 <= t < 18 ==> #[trigger] mapped_with_at(
                        *final(memory),
                        (guard + t) as u64,
                        PteFlags::spec_present_writable(),
                    ))
                // each stack frame is newly allocated, none handed out
                // before the call
                &&& (forall|t: int|
                    1 <= t < 18 ==> final(memory).spec_allocated().contains(
                        #[trigger] frame_at(*final(memory), (guard + t) as u64),
                    ) && !old(memory).spec_allocated().contains(
                        frame_at(*final(memory), (guard + t) as u64),
                    ))
                // distinct stack pages sit on distinct frames
                &&& (forall|t: int, u: int|
                    1 <= t < 18 && 1 <= u < 18 && t != u ==> #[trigger] frame_at(
                        *final(memory),
                        (guard + t) as u64,
                    ) != #[trigger] frame_at(*final(memory), (guard + u) as u64))
                // the trampoline page is identity-mapped, read-execute
                &&& final(memory).spec_walk(tramp_vpn) == Some(
                    (tramp_vpn, PteFlags::spec_present()),
                )
                &&& match *frame_buffer {
                    None => m.frame_buffer is None,
                    Some(fb) => {
                        let base = vpn_of((old(memory).spec_next_free() + STACK_SIZE) as u64);
                        &&& m.frame_buffer matches Some(va)
                        &&& va.spec_value() == old(memory).spec_next_free() + STACK_SIZE
                        &&& (forall|k: int|
                            0 <= k < spec_page_count(fb.info.size)
                                ==> #[trigger] final(memory).spec_walk((base + k) as u64) == Some(
                                (
                                    (fb.start / PAGE_SIZE + k) as u64,
                                    PteFlags::spec_present_writable(),
                                ),
                            ))
                    },
                }
            },
        },
{
    let ghost guard = vpn_of(old(memory).spec_next_free());
    let ghost tramp_vpn_g = vpn_of(trampoline.spec_value());
    proof {
        lemma_vpn_of_high_floor(old(memory).spec_next_free());
        lemma_vpn_of_low(trampoline.spec_value());
        lemma_vpn_step(old(memory).spec_next_free(), 18);
        lemma_vpn_of_high_floor((old(memory).spec_next_free() + STACK_SIZE) as u64);
        assert(guard + 18 < crate::page_table::VPN_LIMIT);
        assert(tramp_vpn_g < guard);
    }
    let stack_top = match map_stack(memory, STACK_SIZE) {
        Err(e) => {
            proof {
                assert(spec_page_count(STACK_SIZE) == 18);
                assert(spec_fb_page_count(*frame_buffer) >= 0);
            }
            return Err(e);
        },
        Ok(top) => top,
    };
    proof {
        assert(spec_page_count(STACK_SIZE) == 18);
        assert(memory.spec_walk(tramp_vpn_g) == old(memory).spec_walk(tramp_vpn_g));
    }

    // Identity-map the page holding the trampoline, so the instruction
    // pointer stays valid across the page-table switch.
    let tramp_frame = Frame::containing_address(trampoline);
    let tramp_page = Page::containing_address(
        VirtualAddress::new_canonical(trampoline.value()),
    );
    proof {
        crate::addr::lemma_canonicalize_identity(trampoline.spec_value());
        lemma_vpn_of_low(trampoline.spec_value());
        assert(tramp_page.spec_vpn() == tramp_vpn_g) by {
            vstd::arithmetic::div_mod::lemma_small_mod(
                tramp_page.spec_start() as nat,
                crate::addr::ADDRESS_SPACE_SIZE as nat,
            );
            vstd::arithmetic::div_mod::lemma_fundamental_div_mod(
                trampoline.spec_value() as int,
                PAGE_SIZE as int,
            );
            vstd::arithmetic::div_mod::lemma_fundamental_div_mod_converse_div(
                tramp_page.spec_start() as int,
                PAGE_SIZE as int,
                trampoline.spec_value() as int / PAGE_SIZE as int,
                0,
            );
        }
        assert(tramp_frame.spec_number() == tramp_vpn_g) by {
            vstd::arithmetic::div_mod::lemma_fundamental_div_mod(
                trampoline.spec_value() as int,
                PAGE_SIZE as int,
            );
            vstd::arithmetic::div_mod::lemma_fundamental_div_mod_converse_div(
                tramp_frame.spec_start() as int,
                PAGE_SIZE as int,
                trampoline.spec_value() as int / PAGE_SIZE as int,
                0,
            );
        }
    }
    let ghost after_stack = *memory;
    proof {
        assert(spec_fb_page_count(*frame_buffer) >= 0);
    }
    if let Err(_) = memory.map(tramp_page, tramp_frame, PteFlags::present()) {
        return Err(BootError::AlreadyMapped);
    }
    proof {
        assert(memory.spec_walk(guard) == after_stack.spec_walk(guard));
        assert(memory.spec_walk(tramp_vpn_g) == Some((tramp_vpn_g, PteFlags::spec_present())));
    }

    match frame_buffer {
        None => {
            proof {
                assert forall|t: int| 1 <= t < 18 implies #[trigger] mapped_with_at(
                    *memory,
                    (guard + t) as u64,
                    PteFlags::spec_present_writable(),
                ) by {
                    assert(mapped_with_at(
                        after_stack,
                        (guard + t) as u64,
                        PteFlags::spec_present_writable(),
                    ));
                    assert(memory.spec_walk((guard + t) as u64) == after_stack.spec_walk(
                        (guard + t) as u64,
                    ));
                }
                assert forall|t: int, u: int|
                    1 <= t < 18 && 1 <= u < 18 && t != u implies #[trigger] frame_at(
                    *memory,
                    (guard + t) as u64,
                ) != #[trigger] frame_at(*memory, (guard + u) as u64) by {
                    assert(frame_at(after_stack, (guard + t) as u64) != frame_at(
                        after_stack,
                        (guard + u) as u64,
                    ));
                    assert(memory.spec_walk((guard + t) as u64) == after_stack.spec_walk(
                        (guard + t) as u64,
                    ));
                    assert(memory.spec_walk((guard + u) as u64) == after_stack.spec_walk(
                        (guard + u) as u64,
                    ));
                }
                assert(memory.spec_allocated() == after_stack.spec_allocated());
                assert forall|t: int| 1 <= t < 18 implies memory.spec_allocated().contains(
                    #[trigger] frame_at(*memory, (guard + t) as u64),
                ) && !old(memory).spec_allocated().contains(
                    frame_at(*memory, (guard + t) as u64),
                ) by {
                    assert(after_stack.spec_allocated().contains(
                        frame_at(after_stack, (guard + t) as u64),
                    ));
                    assert(!old(memory).spec_allocated().contains(
                        frame_at(after_stack, (guard + t) as u64),
                    ));
                    assert(memory.spec_walk((guard + t) as u64) == after_stack.spec_walk(
                        (guard + t) as u64,
                    ));
                }
                assert forall|v: u64|
                    v < crate::page_table::VPN_LIMIT && !(guard <= v < guard + 18
                        + spec_fb_page_count(*frame_buffer)) && v != tramp_vpn_g
                    implies #[trigger] memory.spec_walk(v) == old(memory).spec_walk(v) by {
                    assert(after_stack.spec_walk(v) == old(memory).spec_walk(v));
                    assert(memory.spec_walk(v) == after_stack.spec_walk(v));
                }
            }
            Ok(Mappings { stack_top, frame_buffer: None })
        },
        Some(fb) => {
            let ghost after_tramp = *memory;
            proof {
                lemma_vpn_of_high_floor(memory.spec_next_free());
                assert(memory.spec_next_free() == old(memory).spec_next_free() + STACK_SIZE);
                assert(vpn_of(memory.spec_next_free()) == guard + 18);
            }
            let va = map_framebuffer(memory, fb.start, fb.info.size);
            proof {
                let base = vpn_of(va.spec_value());
                assert(base == guard + 18);
                assert(memory.spec_walk(guard) == after_tramp.spec_walk(guard));
                assert(memory.spec_walk(tramp_vpn_g) == after_tramp.spec_walk(tramp_vpn_g));
                assert forall|t: int| 1 <= t < 18 implies #[trigger] mapped_with_at(
                    *memory,
                    (guard + t) as u64,
                    PteFlags::spec_present_writable(),
                ) by {
                    assert(mapped_with_at(
                        after_stack,
                        (guard + t) as u64,
                        PteFlags::spec_present_writable(),
                    ));
                    assert(after_tramp.spec_walk((guard + t) as u64) == after_stack.spec_walk(
                        (guard + t) as u64,
                    ));
                    assert(memory.spec_walk((guard + t) as u64) == after_tramp.spec_walk(
                        (guard + t) as u64,
                    ));
                }
                assert forall|t: int, u: int|
                    1 <= t < 18 && 1 <= u < 18 && t != u implies #[trigger] frame_at(
                    *memory,
                    (guard + t) as u64,
                ) != #[trigger] frame_at(*memory, (guard + u) as u64) by {
                    assert(frame_at(after_stack, (guard + t) as u64) != frame_at(
                        after_stack,
                        (guard + u) as u64,
                    ));
                    assert(after_tramp.spec_walk((guard + t) as u64) == after_stack.spec_walk(
                        (guard + t) as u64,
                    ));
                    assert(after_tramp.spec_walk((guard + u) as u64) == after_stack.spec_walk(
                        (guard + u) as u64,
                    ));
                    assert(memory.spec_walk((guard + t) as u64) == after_tramp.spec_walk(
                        (guard + t) as u64,
                    ));
                    assert(memory.spec_walk((guard + u) as u64) == after_tramp.spec_walk(
                        (guard + u) as u64,
                    ));
                }
                assert(after_tramp.spec_allocated() == after_stack.spec_allocated());
                assert(memory.spec_allocated() == after_stack.spec_allocated());
                assert forall|t: int| 1 <= t < 18 implies memory.spec_allocated().contains(
                    #[trigger] frame_at(*memory, (guard + t) as u64),
                ) && !old(memory).spec_allocated().contains(
                    frame_at(*memory, (guard + t) as u64),
                ) by {
                    assert(after_stack.spec_allocated().contains(
                        frame_at(after_stack, (guard + t) as u64),
                    ));
                    assert(!old(memory).spec_allocated().contains(
                        frame_at(after_stack, (guard + t) as u64),
                    ));
                    assert(after_tramp.spec_walk((guard + t) as u64) == after_stack.spec_walk(
                        (guard + t) as u64,
                    ));
                    assert(memory.spec_walk((guard + t) as u64) == after_tramp.spec_walk(
                        (guard + t) as u64,
                    ));
                }
                assert forall|v: u64|
                    v < crate::page_table::VPN_LIMIT && !(guard <= v < guard + 18
                        + spec_fb_page_count(*frame_buffer)) && v != tramp_vpn_g
                    implies #[trigger] memory.spec_walk(v) == old(memory).spec_walk(v) by {
                    assert(after_stack.spec_walk(v) == old(memory).spec_walk(v));
                    assert(after_tramp.spec_walk(v) == after_stack.spec_walk(v));
                    assert(!(base <= v < base + spec_page_count(fb.info.size)));
                    assert(memory.spec_walk(v) == after_tramp.spec_walk(v));
                }
            }
            Ok(Mappings { stack_top, frame_buffer: Some(va) })
        },
    }
}

} // verus!
