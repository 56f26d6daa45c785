//! Frame allocation and the kernel's page table, built during boot.
//!
//! Firmware owns physical memory while boot services run; the shell around
//! the library asks it for pages with a distinctive memory-type tag and hands
//! the resulting free ranges in here. From then on every allocation decision
//! is made, and verified, in this module: frames are handed out one by one or
//! as contiguous runs, never twice, and the bump allocator for kernel virtual
//! space never returns overlapping regions.

use vstd::prelude::*;
use crate::addr::{
    align_up, is_page_aligned, lemma_canonicalize_identity, spec_align_up, spec_page_count, Frame,
    Page, VirtualAddress, ADDRESS_SPACE_SIZE, CANONICAL_HIGH_START, PAGE_SIZE,
};
use crate::page_table::{MapConflict, PageTables, VPN_LIMIT};
use crate::pte::PteFlags;

verus! {

/// Frame numbers stay below 2^35: physical addresses below 2^47.
pub const FRAME_LIMIT: u64 = 0x8_0000_0000;

/// Highest virtual address the bump allocator may reach.
pub const HEAP_LIMIT: u64 = 0xFFFF_C000_0000_0000;

/// A run of free physical frames, named by frame numbers.
#[derive(Clone, Copy, Debug, PartialEq, Eq, Structural)]
pub struct FrameRange {
    pub start: u64,
    pub count: u64,
}

pub open spec fn range_wf(r: FrameRange) -> bool {
    r.count >= 1 && r.start + r.count <= FRAME_LIMIT
}

pub open spec fn in_range(r: FrameRange, f: u64) -> bool {
    r.start <= f < r.start + r.count
}

pub open spec fn ranges_disjoint(a: FrameRange, b: FrameRange) -> bool {
    a.start + a.count <= b.start || b.start + b.count <= a.start
}

/// Sum of the counts of a list of ranges.
pub open spec fn ranges_total(s: Seq<FrameRange>) -> int
    decreases s.len(),
{
    if s.len() == 0 {
        0
    } else {
        s[0].count + ranges_total(s.drop_first())
    }
}

pub proof fn lemma_ranges_total_nonneg(s: Seq<FrameRange>)
    ensures
        ranges_total(s) >= 0,
    decreases s.len(),
{
    if s.len() > 0 {
        lemma_ranges_total_nonneg(s.drop_first());
    }
}

/// Virtual page number of an address (of its page's start).
pub open spec fn vpn_of(a: u64) -> u64 {
    (((a as int) % (ADDRESS_SPACE_SIZE as int)) / (PAGE_SIZE as int)) as u64
}

pub proof fn lemma_high_mod(a: u64)
    requires
        a >= CANONICAL_HIGH_START,
    ensures
        (a as int) % (ADDRESS_SPACE_SIZE as int) == a - 0xFFFF_0000_0000_0000,
{
    assert(0xFFFF_0000_0000_0000int == 0xFFFFint * 0x1_0000_0000_0000int) by (nonlinear_arith);
    vstd::arithmetic::div_mod::lemma_mod_multiples_vanish(
        0xFFFF,
        a - 0xFFFF_0000_0000_0000,
        ADDRESS_SPACE_SIZE as int,
    );
    vstd::arithmetic::div_mod::lemma_small_mod((a - 0xFFFF_0000_0000_0000) as nat, ADDRESS_SPACE_SIZE as nat);
}

/// The bump pointer only climbs within the high half, so its page number
/// only climbs.
pub proof fn lemma_vpn_of_monotone(a: u64, b: u64)
    requires
        CANONICAL_HIGH_START <= a <= b,
    ensures
        vpn_of(a) <= vpn_of(b),
{
    lemma_high_mod(a);
    lemma_high_mod(b);
    vstd::arithmetic::div_mod::lemma_div_is_ordered(
        a - 0xFFFF_0000_0000_0000,
        b - 0xFFFF_0000_0000_0000,
        PAGE_SIZE as int,
    );
}

/// Page numbers never reach the walkable limit's end.
pub proof fn lemma_vpn_of_bound(a: u64)
    ensures
        vpn_of(a) < VPN_LIMIT,
{
    let m = (a as int) % (ADDRESS_SPACE_SIZE as int);
    assert(0 <= m < ADDRESS_SPACE_SIZE);
    assert(m / (PAGE_SIZE as int) < VPN_LIMIT) by (nonlinear_arith)
        requires 0 <= m < 0x1_0000_0000_0000int,
    ;
}

/// First range of the pool that holds at least `n` frames.
fn find_range(free: &Vec<FrameRange>, n: u64) -> (r: Option<usize>)
    ensures
        match r {
            Some(i) => i < free@.len() && free@[i as int].count >= n,
            None => forall|j: int| 0 <= j < free@.len() ==> (#[trigger] free@[j]).count < n,
        },
{
    let mut i: usize = 0;
    while i < free.len()
        invariant
            0 <= i <= free@.len(),
            forall|j: int| 0 <= j < i ==> (#[trigger] free@[j]).count < n,
        decreases free@.len() - i,
    {
        if free[i].count >= n {
            return Some(i);
        }
        i += 1;
    }
    None
}

/// In the high half, the page number of an address `i` pages above an
/// aligned one is `i` more.
pub proof fn lemma_vpn_step(a: u64, i: u64)
    requires
        CANONICAL_HIGH_START <= a,
        is_page_aligned(a),
        a + i * PAGE_SIZE <= HEAP_LIMIT,
    ensures
        vpn_of((a + i * PAGE_SIZE) as u64) == vpn_of(a) + i,
{
    lemma_high_mod(a);
    lemma_high_mod((a + i * PAGE_SIZE) as u64);
    let x = a - 0xFFFF_0000_0000_0000;
    assert(x % (PAGE_SIZE as int) == 0) by {
        vstd::arithmetic::div_mod::lemma_mod_multiples_vanish(
            0xFFF_F000_0000_000,
            x,
            PAGE_SIZE as int,
        );
    }
    let q = x / (PAGE_SIZE as int);
    vstd::arithmetic::div_mod::lemma_fundamental_div_mod(x, PAGE_SIZE as int);
    assert(x + i * PAGE_SIZE == (q + i) * (PAGE_SIZE as int)) by (nonlinear_arith)
        requires x == q * (PAGE_SIZE as int),
    ;
    vstd::arithmetic::div_mod::lemma_fundamental_div_mod_converse_div(
        x + i * PAGE_SIZE,
        PAGE_SIZE as int,
        q + i,
        0,
    );
}

/// Every page number in the high half lies at or above the half's first.
pub proof fn lemma_vpn_of_high_floor(a: u64)
    requires
        CANONICAL_HIGH_START <= a,
    ensures
        vpn_of(a) >= 0x8_0000_0000,
        vpn_of(a) < VPN_LIMIT,
    {
    lemma_high_mod(a);
    vstd::arithmetic::div_mod::lemma_div_is_ordered(
        0x8000_0000_0000,
        a - 0xFFFF_0000_0000_0000,
        PAGE_SIZE as int,
    );
    lemma_vpn_of_bound(a);
}

/// Below the low half's end, the page number is the address divided by the
/// page size.
pub proof fn lemma_vpn_of_low(a: u64)
    requires
        a < 0x8000_0000_0000,
    ensures
        vpn_of(a) == (a as int) / (PAGE_SIZE as int),
        vpn_of(a) < 0x8_0000_0000,
{
    vstd::arithmetic::div_mod::lemma_small_mod(a as nat, ADDRESS_SPACE_SIZE as nat);
    assert((a as int) / (PAGE_SIZE as int) < 0x8_0000_0000) by (nonlinear_arith)
        requires 0 <= a < 0x8000_0000_0000u64,
    ;
}

/// Rounding a size up to pages agrees with aligning the end of a region
/// that starts on a page boundary.
pub proof fn lemma_pages_align(start: u64, size: u64)
    requires
        is_page_aligned(start),
        size >= 1,
        start + size + PAGE_SIZE <= u64::MAX,
    ensures
        spec_align_up((start + size) as u64) == start + spec_page_count(size) * PAGE_SIZE,
        size <= spec_page_count(size) * PAGE_SIZE < size + PAGE_SIZE,
{
    let p = PAGE_SIZE as int;
    let st = start as int;
    let sz = size as int;
    let q = sz / p;
    let rho = sz % p;
    vstd::arithmetic::div_mod::lemma_fundamental_div_mod(sz, p);
    vstd::arithmetic::div_mod::lemma_fundamental_div_mod(st, p);
    let sq = st / p;
    assert(st + sz == (sq + q) * p + rho) by (nonlinear_arith)
        requires
            st == sq * p,
            sz == q * p + rho,
    ;
    vstd::arithmetic::div_mod::lemma_fundamental_div_mod_converse_mod(st + sz, p, sq + q, rho);
    assert(((start + size) as u64) as int % p == rho);
    if rho == 0 {
        vstd::arithmetic::div_mod::lemma_fundamental_div_mod_converse_div(sz + p - 1, p, q, p - 1);
        assert(spec_page_count(size) == q);
    } else {
        vstd::arithmetic::div_mod::lemma_fundamental_div_mod_converse_div(sz + p - 1, p, q + 1, rho - 1);
        assert(spec_page_count(size) == q + 1);
    }
}

/// The memory subsystem: a free-frame pool, the set of frames already handed
/// out, the kernel page table under construction, and a bump allocator for
/// virtual regions in the kernel's half of the address space.
pub struct Memory {
    tables: PageTables,
    root_frame: Frame,
    free: Vec<FrameRange>,
    allocated: Ghost<Set<u64>>,
    next_free: u64,
}

impl Memory {
    pub closed spec fn spec_tables(self) -> PageTables {
        self.tables
    }

    pub closed spec fn spec_free(self) -> Seq<FrameRange> {
        self.free@
    }

    /// Frames handed out since construction.
    pub closed spec fn spec_allocated(self) -> Set<u64> {
        self.allocated@
    }

    /// The bump pointer: start of the still-unreserved virtual space.
    pub closed spec fn spec_next_free(self) -> u64 {
        self.next_free
    }

    pub closed spec fn spec_root_frame(self) -> Frame {
        self.root_frame
    }

    /// A fresh four-level walk of the page table under construction.
    pub closed spec fn spec_walk(self, vpn: u64) -> Option<(u64, PteFlags)> {
        self.tables.spec_walk(vpn)
    }

    pub open spec fn spec_in_free(self, f: u64) -> bool {
        exists|i: int| 0 <= i < self.spec_free().len() && in_range(#[trigger] self.spec_free()[i], f)
    }

    pub open spec fn spec_total_free(self) -> int {
        ranges_total(self.spec_free())
    }

    pub open spec fn wf(self) -> bool {
        &&& self.spec_tables().wf()
        &&& self.spec_root_frame().wf()
        &&& forall|i: int| 0 <= i < self.spec_free().len() ==> range_wf(#[trigger] self.spec_free()[i])
        &&& forall|i: int, j: int|
            0 <= i < self.spec_free().len() && 0 <= j < self.spec_free().len() && i != j
                ==> ranges_disjoint(#[trigger] self.spec_free()[i], #[trigger] self.spec_free()[j])
        &&& forall|f: u64| self.spec_in_free(f) ==> !self.spec_allocated().contains(f)
        &&& is_page_aligned(self.spec_next_free())
        &&& CANONICAL_HIGH_START <= self.spec_next_free() <= HEAP_LIMIT
        &&& forall|v: u64|
            v < VPN_LIMIT && #[trigger] self.spec_walk(v) is Some ==> v < vpn_of(
                self.spec_next_free(),
            )
    }

    /// A new memory subsystem over firmware-granted free ranges; the page
    /// table starts empty and the bump allocator at `heap_base`.
    pub fn new(root_frame: Frame, free: Vec<FrameRange>, heap_base: VirtualAddress) -> (r: Self)
        requires
            root_frame.wf(),
            forall|i: int| 0 <= i < free@.len() ==> range_wf(#[trigger] free@[i]),
            forall|i: int, j: int|
                0 <= i < free@.len() && 0 <= j < free@.len() && i != j
                    ==> ranges_disjoint(#[trigger] free@[i], #[trigger] free@[j]),
            is_page_aligned(heap_base.spec_value()),
            CANONICAL_HIGH_START <= heap_base.spec_value() <= HEAP_LIMIT,
        ensures
            r.wf(),
            r.spec_free() == free@,
            r.spec_allocated() == Set::<u64>::empty(),
            r.spec_next_free() == heap_base.spec_value(),
            r.spec_root_frame() == root_frame,
            forall|v: u64| #[trigger] r.spec_walk(v) is None,
    {
        Memory {
            tables: PageTables::new(),
            root_frame,
            free,
            allocated: Ghost(Set::empty()),
            next_free: heap_base.value(),
        }
    }

    /// The physical frame of the root table, to be loaded into the page-table
    /// register at handoff.
    pub fn page_table(&self) -> (r: Frame)
        ensures
            r == self.spec_root_frame(),
    {
        self.root_frame
    }

    /// Hands out one free frame, never one handed out before.
    pub fn allocate_frame(&mut self) -> (r: Option<Frame>)
        requires
            old(self).wf(),
        ensures
            final(self).wf(),
            r is Some <==> old(self).spec_total_free() > 0,
            match r {
                None => *final(self) == *old(self),
                Some(f) => {
                    &&& f.wf()
                    &&& f.spec_number() < FRAME_LIMIT
                    &&& !old(self).spec_allocated().contains(f.spec_number())
                    &&& old(self).spec_in_free(f.spec_number())
                    &&& final(self).spec_allocated() == old(self).spec_allocated().insert(
                        f.spec_number(),
                    )
                    &&& final(self).spec_total_free() == old(self).spec_total_free() - 1
                },
            },
            final(self).spec_next_free() == old(self).spec_next_free(),
            final(self).spec_root_frame() == old(self).spec_root_frame(),
            forall|v: u64| #[trigger] final(self).spec_walk(v) == old(self).spec_walk(v),
    {
        if self.free.len() == 0 {
            proof {
                assert(self.spec_total_free() == 0);
            }
            return None;
        }
        let ghost old_free = self.free@;
        proof {
            assert(range_wf(self.spec_free()[0]));
        }
        let r0 = self.free[0];
        let number = r0.start;
        if r0.count == 1 {
            self.free.remove(0);
            proof {
                assert(self.free@ =~= old_free.drop_first());
            }
        } else {
            self.free[0] = FrameRange { start: r0.start + 1, count: r0.count - 1 };
            proof {
                assert(self.free@.drop_first() =~= old_free.drop_first());
                assert(ranges_total(self.free@) == self.free@[0].count + ranges_total(
                    self.free@.drop_first(),
                ));
            }
        }
        proof {
            lemma_ranges_total_nonneg(old_free.drop_first());
            assert(in_range(old(self).spec_free()[0], number));
            assert(old(self).spec_in_free(number));
            self.allocated@ = self.allocated@.insert(number);
            assert forall|v: u64|
                v < VPN_LIMIT && #[trigger] self.spec_walk(v) is Some implies v < vpn_of(
                self.spec_next_free(),
            ) by {
                assert(self.spec_walk(v) == old(self).spec_walk(v));
            }
            assert forall|f: u64| self.spec_in_free(f) implies !self.spec_allocated().contains(
                f,
            ) by {
                let i = choose|i: int|
                    0 <= i < self.spec_free().len() && in_range(#[trigger] self.spec_free()[i], f);
                if self.spec_free().len() == old_free.len() {
                    // first range shrunk in place
                    if i == 0 {
                        assert(in_range(old_free[0], f));
                    } else {
                        assert(self.spec_free()[i] == old_free[i]);
                    }
                } else {
                    assert(self.spec_free()[i] == old_free[i + 1]);
                }
                assert(old(self).spec_in_free(f));
                if f == number {
                    if self.spec_free().len() == old_free.len() {
                        if i == 0 {
                            assert(false);
                        } else {
                            assert(ranges_disjoint(old_free[0], old_free[i]));
                            assert(false);
                        }
                    } else {
                        assert(ranges_disjoint(old_free[0], old_free[i + 1]));
                        assert(false);
                    }
                }
            }
        }
        Some(Frame::from_number(number))
    }

    /// Hands out `n` contiguous free frames: the start of the run is returned
    /// and all `n` frames are fresh.
    #[verifier::rlimit(100)]
    pub fn allocate_frames(&mut self, n: u64) -> (r: Option<Frame>)
        requires
            old(self).wf(),
            n >= 1,
        ensures
            final(self).wf(),
            (r is Some <==> exists|i: int|
                0 <= i < old(self).spec_free().len() && (#[trigger] old(
                    self,
                ).spec_free()[i]).count >= n),
            match r {
                None => *final(self) == *old(self),
                Some(f) => {
                    &&& f.wf()
                    &&& f.spec_number() + n <= FRAME_LIMIT
                    &&& forall|k: u64|
                        f.spec_number() <= k < f.spec_number() + n ==> !(#[trigger] old(
                            self,
                        ).spec_allocated().contains(k)) && old(self).spec_in_free(k)
                    &&& final(self).spec_allocated() == old(self).spec_allocated().union(
                        Set::new(|k: u64| f.spec_number() <= k < f.spec_number() + n),
                    )
                },
            },
            final(self).spec_next_free() == old(self).spec_next_free(),
            final(self).spec_root_frame() == old(self).spec_root_frame(),
            forall|v: u64| #[trigger] final(self).spec_walk(v) == old(self).spec_walk(v),
    {
        let i = match find_range(&self.free, n) {
            None => {
                proof {
                    assert(*self == *old(self));
                }
                return None;
            },
            Some(i) => i,
        };
        let ghost old_free = self.free@;
        let ghost ii = i as int;
        proof {
            assert(range_wf(self.spec_free()[ii]));
        }
        let r0 = self.free[i];
        let number = r0.start;
        if r0.count == n {
            self.free.remove(i);
            proof {
                old_free.remove_ensures(ii);
                assert forall|j: int| 0 <= j < self.free@.len() implies #[trigger] self.free@[j]
                    == old_free[if j < ii { j } else { j + 1 }] by {
                    if j < ii {
                        assert(old_free.remove(ii)[j] == old_free[j]);
                    } else {
                        assert(old_free.remove(ii)[j] == old_free[j + 1]);
                    }
                }
            }
        } else {
            self.free[i] = FrameRange { start: r0.start + n, count: r0.count - n };
        }
        proof {
            self.allocated@ = self.allocated@.union(Set::new(|k: u64| number <= k < number + n));
            let removed = self.spec_free().len() < old_free.len();
            assert forall|j: int| 0 <= j < self.spec_free().len() implies range_wf(
                #[trigger] self.spec_free()[j],
            ) by {
                let oj = if removed && j >= ii { j + 1 } else { j };
                assert(range_wf(old_free[oj]));
            }
            assert forall|a: int, b: int|
                0 <= a < self.spec_free().len() && 0 <= b < self.spec_free().len() && a != b
                    implies ranges_disjoint(
                #[trigger] self.spec_free()[a],
                #[trigger] self.spec_free()[b],
            ) by {
                let oa = if removed && a >= ii { a + 1 } else { a };
                let ob = if removed && b >= ii { b + 1 } else { b };
                assert(ranges_disjoint(old_free[oa], old_free[ob]));
            }
            assert forall|f: u64| self.spec_in_free(f) implies !self.spec_allocated().contains(
                f,
            ) by {
                let j = choose|j: int|
                    0 <= j < self.spec_free().len() && in_range(#[trigger] self.spec_free()[j], f);
                let oj = if removed && j >= ii { j + 1 } else { j };
                if !removed && j == ii {
                    assert(in_range(old_free[ii], f));
                    assert(!(number <= f < number + n));
                } else {
                    assert(self.spec_free()[j] == old_free[oj]);
                    assert(ranges_disjoint(old_free[ii], old_free[oj]));
                    assert(!(number <= f < number + n));
                }
                assert(old(self).spec_in_free(f));
            }
            assert forall|k: u64| number <= k < number + n implies !old(
                self,
            ).spec_allocated().contains(k) && old(self).spec_in_free(k) by {
                assert(in_range(old(self).spec_free()[ii], k));
                assert(old(self).spec_in_free(k));
                assert(!old(self).spec_allocated().contains(k));
            }
            assert((old(self).spec_free()[ii]).count >= n);
            assert forall|v: u64|
                v < VPN_LIMIT && #[trigger] self.spec_walk(v) is Some implies v < vpn_of(
                self.spec_next_free(),
            ) by {
                assert(self.spec_walk(v) == old(self).spec_walk(v));
            }
        }
        let f = Frame::from_number(number);
        proof {
            assert forall|k: u64|
                f.spec_number() <= k < f.spec_number() + n implies !(#[trigger] old(
                self,
            ).spec_allocated().contains(k)) && old(self).spec_in_free(k) by {
                assert(in_range(old(self).spec_free()[ii], k));
                assert(old(self).spec_in_free(k));
                assert(!old(self).spec_allocated().contains(k));
            }
        }
        Some(f)
    }

    /// Reserves a fresh virtual region of at least `size` bytes; consecutive
    /// reservations are disjoint, and nothing is mapped in the region yet.
    #[verifier::rlimit(100)]
    pub fn get_free_address(&mut self, size: u64) -> (r: VirtualAddress)
        requires
            old(self).wf(),
            size >= 1,
            old(self).spec_next_free() + size + PAGE_SIZE <= HEAP_LIMIT,
        ensures
            final(self).wf(),
            r.wf(),
            r.spec_value() == old(self).spec_next_free(),
            is_page_aligned(r.spec_value()),
            final(self).spec_next_free() == spec_align_up((old(self).spec_next_free() + size) as u64),
            old(self).spec_next_free() + size <= final(self).spec_next_free(),
            final(self).spec_allocated() == old(self).spec_allocated(),
            final(self).spec_free() == old(self).spec_free(),
            final(self).spec_root_frame() == old(self).spec_root_frame(),
            forall|v: u64| #[trigger] final(self).spec_walk(v) == old(self).spec_walk(v),
    {
        let r = self.next_free;
        self.next_free = align_up(self.next_free + size);
        proof {
            lemma_canonicalize_identity(r);
            assert(self.spec_free() == old(self).spec_free());
            assert(self.spec_allocated() == old(self).spec_allocated());
            assert(self.spec_tables() == old(self).spec_tables());
            assert forall|v: u64|
                v < VPN_LIMIT && #[trigger] self.spec_walk(v) is Some implies v < vpn_of(
                self.spec_next_free(),
            ) by {
                assert(old(self).spec_walk(v) is Some);
                assert(v < vpn_of(old(self).spec_next_free()));
                lemma_vpn_of_monotone(old(self).next_free, self.next_free);
            }
            assert(self.spec_tables().wf());
            assert(self.spec_root_frame().wf());
            assert(forall|i: int|
                0 <= i < self.spec_free().len() ==> range_wf(#[trigger] self.spec_free()[i]));
            assert(forall|i: int, j: int|
                0 <= i < self.spec_free().len() && 0 <= j < self.spec_free().len() && i != j
                    ==> ranges_disjoint(
                    #[trigger] self.spec_free()[i],
                    #[trigger] self.spec_free()[j],
                ));
            assert forall|f: u64| self.spec_in_free(f) implies !self.spec_allocated().contains(
                f,
            ) by {
                assert(old(self).spec_in_free(f));
            }
            assert(is_page_aligned(self.spec_next_free()));
            assert(CANONICAL_HIGH_START <= self.spec_next_free() <= HEAP_LIMIT);
            assert(self.wf());
        }
        VirtualAddress::new_canonical(r)
    }

    /// Installs `page -> frame` in the kernel page table. Only pages below
    /// the bump pointer — inside regions already reserved, or identity
    /// addresses under the kernel half — may be mapped: the bump allocator
    /// hands out virgin space, so this is what makes reservations reliably
    /// unmapped. A page already mapped to a different frame is a fatal
    /// conflict, left unchanged.
    #[verifier::rlimit(100)]
    pub fn map(&mut self, page: Page, frame: Frame, flags: PteFlags) -> (r: Result<
        (),
        MapConflict,
    >)
        requires
            old(self).wf(),
            page.wf(),
            frame.wf(),
            page.spec_vpn() < vpn_of(old(self).spec_next_free()),
        ensures
            final(self).wf(),
            (r is Ok <==> match old(self).spec_walk(page.spec_vpn()) {
                None => true,
                Some((f, _)) => f == frame.spec_number(),
            }),
            r is Ok ==> final(self).spec_walk(page.spec_vpn()) == Some(
                (frame.spec_number(), flags),
            ),
            r is Err ==> *final(self) == *old(self),
            forall|v: u64|
                v < VPN_LIMIT && v != page.spec_vpn() ==> #[trigger] final(self).spec_walk(v)
                    == old(self).spec_walk(v),
            final(self).spec_next_free() == old(self).spec_next_free(),
            final(self).spec_allocated() == old(self).spec_allocated(),
            final(self).spec_free() == old(self).spec_free(),
            final(self).spec_root_frame() == old(self).spec_root_frame(),
    {
        let vpn = page.vpn();
        proof {
            lemma_vpn_of_bound(page.spec_start());
            assert(vpn < VPN_LIMIT);
        }
        proof {
            assert(frame.spec_number() < crate::page_table::LEAF_FRAME_LIMIT);
        }
        let r = self.tables.map(vpn, frame.number(), flags);
        proof {
            if r is Ok {
                assert forall|v: u64|
                    v < VPN_LIMIT && #[trigger] self.spec_walk(v) is Some implies v < vpn_of(
                    self.spec_next_free(),
                ) by {
                    if v != vpn {
                        assert(self.spec_walk(v) == old(self).spec_walk(v));
                    }
                }
                assert(self.spec_free() == old(self).spec_free());
                assert(self.spec_allocated() == old(self).spec_allocated());
                assert(forall|i: int|
                    0 <= i < self.spec_free().len() ==> range_wf(#[trigger] self.spec_free()[i]));
                assert(forall|i: int, j: int|
                    0 <= i < self.spec_free().len() && 0 <= j < self.spec_free().len() && i != j
                        ==> ranges_disjoint(
                        #[trigger] self.spec_free()[i],
                        #[trigger] self.spec_free()[j],
                    ));
                assert forall|f: u64| self.spec_in_free(f) implies !self
                    .spec_allocated()
                    .contains(f) by {
                    assert(old(self).spec_in_free(f));
                }
                assert(self.wf());
            }
        }
        r
    }

    /// The hardware words of the page table, for writing onto a contiguous
    /// run of frames: the root table on `base`, each further table on the
    /// following frames, every directory word pointing at its child table's
    /// frame. `None` exactly when the run would leave the physical range.
    pub fn export_page_table(&self, base: Frame) -> (r: Option<Vec<u64>>)
        requires
            self.wf(),
            base.wf(),
        ensures
            (r is Some <==> base.spec_number() + 1 + self.spec_tables().l3_seq().len() / 512
                + self.spec_tables().l2_seq().len() / 512 + self.spec_tables().l1_seq().len()
                / 512 <= crate::page_table::LEAF_FRAME_LIMIT),
            match r {
                None => true,
                Some(out) => {
                    &&& out@.len() == 512 + self.spec_tables().l3_seq().len()
                        + self.spec_tables().l2_seq().len() + self.spec_tables().l1_seq().len()
                    &&& (forall|k: int|
                        0 <= k < 512 ==> out@[k] == crate::page_table::spec_dir_word(
                            self.spec_tables().l4_seq()[k],
                            base.spec_number() + 1,
                        ))
                    &&& (forall|k: int|
                        0 <= k < self.spec_tables().l1_seq().len() ==> out@[512
                            + self.spec_tables().l3_seq().len() + self.spec_tables().l2_seq().len()
                            + k] == crate::page_table::spec_leaf_word(
                            self.spec_tables().l1_seq()[k],
                        ))
                },
            },
    {
        self.tables.export_checked(base.number())
    }

    /// Reads the current mapping of a page by a fresh four-level walk.
    pub fn lookup(&self, page: Page) -> (r: Option<(u64, PteFlags)>)
        requires
            self.wf(),
            page.wf(),
        ensures
            r == self.spec_walk(page.spec_vpn()),
    {
        self.tables.lookup(page.vpn())
    }
}

} // verus!
