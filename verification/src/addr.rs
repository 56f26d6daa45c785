//! Canonical x86_64 addresses, 4 KiB pages and frames.

use vstd::prelude::*;

verus! {

/// Size of a page and of a frame, in bytes.
pub const PAGE_SIZE: u64 = 4096;

/// First address above the low canonical half (2^47).
pub const CANONICAL_LOW_END: u64 = 0x8000_0000_0000;

/// First address of the high canonical half.
pub const CANONICAL_HIGH_START: u64 = 0xFFFF_8000_0000_0000;

/// Size of the 48-bit address space (2^48).
pub const ADDRESS_SPACE_SIZE: u64 = 0x1_0000_0000_0000;

/// A 64-bit address is canonical when its upper 16 bits replicate bit 47,
/// i.e. it lies in the low or in the high canonical half.
pub open spec fn is_canonical(a: u64) -> bool {
    a < CANONICAL_LOW_END || a >= CANONICAL_HIGH_START
}

pub open spec fn is_page_aligned(a: u64) -> bool {
    a % PAGE_SIZE == 0
}

/// Sign-extension of bit 47: the canonical address whose low 48 bits
/// equal the low 48 bits of `a`.
pub open spec fn spec_canonicalize(a: u64) -> u64 {
    let low = a % ADDRESS_SPACE_SIZE;
    if low >= CANONICAL_LOW_END {
        (low + 0xFFFF_0000_0000_0000) as u64
    } else {
        low
    }
}

/// A canonical address is unchanged by canonicalization.
pub proof fn lemma_canonicalize_identity(a: u64)
    requires
        is_canonical(a),
    ensures
        spec_canonicalize(a) == a,
{
    if a >= CANONICAL_HIGH_START {
        assert(a % ADDRESS_SPACE_SIZE == a - 0xFFFF_0000_0000_0000) by {
            assert(a - 0xFFFF_0000_0000_0000 < ADDRESS_SPACE_SIZE);
            assert(a == 0xFFFF_0000_0000_0000 + (a - 0xFFFF_0000_0000_0000));
            assert(0xFFFF_0000_0000_0000int == 0xFFFFint * 0x1_0000_0000_0000int) by (nonlinear_arith);
            vstd::arithmetic::div_mod::lemma_mod_multiples_vanish(
                0xFFFF,
                a - 0xFFFF_0000_0000_0000,
                ADDRESS_SPACE_SIZE as int,
            );
        }
    } else {
        assert(a % ADDRESS_SPACE_SIZE == a) by {
            vstd::arithmetic::div_mod::lemma_small_mod(a as nat, ADDRESS_SPACE_SIZE as nat);
        }
    }
}

/// A 64-bit virtual address in canonical form.
#[derive(Clone, Copy, Debug, PartialEq, Eq, Structural)]
pub struct VirtualAddress {
    value: u64,
}

impl VirtualAddress {
    pub closed spec fn spec_value(self) -> u64 {
        self.value
    }

    pub open spec fn wf(self) -> bool {
        is_canonical(self.spec_value())
    }

    /// Builds the canonical address with the low 48 bits of `a`.
    pub fn new_canonical(a: u64) -> (r: Self)
        ensures
            r.spec_value() == spec_canonicalize(a),
            r.wf(),
    {
        let low = a % ADDRESS_SPACE_SIZE;
        if low >= CANONICAL_LOW_END {
            VirtualAddress { value: low + 0xFFFF_0000_0000_0000 }
        } else {
            VirtualAddress { value: low }
        }
    }

    pub fn value(self) -> (r: u64)
        ensures
            r == self.spec_value(),
    {
        self.value
    }
}

/// A physical address; the hardware uses at most 48 bits of it here.
#[derive(Clone, Copy, Debug, PartialEq, Eq, Structural)]
pub struct PhysicalAddress {
    value: u64,
}

impl PhysicalAddress {
    pub closed spec fn spec_value(self) -> u64 {
        self.value
    }

    /// Physical addresses handled by the bootloader stay below 2^47 so that
    /// the firmware identity mapping of each one is itself canonical.
    pub open spec fn wf(self) -> bool {
        self.spec_value() < CANONICAL_LOW_END
    }

    pub fn new(a: u64) -> (r: Self)
        requires
            a < CANONICAL_LOW_END,
        ensures
            r.spec_value() == a,
            r.wf(),
    {
        PhysicalAddress { value: a }
    }

    pub fn value(self) -> (r: u64)
        ensures
            r == self.spec_value(),
    {
        self.value
    }
}

/// A 4 KiB-aligned virtual memory unit, named by its start address.
#[derive(Clone, Copy, Debug, PartialEq, Eq, Structural)]
pub struct Page {
    start: u64,
}

impl Page {
    pub closed spec fn spec_start(self) -> u64 {
        self.start
    }

    pub open spec fn wf(self) -> bool {
        is_canonical(self.spec_start()) && is_page_aligned(self.spec_start())
    }

    /// Virtual page number: index of the page within the 48-bit space.
    pub open spec fn spec_vpn(self) -> u64 {
        ((self.spec_start() % ADDRESS_SPACE_SIZE) / PAGE_SIZE) as u64
    }

    pub open spec fn spec_containing(a: u64) -> u64 {
        (a - a % PAGE_SIZE) as u64
    }

    /// The page whose range holds `a`: rounds the address down.
    pub fn containing_address(a: VirtualAddress) -> (r: Self)
        requires
            a.wf(),
        ensures
            r.spec_start() == Self::spec_containing(a.spec_value()),
            r.wf(),
            r.spec_start() <= a.spec_value() < r.spec_start() + PAGE_SIZE,
    {
        let v = a.value();
        Page { start: v - v % PAGE_SIZE }
    }

    pub fn start_address(self) -> (r: VirtualAddress)
        requires
            self.wf(),
        ensures
            r.spec_value() == self.spec_start(),
            r.wf(),
    {
        VirtualAddress { value: self.start }
    }

    /// The page `n` pages above this one.
    pub fn plus(self, n: u64) -> (r: Self)
        requires
            self.wf(),
            self.spec_start() + n * PAGE_SIZE <= u64::MAX,
            is_canonical((self.spec_start() + n * PAGE_SIZE) as u64),
        ensures
            r.spec_start() == self.spec_start() + n * PAGE_SIZE,
            r.wf(),
    {
        Page { start: self.start + n * PAGE_SIZE }
    }

    pub fn vpn(self) -> (r: u64)
        ensures
            r == self.spec_vpn(),
    {
        (self.start % ADDRESS_SPACE_SIZE) / PAGE_SIZE
    }
}

/// A 4 KiB-aligned physical memory unit, named by its start address.
#[derive(Clone, Copy, Debug, PartialEq, Eq, Structural)]
pub struct Frame {
    start: u64,
}

impl Frame {
    pub closed spec fn spec_start(self) -> u64 {
        self.start
    }

    pub open spec fn wf(self) -> bool {
        self.spec_start() < CANONICAL_LOW_END && is_page_aligned(self.spec_start())
    }

    /// Physical frame number.
    pub open spec fn spec_number(self) -> u64 {
        (self.spec_start() / PAGE_SIZE) as u64
    }

    pub fn containing_address(a: PhysicalAddress) -> (r: Self)
        requires
            a.wf(),
        ensures
            r.spec_start() == a.spec_value() - a.spec_value() % PAGE_SIZE,
            r.wf(),
            r.spec_start() <= a.spec_value() < r.spec_start() + PAGE_SIZE,
    {
        let v = a.value();
        Frame { start: v - v % PAGE_SIZE }
    }

    pub fn from_number(n: u64) -> (r: Self)
        requires
            n < CANONICAL_LOW_END / PAGE_SIZE,
        ensures
            r.spec_number() == n,
            r.spec_start() == n * PAGE_SIZE,
            r.wf(),
    {
        Frame { start: n * PAGE_SIZE }
    }

    pub fn start_address(self) -> (r: PhysicalAddress)
        requires
            self.wf(),
        ensures
            r.spec_value() == self.spec_start(),
            r.wf(),
    {
        PhysicalAddress { value: self.start }
    }

    pub fn number(self) -> (r: u64)
        requires
            self.wf(),
        ensures
            r == self.spec_number(),
    {
        self.start / PAGE_SIZE
    }

    pub fn plus(self, n: u64) -> (r: Self)
        requires
            self.wf(),
            self.spec_start() + n * PAGE_SIZE < CANONICAL_LOW_END,
        ensures
            r.spec_start() == self.spec_start() + n * PAGE_SIZE,
            r.wf(),
    {
        Frame { start: self.start + n * PAGE_SIZE }
    }
}

/// Number of pages that cover `size` bytes, rounding up.
pub open spec fn spec_page_count(size: u64) -> int {
    (size + PAGE_SIZE - 1) as int / PAGE_SIZE as int
}

/// `a` rounded up to the next page boundary.
pub open spec fn spec_align_up(a: u64) -> int {
    if a % PAGE_SIZE == 0 {
        a as int
    } else {
        a + PAGE_SIZE - a % PAGE_SIZE
    }
}

pub fn align_up(a: u64) -> (r: u64)
    requires
        a + PAGE_SIZE <= u64::MAX,
    ensures
        r == spec_align_up(a),
        is_page_aligned(r),
        a <= r < a + PAGE_SIZE,
{
    let rem = a % PAGE_SIZE;
    if rem == 0 {
        a
    } else {
        a + (PAGE_SIZE - rem)
    }
}

/// Rounding a canonical address down to its page keeps it canonical,
/// and the address lies inside the page's range while the next page
/// starts strictly above it.
pub proof fn lemma_containing_page_brackets(x: u64)
    requires
        is_canonical(x),
        // Leave out the topmost page of each canonical half: above either one
        // the next page has no canonical start address.
        x < CANONICAL_LOW_END - PAGE_SIZE || CANONICAL_HIGH_START <= x < 0xFFFF_FFFF_FFFF_F000,
    ensures
        Page::spec_containing(spec_canonicalize(x)) <= x,
        x < Page::spec_containing(spec_canonicalize(x)) + PAGE_SIZE,
        is_canonical((Page::spec_containing(spec_canonicalize(x)) + PAGE_SIZE) as u64),
{
    lemma_canonicalize_identity(x);
}

} // verus!
