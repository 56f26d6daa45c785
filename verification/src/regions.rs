//! The final physical memory map: conversion of firmware descriptors and
//! consolidation of adjacent regions of one kind.

use vstd::prelude::*;
use crate::error::BootError;

verus! {

/// What a region of physical memory is good for, from the kernel's side.
#[derive(Clone, Copy, Debug, PartialEq, Eq, Structural)]
pub enum MemoryRegionKind {
    /// Free for the kernel's frame allocator.
    Usable,
    /// A firmware memory type the bootloader does not interpret; the
    /// payload is the firmware's type tag.
    UnknownUefi(u32),
    /// Holds bootloader structures the kernel must not reuse while reading
    /// them.
    BootloaderReserved,
    /// Holds the kernel image itself.
    KernelReserved,
}

/// A maximal run of physical memory of one kind, in bytes.
#[derive(Clone, Copy, Debug, PartialEq, Eq, Structural)]
pub struct MemoryRegion {
    pub start: u64,
    pub len: u64,
    pub kind: MemoryRegionKind,
}

/// One firmware memory descriptor, as plain values: physical start, size in
/// 4 KiB pages, and the firmware type tag.
#[derive(Clone, Copy, Debug, PartialEq, Eq, Structural)]
pub struct MemoryDescriptor {
    pub phys_start: u64,
    pub page_count: u64,
    pub ty: u32,
}

pub open spec fn region_wf(r: MemoryRegion) -> bool {
    r.start + r.len <= u64::MAX
}

pub open spec fn descriptor_wf(d: MemoryDescriptor) -> bool {
    d.phys_start + d.page_count * 4096 <= u64::MAX
}

/// The five firmware memory types that are free once boot services end:
/// loader code and data, boot-services code and data, and conventional
/// memory. Every other tag is passed through unchanged.
pub open spec fn spec_kind_of_tag(tag: u32) -> MemoryRegionKind {
    if tag == 1 || tag == 2 || tag == 3 || tag == 4 || tag == 7 {
        MemoryRegionKind::Usable
    } else {
        MemoryRegionKind::UnknownUefi(tag)
    }
}

pub fn kind_of_tag(tag: u32) -> (r: MemoryRegionKind)
    ensures
        r == spec_kind_of_tag(tag),
{
    if tag == 1 || tag == 2 || tag == 3 || tag == 4 || tag == 7 {
        MemoryRegionKind::Usable
    } else {
        MemoryRegionKind::UnknownUefi(tag)
    }
}

pub open spec fn spec_convert(d: MemoryDescriptor) -> MemoryRegion {
    MemoryRegion {
        start: d.phys_start,
        len: (d.page_count * 4096) as u64,
        kind: spec_kind_of_tag(d.ty),
    }
}

/// A firmware descriptor as a region: the length leaves pages for bytes,
/// the type tag becomes the region kind.
pub fn convert(d: &MemoryDescriptor) -> (r: MemoryRegion)
    requires
        descriptor_wf(*d),
    ensures
        r == spec_convert(*d),
        region_wf(r),
{
    MemoryRegion { start: d.phys_start, len: d.page_count * 4096, kind: kind_of_tag(d.ty) }
}

/// Every descriptor converted, in order.
pub open spec fn convert_all(s: Seq<MemoryDescriptor>) -> Seq<MemoryRegion> {
    s.map_values(|d: MemoryDescriptor| spec_convert(d))
}

/// The second region continues the first: same kind, starting exactly at
/// its end.
pub open spec fn mergeable(a: MemoryRegion, b: MemoryRegion) -> bool {
    a.kind == b.kind && a.start + a.len == b.start
}

pub open spec fn spec_merge(a: MemoryRegion, b: MemoryRegion) -> MemoryRegion {
    MemoryRegion { start: a.start, len: (a.len + b.len) as u64, kind: a.kind }
}

/// Consolidation: each maximal run of regions, each continuing the last and
/// of one kind, becomes a single region.
pub open spec fn consolidate_spec(s: Seq<MemoryRegion>) -> Seq<MemoryRegion>
    decreases s.len(),
{
    if s.len() <= 1 {
        s
    } else if mergeable(s[0], s[1]) {
        consolidate_spec(seq![spec_merge(s[0], s[1])] + s.skip(2))
    } else {
        seq![s[0]] + consolidate_spec(s.skip(1))
    }
}

/// One merge step at the head of the pending input.
proof fn lemma_consolidate_merge_step(a: MemoryRegion, s: Seq<MemoryRegion>)
    requires
        s.len() >= 1,
        mergeable(a, s[0]),
    ensures
        consolidate_spec(seq![a] + s) == consolidate_spec(
            seq![spec_merge(a, s[0])] + s.drop_first(),
        ),
{
    let t = seq![a] + s;
    assert(t[0] == a);
    assert(t[1] == s[0]);
    assert(t.skip(2) =~= s.drop_first());
    assert(consolidate_spec(t) == consolidate_spec(seq![spec_merge(a, s[0])] + t.skip(2)));
}

/// Emitting the head when nothing more can merge into it.
proof fn lemma_consolidate_emit(a: MemoryRegion, s: Seq<MemoryRegion>)
    requires
        s.len() == 0 || !mergeable(a, s[0]),
    ensures
        consolidate_spec(seq![a] + s) == seq![a] + consolidate_spec(s),
{
    let t = seq![a] + s;
    if s.len() == 0 {
        assert(t =~= seq![a]);
        assert(consolidate_spec(s) =~= Seq::<MemoryRegion>::empty());
        assert(seq![a] + consolidate_spec(s) =~= t);
    } else {
        assert(t[0] == a);
        assert(t[1] == s[0]);
        assert(t.skip(1) =~= s);
    }
}

/// Consolidates a sequence of regions in order, merging each region into
/// the one before it while the kind matches and the addresses are
/// contiguous.
pub fn consolidate_regions(v: &Vec<MemoryRegion>) -> (out: Vec<MemoryRegion>)
    requires
        forall|i: int| 0 <= i < v@.len() ==> region_wf(#[trigger] v@[i]),
    ensures
        out@ == consolidate_spec(v@),
{
    let mut out: Vec<MemoryRegion> = Vec::new();
    let mut i: usize = 0;
    proof {
        assert(v@.skip(0) =~= v@);
    }
    while i < v.len()
        invariant
            0 <= i <= v@.len(),
            forall|j: int| 0 <= j < v@.len() ==> region_wf(#[trigger] v@[j]),
            consolidate_spec(v@) == out@ + consolidate_spec(v@.skip(i as int)),
        decreases v@.len() - i,
    {
        let mut area = v[i];
        let ghost start_i = i + 1;
        proof {
            assert(region_wf(v@[i as int]));
            assert(seq![area] + v@.skip(i as int + 1) =~= v@.skip(i as int));
        }
        i += 1;
        while i < v.len() && area.kind == v[i].kind && area.start + area.len == v[i].start
            invariant
                start_i <= i <= v@.len(),
                forall|j: int| 0 <= j < v@.len() ==> region_wf(#[trigger] v@[j]),
                region_wf(area),
                consolidate_spec(v@) == out@ + consolidate_spec(
                    seq![area] + v@.skip(i as int),
                ),
            decreases v@.len() - i,
        {
            proof {
                assert(v@.skip(i as int)[0] == v@[i as int]);
                assert(region_wf(v@[i as int]));
                lemma_consolidate_merge_step(area, v@.skip(i as int));
                assert(v@.skip(i as int).drop_first() =~= v@.skip(i as int + 1));
            }
            area = MemoryRegion { start: area.start, len: area.len + v[i].len, kind: area.kind };
            i += 1;
        }
        proof {
            let rest = v@.skip(i as int);
            if rest.len() > 0 {
                assert(rest[0] == v@[i as int]);
            }
            lemma_consolidate_emit(area, rest);
        }
        out.push(area);
    }
    proof {
        assert(v@.skip(v@.len() as int) =~= Seq::<MemoryRegion>::empty());
        assert(out@ + Seq::<MemoryRegion>::empty() =~= out@);
    }
    out
}

/// The firmware memory map, consolidated at exit from boot services.
pub struct MemoryDescriptorConsolidator {
    descriptors: Vec<MemoryDescriptor>,
}

impl MemoryDescriptorConsolidator {
    pub closed spec fn spec_descriptors(self) -> Seq<MemoryDescriptor> {
        self.descriptors@
    }

    pub fn new(descriptors: Vec<MemoryDescriptor>) -> (r: Self)
        ensures
            r.spec_descriptors() == descriptors@,
    {
        MemoryDescriptorConsolidator { descriptors }
    }

    /// Converts every descriptor in firmware order and merges adjacent
    /// regions of equal kind, keeping the final map small.
    pub fn consolidate(&self) -> (out: Vec<MemoryRegion>)
        requires
            forall|i: int|
                0 <= i < self.spec_descriptors().len() ==> descriptor_wf(
                    #[trigger] self.spec_descriptors()[i],
                ),
        ensures
            out@ == consolidate_spec(convert_all(self.spec_descriptors())),
    {
        let mut regions: Vec<MemoryRegion> = Vec::new();
        let mut i: usize = 0;
        proof {
            assert(regions@ =~= convert_all(self.spec_descriptors().take(0)));
        }
        while i < self.descriptors.len()
            invariant
                0 <= i <= self.spec_descriptors().len(),
                forall|j: int|
                    0 <= j < self.spec_descriptors().len() ==> descriptor_wf(
                        #[trigger] self.spec_descriptors()[j],
                    ),
                regions@ == convert_all(self.spec_descriptors().take(i as int)),
                forall|j: int| 0 <= j < regions@.len() ==> region_wf(#[trigger] regions@[j]),
            decreases self.spec_descriptors().len() - i,
        {
            let r = convert(&self.descriptors[i]);
            regions.push(r);
            proof {
                assert(convert_all(self.spec_descriptors().take(i as int + 1)) =~= convert_all(
                    self.spec_descriptors().take(i as int),
                ).push(spec_convert(self.spec_descriptors()[i as int])));
            }
            i += 1;
        }
        proof {
            assert(self.spec_descriptors().take(self.spec_descriptors().len() as int) =~= self.spec_descriptors());
        }
        consolidate_regions(&regions)
    }
}

/// The consolidated map must fit the region slots reserved before exit
/// from boot services; exceeding the slack is fatal, never a silent
/// truncation.
pub fn check_region_capacity(regions: &Vec<MemoryRegion>, capacity: u64) -> (r: Result<
    (),
    BootError,
>)
    ensures
        (r is Ok <==> regions@.len() <= capacity),
        r is Err ==> r == Err::<(), BootError>(BootError::TooManyRegions),
{
    if regions.len() as u64 <= capacity {
        Ok(())
    } else {
        Err(BootError::TooManyRegions)
    }
}

/// No two adjacent regions of the output can merge further.
pub open spec fn adjacent_free(s: Seq<MemoryRegion>) -> bool {
    forall|i: int| 0 <= i < s.len() - 1 ==> !mergeable(#[trigger] s[i], s[i + 1])
}

/// Head of the output keeps the head's start and kind, and output is empty
/// only for empty input.
proof fn lemma_consolidate_head(s: Seq<MemoryRegion>)
    requires
        s.len() > 0,
    ensures
        consolidate_spec(s).len() > 0,
        consolidate_spec(s)[0].start == s[0].start,
        consolidate_spec(s)[0].kind == s[0].kind,
    decreases s.len(),
{
    if s.len() <= 1 {
    } else if mergeable(s[0], s[1]) {
        lemma_consolidate_head(seq![spec_merge(s[0], s[1])] + s.skip(2));
    } else {
        lemma_consolidate_head(s.skip(1));
    }
}

/// Consolidation is maximal: nothing adjacent in its output can merge.
pub proof fn lemma_consolidate_adjacent_free(s: Seq<MemoryRegion>)
    ensures
        adjacent_free(consolidate_spec(s)),
    decreases s.len(),
{
    if s.len() <= 1 {
    } else if mergeable(s[0], s[1]) {
        lemma_consolidate_adjacent_free(seq![spec_merge(s[0], s[1])] + s.skip(2));
    } else {
        let rest = s.skip(1);
        lemma_consolidate_adjacent_free(rest);
        lemma_consolidate_head(rest);
        let out = seq![s[0]] + consolidate_spec(rest);
        assert(rest[0] == s[1]);
        assert(!mergeable(out[0], out[1]));
        assert forall|i: int| 0 <= i < out.len() - 1 implies !mergeable(
            #[trigger] out[i],
            out[i + 1],
        ) by {
            if i > 0 {
                assert(out[i] == consolidate_spec(rest)[i - 1]);
                assert(out[i + 1] == consolidate_spec(rest)[i]);
            }
        }
    }
}

/// A sequence in which nothing adjacent can merge consolidates to itself.
pub proof fn lemma_consolidate_fixed_point(s: Seq<MemoryRegion>)
    requires
        adjacent_free(s),
    ensures
        consolidate_spec(s) == s,
    decreases s.len(),
{
    if s.len() <= 1 {
    } else {
        assert(!mergeable(s[0], s[1]));
        let rest = s.skip(1);
        assert(adjacent_free(rest)) by {
            assert forall|i: int| 0 <= i < rest.len() - 1 implies !mergeable(
                #[trigger] rest[i],
                rest[i + 1],
            ) by {
                assert(rest[i] == s[i + 1]);
                assert(rest[i + 1] == s[i + 2]);
            }
        }
        lemma_consolidate_fixed_point(rest);
        assert(seq![s[0]] + rest =~= s);
    }
}

/// Consolidating a consolidated map changes nothing: the consolidator is
/// idempotent.
pub proof fn lemma_consolidate_idempotent(s: Seq<MemoryRegion>)
    ensures
        consolidate_spec(consolidate_spec(s)) == consolidate_spec(s),
{
    lemma_consolidate_adjacent_free(s);
    lemma_consolidate_fixed_point(consolidate_spec(s));
}

/// The regions cover an address range back to back, each starting where
/// the one before ends.
pub open spec fn contiguous(s: Seq<MemoryRegion>) -> bool {
    forall|i: int| 0 <= i < s.len() - 1 ==> (#[trigger] s[i]).start + s[i].len == s[i + 1].start
}

pub open spec fn end_of(s: Seq<MemoryRegion>) -> int {
    s[s.len() - 1].start + s[s.len() - 1].len
}

/// Consolidating a contiguous map yields a contiguous map over the same
/// address range — no gaps appear and none close — and no two adjacent
/// output regions share a kind.
#[verifier::rlimit(100)]
pub proof fn lemma_consolidate_covers(s: Seq<MemoryRegion>)
    requires
        s.len() > 0,
        contiguous(s),
        forall|i: int| 0 <= i < s.len() ==> region_wf(#[trigger] s[i]),
    ensures
        consolidate_spec(s).len() > 0,
        contiguous(consolidate_spec(s)),
        consolidate_spec(s)[0].start == s[0].start,
        end_of(consolidate_spec(s)) == end_of(s),
        forall|i: int|
            0 <= i < consolidate_spec(s).len() - 1 ==> (#[trigger] consolidate_spec(s)[i]).kind
                != consolidate_spec(s)[i + 1].kind,
    decreases s.len(),
{
    lemma_consolidate_head(s);
    if s.len() <= 1 {
    } else if mergeable(s[0], s[1]) {
        let t = seq![spec_merge(s[0], s[1])] + s.skip(2);
        assert(region_wf(s[0]) && region_wf(s[1]));
        assert(s[0].len + s[1].len <= u64::MAX);
        assert forall|i: int| 0 <= i < t.len() implies region_wf(#[trigger] t[i]) by {
            if i > 0 {
                assert(t[i] == s[i + 1]);
            }
        }
        assert(contiguous(t)) by {
            assert forall|i: int| 0 <= i < t.len() - 1 implies (#[trigger] t[i]).start + t[i].len
                == t[i + 1].start by {
                if i == 0 {
                    assert(t[1] == s[2]);
                    assert(s[1].start + s[1].len == s[2].start);
                } else {
                    assert(t[i] == s[i + 1]);
                    assert(t[i + 1] == s[i + 2]);
                }
            }
        }
        assert(end_of(t) == end_of(s)) by {
            if t.len() == 1 {
            } else {
                assert(t[t.len() - 1] == s[s.len() - 1]);
            }
        }
        lemma_consolidate_covers(t);
    } else {
        let rest = s.skip(1);
        assert forall|i: int| 0 <= i < rest.len() implies region_wf(#[trigger] rest[i]) by {
            assert(rest[i] == s[i + 1]);
        }
        assert(contiguous(rest)) by {
            assert forall|i: int| 0 <= i < rest.len() - 1 implies (#[trigger] rest[i]).start
                + rest[i].len == rest[i + 1].start by {
                assert(rest[i] == s[i + 1]);
                assert(rest[i + 1] == s[i + 2]);
            }
        }
        lemma_consolidate_covers(rest);
        lemma_consolidate_head(rest);
        lemma_consolidate_adjacent_free(rest);
        let out = seq![s[0]] + consolidate_spec(rest);
        assert(rest[0] == s[1]);
        assert(end_of(out) == end_of(consolidate_spec(rest))) by {
            assert(out[out.len() - 1] == consolidate_spec(rest)[consolidate_spec(rest).len() - 1]);
        }
        assert(end_of(rest) == end_of(s)) by {
            assert(rest[rest.len() - 1] == s[s.len() - 1]);
        }
        assert(contiguous(out)) by {
            assert forall|i: int| 0 <= i < out.len() - 1 implies (#[trigger] out[i]).start
                + out[i].len == out[i + 1].start by {
                if i == 0 {
                    assert(out[1] == consolidate_spec(rest)[0]);
                } else {
                    assert(out[i] == consolidate_spec(rest)[i - 1]);
                    assert(out[i + 1] == consolidate_spec(rest)[i]);
                }
            }
        }
        assert forall|i: int| 0 <= i < out.len() - 1 implies (#[trigger] out[i]).kind != out[i
            + 1].kind by {
            if i == 0 {
                assert(out[1] == consolidate_spec(rest)[0]);
                assert(!mergeable(s[0], s[1]));
                assert(s[0].start + s[0].len == s[1].start);
            } else {
                assert(out[i] == consolidate_spec(rest)[i - 1]);
                assert(out[i + 1] == consolidate_spec(rest)[i]);
            }
        }
    }
}

} // verus!
