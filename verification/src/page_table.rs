//! A four-level page table under construction.
//!
//! Tables of every level live in one arena per level: a vector holding the
//! 512-entry tables of that level back to back. A directory entry names its
//! child table by index into the next level's arena; a leaf entry holds the
//! mapped physical frame number and its flags. `spec_walk` is the meaning of
//! the structure: a fresh four-level walk from the root, and every contract
//! below speaks in terms of it.

use vstd::prelude::*;
use crate::pte::PteFlags;

verus! {

/// Number of entries of one table.
pub const TABLE_LEN: u64 = 512;

/// Virtual page numbers index 48-bit space: four nine-bit levels.
pub const VPN_LIMIT: u64 = 0x10_0000_0000;

/// Frame numbers stay below 2^35: physical addresses below 2^47.
pub const LEAF_FRAME_LIMIT: u64 = 0x8_0000_0000;

/// An entry of a directory table (levels 4, 3, 2).
#[derive(Clone, Copy, Debug, PartialEq, Eq, Structural)]
pub enum DirEntry {
    Vacant,
    Table { child: usize, flags: PteFlags },
}

/// An entry of a last-level table.
#[derive(Clone, Copy, Debug, PartialEq, Eq, Structural)]
pub enum LeafEntry {
    Vacant,
    Mapped { frame: u64, flags: PteFlags },
}

/// Child table index of a directory entry; -1 when vacant.
pub open spec fn dir_child(e: DirEntry) -> int {
    match e {
        DirEntry::Vacant => -1,
        DirEntry::Table { child, .. } => child as int,
    }
}

/// A leaf entry's frame number stays below the physical limit.
pub open spec fn leaf_frame_ok(e: LeafEntry) -> bool {
    match e {
        LeafEntry::Vacant => true,
        LeafEntry::Mapped { frame, .. } => frame < LEAF_FRAME_LIMIT,
    }
}

/// The frame and flags of a leaf entry.
pub open spec fn leaf_mapping(e: LeafEntry) -> Option<(u64, PteFlags)> {
    match e {
        LeafEntry::Vacant => None,
        LeafEntry::Mapped { frame, flags } => Some((frame, flags)),
    }
}

pub open spec fn l4_index(vpn: u64) -> int {
    ((vpn as int) / 0x800_0000) % 512
}

pub open spec fn l3_index(vpn: u64) -> int {
    ((vpn as int) / 0x4_0000) % 512
}

pub open spec fn l2_index(vpn: u64) -> int {
    ((vpn as int) / 512) % 512
}

pub open spec fn l1_index(vpn: u64) -> int {
    (vpn as int) % 512
}

/// A virtual page number is exactly its four level indices.
pub proof fn lemma_vpn_digits(v: u64)
    requires
        v < VPN_LIMIT,
    ensures
        v == l4_index(v) * 0x800_0000 + l3_index(v) * 0x4_0000 + l2_index(v) * 512 + l1_index(v),
{
    let x = v as int;
    vstd::arithmetic::div_mod::lemma_fundamental_div_mod(x, 512);
    vstd::arithmetic::div_mod::lemma_fundamental_div_mod(x / 512, 512);
    vstd::arithmetic::div_mod::lemma_fundamental_div_mod(x / 0x4_0000, 512);
    assert((x / 512) / 512 == x / 0x4_0000) by {
        vstd::arithmetic::div_mod::lemma_div_denominator(x, 512, 512);
    }
    assert((x / 0x4_0000) / 512 == x / 0x800_0000) by {
        vstd::arithmetic::div_mod::lemma_div_denominator(x, 0x4_0000, 512);
    }
    assert(x / 0x800_0000 < 512) by (nonlinear_arith)
        requires 0 <= x < 0x10_0000_0000int,
    ;
    assert((x / 0x800_0000) % 512 == x / 0x800_0000) by {
        vstd::arithmetic::div_mod::lemma_small_mod((x / 0x800_0000) as nat, 512);
    }
}

/// Two page numbers with the same four indices are the same page.
pub proof fn lemma_vpn_unique(a: u64, b: u64)
    requires
        a < VPN_LIMIT,
        b < VPN_LIMIT,
        l4_index(a) == l4_index(b),
        l3_index(a) == l3_index(b),
        l2_index(a) == l2_index(b),
        l1_index(a) == l1_index(b),
    ensures
        a == b,
{
    lemma_vpn_digits(a);
    lemma_vpn_digits(b);
}

/// An arena holds whole tables: `t` names a table, `s` a slot of it, and the
/// flat position is in bounds.
pub proof fn lemma_slot_in_bounds(len: int, t: int, s: int)
    requires
        len % 512 == 0,
        0 <= t < len / 512,
        0 <= s < 512,
    ensures
        0 <= t * 512 + s < len,
{
    vstd::arithmetic::div_mod::lemma_fundamental_div_mod(len, 512);
}

/// No two directory entries of one level name the same child table.
pub open spec fn arena_injective(s: Seq<DirEntry>) -> bool {
    forall|k1: int, k2: int|
        0 <= k1 < s.len() && 0 <= k2 < s.len() && dir_child(s[k1]) >= 0
            && #[trigger] dir_child(s[k1]) == #[trigger] dir_child(s[k2]) ==> k1 == k2
}

pub struct PageTables {
    l4: Vec<DirEntry>,
    l3: Vec<DirEntry>,
    l2: Vec<DirEntry>,
    l1: Vec<LeafEntry>,
}

/// The mapping already leads to a different frame, which the bootloader
/// treats as a programming error.
#[derive(Clone, Copy, Debug, PartialEq, Eq, Structural)]
pub struct MapConflict {
    pub existing_frame: u64,
}

impl PageTables {
    pub closed spec fn l4_seq(self) -> Seq<DirEntry> {
        self.l4@
    }

    pub closed spec fn l3_seq(self) -> Seq<DirEntry> {
        self.l3@
    }

    pub closed spec fn l2_seq(self) -> Seq<DirEntry> {
        self.l2@
    }

    pub closed spec fn l1_seq(self) -> Seq<LeafEntry> {
        self.l1@
    }

    pub open spec fn wf(self) -> bool {
        &&& self.l4_seq().len() == 512
        &&& self.l3_seq().len() % 512 == 0
        &&& self.l2_seq().len() % 512 == 0
        &&& self.l1_seq().len() % 512 == 0
        &&& forall|k: int|
            0 <= k < 512 ==> #[trigger] dir_child(self.l4_seq()[k]) < self.l3_seq().len() / 512
        &&& forall|k: int|
            0 <= k < self.l3_seq().len() ==> #[trigger] dir_child(self.l3_seq()[k])
                < self.l2_seq().len() / 512
        &&& forall|k: int|
            0 <= k < self.l2_seq().len() ==> #[trigger] dir_child(self.l2_seq()[k])
                < self.l1_seq().len() / 512
        &&& forall|k: int| 0 <= k < self.l1_seq().len() ==> leaf_frame_ok(#[trigger] self.l1_seq()[k])
        &&& arena_injective(self.l4_seq())
        &&& arena_injective(self.l3_seq())
        &&& arena_injective(self.l2_seq())
    }

    /// The meaning of the structure: a fresh four-level walk from the root.
    pub open spec fn spec_walk(self, vpn: u64) -> Option<(u64, PteFlags)> {
        let c3 = dir_child(self.l4_seq()[l4_index(vpn)]);
        if !(0 <= c3 < self.l3_seq().len() / 512) {
            None
        } else {
            let c2 = dir_child(self.l3_seq()[c3 * 512 + l3_index(vpn)]);
            if !(0 <= c2 < self.l2_seq().len() / 512) {
                None
            } else {
                let c1 = dir_child(self.l2_seq()[c2 * 512 + l2_index(vpn)]);
                if !(0 <= c1 < self.l1_seq().len() / 512) {
                    None
                } else {
                    leaf_mapping(self.l1_seq()[c1 * 512 + l1_index(vpn)])
                }
            }
        }
    }

    /// An empty root table: nothing is mapped.
    pub fn new() -> (r: Self)
        ensures
            r.wf(),
            forall|v: u64| #[trigger] r.spec_walk(v) is None,
    {
        let mut l4: Vec<DirEntry> = Vec::new();
        push_vacant_dir_block(&mut l4);
        PageTables { l4, l3: Vec::new(), l2: Vec::new(), l1: Vec::new() }
    }

    /// Reads the mapping of `vpn` by walking the four levels.
    pub fn lookup(&self, vpn: u64) -> (r: Option<(u64, PteFlags)>)
        requires
            self.wf(),
        ensures
            r == self.spec_walk(vpn),
    {
        let i4 = index_of_level(vpn, 0x800_0000);
        let e4 = self.l4[i4];
        let c3 = match e4 {
            DirEntry::Vacant => {
                return None;
            },
            DirEntry::Table { child, .. } => child,
        };
        let e3 = self.l3[flat_slot(c3, index_of_level(vpn, 0x4_0000), self.l3.len())];
        let c2 = match e3 {
            DirEntry::Vacant => {
                return None;
            },
            DirEntry::Table { child, .. } => child,
        };
        let e2 = self.l2[flat_slot(c2, index_of_level(vpn, 512), self.l2.len())];
        let c1 = match e2 {
            DirEntry::Vacant => {
                return None;
            },
            DirEntry::Table { child, .. } => child,
        };
        let e1 = self.l1[flat_slot(c1, index_of_level(vpn, 1), self.l1.len())];
        match e1 {
            LeafEntry::Vacant => None,
            LeafEntry::Mapped { frame, flags } => Some((frame, flags)),
        }
    }

    /// Installs `vpn -> frame` with `flags`, allocating intermediate tables
    /// on demand. Fails, changing nothing, exactly when the page already
    /// maps to a different frame: the bootloader does not remap.
    pub fn map(&mut self, vpn: u64, frame: u64, flags: PteFlags) -> (r: Result<
        (),
        MapConflict,
    >)
        requires
            old(self).wf(),
            vpn < VPN_LIMIT,
            frame < LEAF_FRAME_LIMIT,
        ensures
            final(self).wf(),
            (r is Ok <==> match old(self).spec_walk(vpn) {
                None => true,
                Some((f, _)) => f == frame,
            }),
            r is Ok ==> final(self).spec_walk(vpn) == Some((frame, flags)),
            r is Err ==> *final(self) == *old(self),
            forall|v: u64|
                v < VPN_LIMIT && v != vpn ==> #[trigger] final(self).spec_walk(v)
                    == old(self).spec_walk(v),
    {
        match self.lookup(vpn) {
            Some((f, _)) => {
                if f != frame {
                    return Err(MapConflict { existing_frame: f });
                }
            },
            None => {},
        }

        let i4 = index_of_level(vpn, 0x800_0000);
        let i3 = index_of_level(vpn, 0x4_0000);
        let i2 = index_of_level(vpn, 512);
        let i1 = index_of_level(vpn, 1);

        // Level 4 -> level 3 table.
        let ghost s0 = *self;
        let e4 = self.l4[i4];
        let c3 = match e4 {
            DirEntry::Table { child, .. } => child,
            DirEntry::Vacant => {
                let child = self.l3.len() / 512;
                push_vacant_dir_block(&mut self.l3);
                self.l4[i4] = DirEntry::Table { child, flags: PteFlags::present_writable() };
                child
            },
        };
        proof {
            lemma_step_dir(s0.l4_seq(), s0.l3_seq(), self.l4_seq(), self.l3_seq(), i4 as int, c3 as int);
            assert(self.wf()) by { lemma_step_wf_34(s0, *self, i4 as int, c3 as int); }
            assert forall|v: u64| #[trigger] self.spec_walk(v) == s0.spec_walk(v) by {
                lemma_step_preserves_34(s0, *self, i4 as int, c3 as int, v);
            }
        }

        // Level 3 -> level 2 table.
        let ghost s1 = *self;
        let k3 = flat_slot(c3, i3, self.l3.len());
        let e3 = self.l3[k3];
        let c2 = match e3 {
            DirEntry::Table { child, .. } => child,
            DirEntry::Vacant => {
                let child = self.l2.len() / 512;
                push_vacant_dir_block(&mut self.l2);
                self.l3[k3] = DirEntry::Table { child, flags: PteFlags::present_writable() };
                child
            },
        };
        proof {
            lemma_step_dir(s1.l3_seq(), s1.l2_seq(), self.l3_seq(), self.l2_seq(), k3 as int, c2 as int);
            assert(self.wf()) by { lemma_step_wf_23(s1, *self, k3 as int, c2 as int); }
            assert(self.l4_seq() == s1.l4_seq());
            assert forall|v: u64| #[trigger] self.spec_walk(v) == s1.spec_walk(v) by {
                lemma_step_preserves_23(s1, *self, k3 as int, c2 as int, v);
            }
        }

        // Level 2 -> level 1 table.
        let ghost s2 = *self;
        let k2 = flat_slot(c2, i2, self.l2.len());
        let e2 = self.l2[k2];
        let c1 = match e2 {
            DirEntry::Table { child, .. } => child,
            DirEntry::Vacant => {
                let child = self.l1.len() / 512;
                push_vacant_leaf_block(&mut self.l1);
                self.l2[k2] = DirEntry::Table { child, flags: PteFlags::present_writable() };
                child
            },
        };
        proof {
            lemma_step_leafdir(s2.l2_seq(), s2.l1_seq(), self.l2_seq(), self.l1_seq(), k2 as int, c1 as int);
            assert(self.wf()) by { lemma_step_wf_12(s2, *self, k2 as int, c1 as int); }
            assert(self.l4_seq() == s2.l4_seq());
            assert(self.l3_seq() == s2.l3_seq());
            assert forall|v: u64| #[trigger] self.spec_walk(v) == s2.spec_walk(v) by {
                lemma_step_preserves_12(s2, *self, k2 as int, c1 as int, v);
            }
        }

        // Leaf entry.
        let ghost s3 = *self;
        let k1 = flat_slot(c1, i1, self.l1.len());
        self.l1[k1] = LeafEntry::Mapped { frame, flags };
        proof {
            assert(self.l4_seq() == s3.l4_seq());
            assert(self.l3_seq() == s3.l3_seq());
            assert(self.l2_seq() == s3.l2_seq());
            assert(self.l1_seq() == s3.l1_seq().update(k1 as int, LeafEntry::Mapped { frame, flags }));
            assert forall|k: int| 0 <= k < self.l1_seq().len() implies leaf_frame_ok(
                #[trigger] self.l1_seq()[k],
            ) by {
                if k != k1 {
                    assert(self.l1_seq()[k] == s3.l1_seq()[k]);
                }
            }
            assert(self.wf());
            assert(self.spec_walk(vpn) == Some((frame, flags)));
            assert forall|v: u64| v < VPN_LIMIT && v != vpn implies #[trigger] self.spec_walk(v)
                == s3.spec_walk(v) by {
                lemma_leaf_preserves(s3, *self, vpn, c3 as int, c2 as int, c1 as int, v);
            }
        }
        Ok(())
    }
}

/// Flat position of slot `s` of table `t` in an arena of length `len`.
fn flat_slot(t: usize, s: usize, len: usize) -> (r: usize)
    requires
        len % 512 == 0,
        (t as int) < (len as int) / 512,
        s < 512,
    ensures
        r == t * 512 + s,
        r < len,
{
    proof {
        lemma_slot_in_bounds(len as int, t as int, s as int);
    }
    t * 512 + s
}

/// Exec computation of one nine-bit level index: `div` is the size in pages
/// of one entry of that level.
fn index_of_level(vpn: u64, div: u64) -> (r: usize)
    requires
        div > 0,
    ensures
        r == ((vpn as int) / (div as int)) % 512,
        r < 512,
{
    ((vpn / div) % 512) as usize
}

/// Appends one all-vacant directory table to an arena.
fn push_vacant_dir_block(v: &mut Vec<DirEntry>)
    ensures
        final(v)@.len() == old(v)@.len() + 512,
        forall|k: int| 0 <= k < old(v)@.len() ==> final(v)@[k] == old(v)@[k],
        forall|k: int| old(v)@.len() <= k < final(v)@.len() ==> final(v)@[k] == DirEntry::Vacant,
{
    let mut i: usize = 0;
    while i < 512
        invariant
            0 <= i <= 512,
            v@.len() == old(v)@.len() + i,
            forall|k: int| 0 <= k < old(v)@.len() ==> v@[k] == old(v)@[k],
            forall|k: int| old(v)@.len() <= k < v@.len() ==> v@[k] == DirEntry::Vacant,
        decreases 512 - i,
    {
        v.push(DirEntry::Vacant);
        i += 1;
    }
}

/// Appends one all-vacant leaf table to an arena.
fn push_vacant_leaf_block(v: &mut Vec<LeafEntry>)
    ensures
        final(v)@.len() == old(v)@.len() + 512,
        forall|k: int| 0 <= k < old(v)@.len() ==> final(v)@[k] == old(v)@[k],
        forall|k: int| old(v)@.len() <= k < final(v)@.len() ==> final(v)@[k] == LeafEntry::Vacant,
{
    let mut i: usize = 0;
    while i < 512
        invariant
            0 <= i <= 512,
            v@.len() == old(v)@.len() + i,
            forall|k: int| 0 <= k < old(v)@.len() ==> v@[k] == old(v)@[k],
            forall|k: int| old(v)@.len() <= k < v@.len() ==> v@[k] == LeafEntry::Vacant,
        decreases 512 - i,
    {
        v.push(LeafEntry::Vacant);
        i += 1;
    }
}

/// What one ensure-child step leaves behind, for a parent and child arena of
/// directory entries: either nothing changed and the parent names `c` at
/// `kp`, or a fresh table was appended and the vacant slot `kp` now names it.
pub open spec fn step_shape(
    p0: Seq<DirEntry>,
    c0: Seq<DirEntry>,
    p1: Seq<DirEntry>,
    c1: Seq<DirEntry>,
    kp: int,
    c: int,
) -> bool {
    &&& 0 <= kp < p0.len()
    &&& p0.len() == p1.len()
    &&& dir_child(p1[kp]) == c
    &&& if dir_child(p0[kp]) >= 0 {
        p1 == p0 && c1 == c0 && c == dir_child(p0[kp])
    } else {
        &&& c == c0.len() / 512
        &&& c1.len() == c0.len() + 512
        &&& (forall|k: int| 0 <= k < c0.len() ==> c1[k] == c0[k])
        &&& (forall|k: int| c0.len() <= k < c1.len() ==> dir_child(c1[k]) == -1)
        &&& p1 == p0.update(kp, DirEntry::Table { child: c as usize, flags: PteFlags::spec_present_writable() })
    }
}

/// The same shape when the child arena holds leaf entries.
pub open spec fn step_shape_leaf(
    p0: Seq<DirEntry>,
    c0: Seq<LeafEntry>,
    p1: Seq<DirEntry>,
    c1: Seq<LeafEntry>,
    kp: int,
    c: int,
) -> bool {
    &&& 0 <= kp < p0.len()
    &&& p0.len() == p1.len()
    &&& dir_child(p1[kp]) == c
    &&& if dir_child(p0[kp]) >= 0 {
        p1 == p0 && c1 == c0 && c == dir_child(p0[kp])
    } else {
        &&& c == c0.len() / 512
        &&& c1.len() == c0.len() + 512
        &&& (forall|k: int| 0 <= k < c0.len() ==> c1[k] == c0[k])
        &&& (forall|k: int| c0.len() <= k < c1.len() ==> c1[k] == LeafEntry::Vacant)
        &&& p1 == p0.update(kp, DirEntry::Table { child: c as usize, flags: PteFlags::spec_present_writable() })
    }
}

/// The exec ensure-child code establishes the step shape.
proof fn lemma_step_dir(
    p0: Seq<DirEntry>,
    c0: Seq<DirEntry>,
    p1: Seq<DirEntry>,
    c1: Seq<DirEntry>,
    kp: int,
    c: int,
)
    requires
        0 <= kp < p0.len(),
        0 <= c <= usize::MAX,
        p0.len() == p1.len(),
        dir_child(p0[kp]) >= 0 ==> p1 == p0 && c1 == c0 && c == dir_child(p0[kp]),
        dir_child(p0[kp]) < 0 ==> {
            &&& c == c0.len() / 512
            &&& c1.len() == c0.len() + 512
            &&& (forall|k: int| 0 <= k < c0.len() ==> c1[k] == c0[k])
            &&& (forall|k: int| c0.len() <= k < c1.len() ==> c1[k] == DirEntry::Vacant)
            &&& p1 == p0.update(kp, DirEntry::Table { child: c as usize, flags: PteFlags::spec_present_writable() })
        },
    ensures
        step_shape(p0, c0, p1, c1, kp, c),
{
}

proof fn lemma_step_leafdir(
    p0: Seq<DirEntry>,
    c0: Seq<LeafEntry>,
    p1: Seq<DirEntry>,
    c1: Seq<LeafEntry>,
    kp: int,
    c: int,
)
    requires
        0 <= kp < p0.len(),
        0 <= c <= usize::MAX,
        p0.len() == p1.len(),
        dir_child(p0[kp]) >= 0 ==> p1 == p0 && c1 == c0 && c == dir_child(p0[kp]),
        dir_child(p0[kp]) < 0 ==> {
            &&& c == c0.len() / 512
            &&& c1.len() == c0.len() + 512
            &&& (forall|k: int| 0 <= k < c0.len() ==> c1[k] == c0[k])
            &&& (forall|k: int| c0.len() <= k < c1.len() ==> c1[k] == LeafEntry::Vacant)
            &&& p1 == p0.update(kp, DirEntry::Table { child: c as usize, flags: PteFlags::spec_present_writable() })
        },
    ensures
        step_shape_leaf(p0, c0, p1, c1, kp, c),
{
}

/// Well-formedness survives an ensure-child step at levels 4 -> 3.
proof fn lemma_step_wf_34(s0: PageTables, s1: PageTables, kp: int, c: int)
    requires
        s0.wf(),
        step_shape(s0.l4_seq(), s0.l3_seq(), s1.l4_seq(), s1.l3_seq(), kp, c),
        s1.l2_seq() == s0.l2_seq(),
        s1.l1_seq() == s0.l1_seq(),
    ensures
        s1.wf(),
        0 <= c < s1.l3_seq().len() / 512,
{
    if dir_child(s0.l4_seq()[kp]) < 0 {
        assert(s1.l3_seq().len() % 512 == 0);
        assert forall|k: int| 0 <= k < 512 implies #[trigger] dir_child(s1.l4_seq()[k])
            < s1.l3_seq().len() / 512 by {
            if k != kp {
                assert(s1.l4_seq()[k] == s0.l4_seq()[k]);
            }
        }
        assert forall|k: int| 0 <= k < s1.l3_seq().len() implies #[trigger] dir_child(
            s1.l3_seq()[k],
        ) < s1.l2_seq().len() / 512 by {
            if k < s0.l3_seq().len() {
                assert(s1.l3_seq()[k] == s0.l3_seq()[k]);
            } else {
                assert(dir_child(s1.l3_seq()[k]) == -1);
            }
        }
        assert(arena_injective(s1.l4_seq())) by {
            assert forall|k1: int, k2: int|
                0 <= k1 < s1.l4_seq().len() && 0 <= k2 < s1.l4_seq().len()
                    && dir_child(s1.l4_seq()[k1]) >= 0
                    && #[trigger] dir_child(s1.l4_seq()[k1]) == #[trigger] dir_child(
                    s1.l4_seq()[k2],
                ) implies k1 == k2 by {
                if k1 != kp && k2 != kp {
                    assert(s1.l4_seq()[k1] == s0.l4_seq()[k1]);
                    assert(s1.l4_seq()[k2] == s0.l4_seq()[k2]);
                } else if k1 == kp && k2 != kp {
                    assert(s1.l4_seq()[k2] == s0.l4_seq()[k2]);
                    assert(dir_child(s0.l4_seq()[k2]) < s0.l3_seq().len() / 512);
                } else if k1 != kp && k2 == kp {
                    assert(s1.l4_seq()[k1] == s0.l4_seq()[k1]);
                    assert(dir_child(s0.l4_seq()[k1]) < s0.l3_seq().len() / 512);
                }
            }
        }
        assert(arena_injective(s1.l3_seq())) by {
            assert forall|k1: int, k2: int|
                0 <= k1 < s1.l3_seq().len() && 0 <= k2 < s1.l3_seq().len()
                    && dir_child(s1.l3_seq()[k1]) >= 0
                    && #[trigger] dir_child(s1.l3_seq()[k1]) == #[trigger] dir_child(
                    s1.l3_seq()[k2],
                ) implies k1 == k2 by {
                assert(dir_child(s1.l3_seq()[k1]) >= 0);
                assert(k1 < s0.l3_seq().len());
                assert(k2 < s0.l3_seq().len());
                assert(s1.l3_seq()[k1] == s0.l3_seq()[k1]);
                assert(s1.l3_seq()[k2] == s0.l3_seq()[k2]);
            }
        }
    }
}

/// Well-formedness survives an ensure-child step at levels 3 -> 2.
proof fn lemma_step_wf_23(s0: PageTables, s1: PageTables, kp: int, c: int)
    requires
        s0.wf(),
        step_shape(s0.l3_seq(), s0.l2_seq(), s1.l3_seq(), s1.l2_seq(), kp, c),
        s1.l4_seq() == s0.l4_seq(),
        s1.l1_seq() == s0.l1_seq(),
    ensures
        s1.wf(),
        0 <= c < s1.l2_seq().len() / 512,
{
    if dir_child(s0.l3_seq()[kp]) < 0 {
        assert forall|k: int| 0 <= k < 512 implies #[trigger] dir_child(s1.l4_seq()[k])
            < s1.l3_seq().len() / 512 by {
            assert(dir_child(s0.l4_seq()[k]) < s0.l3_seq().len() / 512);
        }
        assert forall|k: int| 0 <= k < s1.l3_seq().len() implies #[trigger] dir_child(
            s1.l3_seq()[k],
        ) < s1.l2_seq().len() / 512 by {
            if k != kp {
                assert(s1.l3_seq()[k] == s0.l3_seq()[k]);
            }
        }
        assert forall|k: int| 0 <= k < s1.l2_seq().len() implies #[trigger] dir_child(
            s1.l2_seq()[k],
        ) < s1.l1_seq().len() / 512 by {
            if k < s0.l2_seq().len() {
                assert(s1.l2_seq()[k] == s0.l2_seq()[k]);
            } else {
                assert(dir_child(s1.l2_seq()[k]) == -1);
            }
        }
        assert(arena_injective(s1.l3_seq())) by {
            assert forall|k1: int, k2: int|
                0 <= k1 < s1.l3_seq().len() && 0 <= k2 < s1.l3_seq().len()
                    && dir_child(s1.l3_seq()[k1]) >= 0
                    && #[trigger] dir_child(s1.l3_seq()[k1]) == #[trigger] dir_child(
                    s1.l3_seq()[k2],
                ) implies k1 == k2 by {
                if k1 != kp && k2 != kp {
                    assert(s1.l3_seq()[k1] == s0.l3_seq()[k1]);
                    assert(s1.l3_seq()[k2] == s0.l3_seq()[k2]);
                } else if k1 == kp && k2 != kp {
                    assert(s1.l3_seq()[k2] == s0.l3_seq()[k2]);
                    assert(dir_child(s0.l3_seq()[k2]) < s0.l2_seq().len() / 512);
                } else if k1 != kp && k2 == kp {
                    assert(s1.l3_seq()[k1] == s0.l3_seq()[k1]);
                    assert(dir_child(s0.l3_seq()[k1]) < s0.l2_seq().len() / 512);
                }
            }
        }
        assert(arena_injective(s1.l2_seq())) by {
            assert forall|k1: int, k2: int|
                0 <= k1 < s1.l2_seq().len() && 0 <= k2 < s1.l2_seq().len()
                    && dir_child(s1.l2_seq()[k1]) >= 0
                    && #[trigger] dir_child(s1.l2_seq()[k1]) == #[trigger] dir_child(
                    s1.l2_seq()[k2],
                ) implies k1 == k2 by {
                assert(k1 < s0.l2_seq().len());
                assert(k2 < s0.l2_seq().len());
                assert(s1.l2_seq()[k1] == s0.l2_seq()[k1]);
                assert(s1.l2_seq()[k2] == s0.l2_seq()[k2]);
            }
        }
    }
}

/// Well-formedness survives an ensure-child step at levels 2 -> 1.
proof fn lemma_step_wf_12(s0: PageTables, s1: PageTables, kp: int, c: int)
    requires
        s0.wf(),
        step_shape_leaf(s0.l2_seq(), s0.l1_seq(), s1.l2_seq(), s1.l1_seq(), kp, c),
        s1.l4_seq() == s0.l4_seq(),
        s1.l3_seq() == s0.l3_seq(),
    ensures
        s1.wf(),
        0 <= c < s1.l1_seq().len() / 512,
{
    if dir_child(s0.l2_seq()[kp]) < 0 {
        assert forall|k: int| 0 <= k < s1.l1_seq().len() implies leaf_frame_ok(
            #[trigger] s1.l1_seq()[k],
        ) by {
            if k < s0.l1_seq().len() {
                assert(s1.l1_seq()[k] == s0.l1_seq()[k]);
            } else {
                assert(s1.l1_seq()[k] == LeafEntry::Vacant);
            }
        }
        assert forall|k: int| 0 <= k < s1.l3_seq().len() implies #[trigger] dir_child(
            s1.l3_seq()[k],
        ) < s1.l2_seq().len() / 512 by {
            assert(dir_child(s0.l3_seq()[k]) < s0.l2_seq().len() / 512);
        }
        assert forall|k: int| 0 <= k < s1.l2_seq().len() implies #[trigger] dir_child(
            s1.l2_seq()[k],
        ) < s1.l1_seq().len() / 512 by {
            if k != kp {
                assert(s1.l2_seq()[k] == s0.l2_seq()[k]);
            }
        }
        assert(arena_injective(s1.l2_seq())) by {
            assert forall|k1: int, k2: int|
                0 <= k1 < s1.l2_seq().len() && 0 <= k2 < s1.l2_seq().len()
                    && dir_child(s1.l2_seq()[k1]) >= 0
                    && #[trigger] dir_child(s1.l2_seq()[k1]) == #[trigger] dir_child(
                    s1.l2_seq()[k2],
                ) implies k1 == k2 by {
                if k1 != kp && k2 != kp {
                    assert(s1.l2_seq()[k1] == s0.l2_seq()[k1]);
                    assert(s1.l2_seq()[k2] == s0.l2_seq()[k2]);
                } else if k1 == kp && k2 != kp {
                    assert(s1.l2_seq()[k2] == s0.l2_seq()[k2]);
                    assert(dir_child(s0.l2_seq()[k2]) < s0.l1_seq().len() / 512);
                } else if k1 != kp && k2 == kp {
                    assert(s1.l2_seq()[k1] == s0.l2_seq()[k1]);
                    assert(dir_child(s0.l2_seq()[k1]) < s0.l1_seq().len() / 512);
                }
            }
        }
    }
}

/// No walk changes when a vacant level-4 slot is pointed at a fresh empty
/// level-3 table.
proof fn lemma_step_preserves_34(s0: PageTables, s1: PageTables, kp: int, c: int, v: u64)
    requires
        s0.wf(),
        s1.wf(),
        step_shape(s0.l4_seq(), s0.l3_seq(), s1.l4_seq(), s1.l3_seq(), kp, c),
        s1.l2_seq() == s0.l2_seq(),
        s1.l1_seq() == s0.l1_seq(),
    ensures
        s1.spec_walk(v) == s0.spec_walk(v),
{
    if dir_child(s0.l4_seq()[kp]) < 0 {
        let j4 = l4_index(v);
        if j4 == kp {
            // The old walk stopped at the vacant slot; the new walk enters
            // the fresh table and stops there.
            assert(dir_child(s1.l4_seq()[j4]) == c);
            assert(0 <= c < s1.l3_seq().len() / 512);
            lemma_slot_in_bounds(s1.l3_seq().len() as int, c, l3_index(v));
            assert(c * 512 + l3_index(v) >= s0.l3_seq().len()) by {
                vstd::arithmetic::div_mod::lemma_fundamental_div_mod(s0.l3_seq().len() as int, 512);
            }
            assert(dir_child(s1.l3_seq()[c * 512 + l3_index(v)]) == -1);
            assert(s1.spec_walk(v) is None);
            assert(s0.spec_walk(v) is None);
        } else {
            assert(s1.l4_seq()[j4] == s0.l4_seq()[j4]);
            let c3 = dir_child(s0.l4_seq()[j4]);
            if 0 <= c3 {
                assert(c3 < s0.l3_seq().len() / 512);
                lemma_slot_in_bounds(s0.l3_seq().len() as int, c3, l3_index(v));
                assert(s1.l3_seq()[c3 * 512 + l3_index(v)] == s0.l3_seq()[c3 * 512 + l3_index(v)]);
                assert(c3 < s1.l3_seq().len() / 512);
            }
        }
    }
}

/// No walk changes when a vacant level-3 slot is pointed at a fresh empty
/// level-2 table.
proof fn lemma_step_preserves_23(s0: PageTables, s1: PageTables, kp: int, c: int, v: u64)
    requires
        s0.wf(),
        s1.wf(),
        step_shape(s0.l3_seq(), s0.l2_seq(), s1.l3_seq(), s1.l2_seq(), kp, c),
        s1.l4_seq() == s0.l4_seq(),
        s1.l1_seq() == s0.l1_seq(),
    ensures
        s1.spec_walk(v) == s0.spec_walk(v),
{
    if dir_child(s0.l3_seq()[kp]) < 0 {
        let j4 = l4_index(v);
        let c3 = dir_child(s0.l4_seq()[j4]);
        if 0 <= c3 {
            assert(c3 < s0.l3_seq().len() / 512);
            assert(c3 < s1.l3_seq().len() / 512);
            lemma_slot_in_bounds(s0.l3_seq().len() as int, c3, l3_index(v));
            let kv = c3 * 512 + l3_index(v);
            if kv == kp {
                assert(dir_child(s1.l3_seq()[kv]) == c);
                assert(0 <= c < s1.l2_seq().len() / 512);
                lemma_slot_in_bounds(s1.l2_seq().len() as int, c, l2_index(v));
                assert(c * 512 + l2_index(v) >= s0.l2_seq().len()) by {
                    vstd::arithmetic::div_mod::lemma_fundamental_div_mod(
                        s0.l2_seq().len() as int,
                        512,
                    );
                }
                assert(dir_child(s1.l2_seq()[c * 512 + l2_index(v)]) == -1);
                assert(s1.spec_walk(v) is None);
                assert(s0.spec_walk(v) is None);
            } else {
                assert(s1.l3_seq()[kv] == s0.l3_seq()[kv]);
                let c2 = dir_child(s0.l3_seq()[kv]);
                if 0 <= c2 {
                    assert(c2 < s0.l2_seq().len() / 512);
                    lemma_slot_in_bounds(s0.l2_seq().len() as int, c2, l2_index(v));
                    assert(s1.l2_seq()[c2 * 512 + l2_index(v)] == s0.l2_seq()[c2 * 512 + l2_index(
                        v,
                    )]);
                    assert(c2 < s1.l2_seq().len() / 512);
                }
            }
        }
    }
}

/// No walk changes when a vacant level-2 slot is pointed at a fresh empty
/// level-1 table.
proof fn lemma_step_preserves_12(s0: PageTables, s1: PageTables, kp: int, c: int, v: u64)
    requires
        s0.wf(),
        s1.wf(),
        step_shape_leaf(s0.l2_seq(), s0.l1_seq(), s1.l2_seq(), s1.l1_seq(), kp, c),
        s1.l4_seq() == s0.l4_seq(),
        s1.l3_seq() == s0.l3_seq(),
    ensures
        s1.spec_walk(v) == s0.spec_walk(v),
{
    if dir_child(s0.l2_seq()[kp]) < 0 {
        let j4 = l4_index(v);
        let c3 = dir_child(s0.l4_seq()[j4]);
        if 0 <= c3 {
            assert(c3 < s0.l3_seq().len() / 512);
            lemma_slot_in_bounds(s0.l3_seq().len() as int, c3, l3_index(v));
            let c2 = dir_child(s0.l3_seq()[c3 * 512 + l3_index(v)]);
            if 0 <= c2 {
                assert(c2 < s0.l2_seq().len() / 512);
                lemma_slot_in_bounds(s0.l2_seq().len() as int, c2, l2_index(v));
                let kv = c2 * 512 + l2_index(v);
                if kv == kp {
                    assert(dir_child(s1.l2_seq()[kv]) == c);
                    assert(0 <= c < s1.l1_seq().len() / 512);
                    lemma_slot_in_bounds(s1.l1_seq().len() as int, c, l1_index(v));
                    assert(c * 512 + l1_index(v) >= s0.l1_seq().len()) by {
                        vstd::arithmetic::div_mod::lemma_fundamental_div_mod(
                            s0.l1_seq().len() as int,
                            512,
                        );
                    }
                    assert(s1.l1_seq()[c * 512 + l1_index(v)] == LeafEntry::Vacant);
                    assert(s1.spec_walk(v) is None);
                    assert(s0.spec_walk(v) is None);
                } else {
                    assert(s1.l2_seq()[kv] == s0.l2_seq()[kv]);
                    let c1 = dir_child(s0.l2_seq()[kv]);
                    if 0 <= c1 {
                        assert(c1 < s0.l1_seq().len() / 512);
                        lemma_slot_in_bounds(s0.l1_seq().len() as int, c1, l1_index(v));
                        assert(s1.l1_seq()[c1 * 512 + l1_index(v)] == s0.l1_seq()[c1 * 512
                            + l1_index(v)]);
                        assert(c1 < s1.l1_seq().len() / 512);
                    }
                }
            }
        }
    }
}

/// Writing the leaf entry of `vpn` changes no other page's walk: the three
/// injectivity invariants force any other page reaching the same leaf cell
/// to share all four indices, hence to be `vpn` itself.
proof fn lemma_leaf_preserves(
    s0: PageTables,
    s1: PageTables,
    vpn: u64,
    c3: int,
    c2: int,
    c1: int,
    v: u64,
)
    requires
        s0.wf(),
        s1.wf(),
        vpn < VPN_LIMIT,
        v < VPN_LIMIT,
        v != vpn,
        dir_child(s0.l4_seq()[l4_index(vpn)]) == c3,
        0 <= c3 < s0.l3_seq().len() / 512,
        dir_child(s0.l3_seq()[c3 * 512 + l3_index(vpn)]) == c2,
        0 <= c2 < s0.l2_seq().len() / 512,
        dir_child(s0.l2_seq()[c2 * 512 + l2_index(vpn)]) == c1,
        0 <= c1 < s0.l1_seq().len() / 512,
        s1.l4_seq() == s0.l4_seq(),
        s1.l3_seq() == s0.l3_seq(),
        s1.l2_seq() == s0.l2_seq(),
        s1.l1_seq().len() == s0.l1_seq().len(),
        forall|k: int|
            0 <= k < s0.l1_seq().len() && k != c1 * 512 + l1_index(vpn) ==> s1.l1_seq()[k]
                == s0.l1_seq()[k],
    ensures
        s1.spec_walk(v) == s0.spec_walk(v),
{
    let j4 = l4_index(v);
    let d3 = dir_child(s0.l4_seq()[j4]);
    if 0 <= d3 {
        assert(d3 < s0.l3_seq().len() / 512);
        lemma_slot_in_bounds(s0.l3_seq().len() as int, d3, l3_index(v));
        let d2 = dir_child(s0.l3_seq()[d3 * 512 + l3_index(v)]);
        if 0 <= d2 {
            assert(d2 < s0.l2_seq().len() / 512);
            lemma_slot_in_bounds(s0.l2_seq().len() as int, d2, l2_index(v));
            let d1 = dir_child(s0.l2_seq()[d2 * 512 + l2_index(v)]);
            if 0 <= d1 {
                assert(d1 < s0.l1_seq().len() / 512);
                lemma_slot_in_bounds(s0.l1_seq().len() as int, d1, l1_index(v));
                let kv = d1 * 512 + l1_index(v);
                let k1 = c1 * 512 + l1_index(vpn);
                if kv == k1 {
                    // Same leaf cell: climb back up with injectivity.
                    assert(d1 == c1 && l1_index(v) == l1_index(vpn));
                    lemma_slot_in_bounds(s0.l2_seq().len() as int, c2, l2_index(vpn));
                    assert(d2 * 512 + l2_index(v) == c2 * 512 + l2_index(vpn)) by {
                        assert(dir_child(s0.l2_seq()[d2 * 512 + l2_index(v)]) == dir_child(
                            s0.l2_seq()[c2 * 512 + l2_index(vpn)],
                        ));
                        assert(arena_injective(s0.l2_seq()));
                    }
                    assert(d2 == c2 && l2_index(v) == l2_index(vpn));
                    lemma_slot_in_bounds(s0.l3_seq().len() as int, c3, l3_index(vpn));
                    assert(d3 * 512 + l3_index(v) == c3 * 512 + l3_index(vpn)) by {
                        assert(dir_child(s0.l3_seq()[d3 * 512 + l3_index(v)]) == dir_child(
                            s0.l3_seq()[c3 * 512 + l3_index(vpn)],
                        ));
                        assert(arena_injective(s0.l3_seq()));
                    }
                    assert(d3 == c3 && l3_index(v) == l3_index(vpn));
                    assert(j4 == l4_index(vpn)) by {
                        assert(dir_child(s0.l4_seq()[j4]) == dir_child(
                            s0.l4_seq()[l4_index(vpn)],
                        ));
                        assert(arena_injective(s0.l4_seq()));
                    }
                    lemma_vpn_unique(v, vpn);
                    assert(false);
                } else {
                    assert(s1.l1_seq()[kv] == s0.l1_seq()[kv]);
                }
            }
        }
    }
}

/// `c` when the flag is set, zero otherwise.
pub open spec fn bit_if(b: bool, c: int) -> int {
    if b {
        c
    } else {
        0
    }
}

fn bit_val(b: bool, c: u64) -> (r: u64)
    ensures
        r == bit_if(b, c as int),
        r <= c,
{
    if b {
        c
    } else {
        0
    }
}

/// The flag bits of an x86_64 page-table entry word: PRESENT (bit 0),
/// WRITABLE (1), USER (2), WRITE_THROUGH (3), CACHE_DISABLE (4),
/// ACCESSED (5), DIRTY (6), HUGE (7), GLOBAL (8) and NO_EXECUTE (63).
pub open spec fn spec_flag_bits(flags: PteFlags) -> int {
    bit_if(flags.present, 1) + bit_if(flags.writable, 2) + bit_if(flags.user, 4) + bit_if(
        flags.write_through,
        8,
    ) + bit_if(flags.cache_disable, 16) + bit_if(flags.accessed, 32) + bit_if(flags.dirty, 64)
        + bit_if(flags.huge, 128) + bit_if(flags.global, 256) + bit_if(
        flags.no_execute,
        0x8000_0000_0000_0000,
    )
}

/// The hardware form of one entry: the flag bits over the 4 KiB-aligned
/// physical address of frame number `frame`. Address and flag bits occupy
/// disjoint bit ranges, so the sum is the bitwise word.
pub open spec fn spec_entry_word(frame: u64, flags: PteFlags) -> u64 {
    (frame * 4096 + spec_flag_bits(flags)) as u64
}

#[verifier::rlimit(100)]
pub fn entry_word(frame: u64, flags: PteFlags) -> (r: u64)
    requires
        frame < LEAF_FRAME_LIMIT,
    ensures
        r == spec_entry_word(frame, flags),
{
    let bits: u64 = bit_val(flags.present, 1) + bit_val(flags.writable, 2) + bit_val(
        flags.user,
        4,
    ) + bit_val(flags.write_through, 8) + bit_val(flags.cache_disable, 16) + bit_val(
        flags.accessed,
        32,
    ) + bit_val(flags.dirty, 64) + bit_val(flags.huge, 128) + bit_val(flags.global, 256) + bit_val(
        flags.no_execute,
        0x8000_0000_0000_0000,
    );
    frame * 4096 + bits
}

/// The word of a directory entry whose child tables sit on the frames from
/// `child_base` up, in arena order; a vacant slot is the zero word.
pub open spec fn spec_dir_word(e: DirEntry, child_base: int) -> u64 {
    match e {
        DirEntry::Vacant => 0,
        DirEntry::Table { child, flags } => spec_entry_word(((child_base + child) as u64), flags),
    }
}

/// The word of a leaf entry; a vacant slot is the zero word.
pub open spec fn spec_leaf_word(e: LeafEntry) -> u64 {
    match e {
        LeafEntry::Vacant => 0,
        LeafEntry::Mapped { frame, flags } => spec_entry_word(frame, flags),
    }
}

fn export_dir_block(
    out: &mut Vec<u64>,
    entries: &Vec<DirEntry>,
    child_base: u64,
    ghost_bound: Ghost<int>,
)
    requires
        forall|k: int|
            0 <= k < entries@.len() ==> dir_child(#[trigger] entries@[k]) < ghost_bound@,
        0 <= ghost_bound@,
        child_base + ghost_bound@ <= LEAF_FRAME_LIMIT,
    ensures
        final(out)@.len() == old(out)@.len() + entries@.len(),
        forall|j: int| 0 <= j < old(out)@.len() ==> final(out)@[j] == old(out)@[j],
        forall|k: int|
            0 <= k < entries@.len() ==> final(out)@[old(out)@.len() + k] == spec_dir_word(
                entries@[k],
                child_base as int,
            ),
{
    let mut k: usize = 0;
    while k < entries.len()
        invariant
            0 <= k <= entries@.len(),
            forall|t: int|
                0 <= t < entries@.len() ==> dir_child(#[trigger] entries@[t]) < ghost_bound@,
            0 <= ghost_bound@,
            child_base + ghost_bound@ <= LEAF_FRAME_LIMIT,
            out@.len() == old(out)@.len() + k,
            forall|j: int| 0 <= j < old(out)@.len() ==> out@[j] == old(out)@[j],
            forall|t: int|
                0 <= t < k ==> out@[old(out)@.len() + t] == spec_dir_word(
                    entries@[t],
                    child_base as int,
                ),
        decreases entries@.len() - k,
    {
        let w = match entries[k] {
            DirEntry::Vacant => 0u64,
            DirEntry::Table { child, flags } => {
                proof {
                    assert(dir_child(entries@[k as int]) < ghost_bound@);
                }
                entry_word(child_base + child as u64, flags)
            },
        };
        out.push(w);
        k += 1;
    }
}

impl PageTables {
    /// The hardware form of the whole structure, laid out on one contiguous
    /// run of frames: the root table on frame `base`, then every level-3,
    /// level-2 and level-1 table, in arena order, 512 words each. Word
    /// `t * 512 + s` of the output is the entry word of slot `s` of table
    /// `t`; each directory word points at its child table's frame, so the
    /// output written to those frames is exactly what the processor walks.
    pub fn export_words(&self, base: u64) -> (out: Vec<u64>)
        requires
            self.wf(),
            base + 1 + self.l3_seq().len() / 512 + self.l2_seq().len() / 512 + self.l1_seq().len()
                / 512 <= LEAF_FRAME_LIMIT,
        ensures
            out@.len() == 512 + self.l3_seq().len() + self.l2_seq().len() + self.l1_seq().len(),
            forall|k: int|
                0 <= k < 512 ==> out@[k] == spec_dir_word(self.l4_seq()[k], base + 1),
            forall|k: int|
                0 <= k < self.l3_seq().len() ==> out@[512 + k] == spec_dir_word(
                    self.l3_seq()[k],
                    base + 1 + self.l3_seq().len() / 512,
                ),
            forall|k: int|
                0 <= k < self.l2_seq().len() ==> out@[512 + self.l3_seq().len() + k]
                    == spec_dir_word(
                    self.l2_seq()[k],
                    base + 1 + self.l3_seq().len() / 512 + self.l2_seq().len() / 512,
                ),
            forall|k: int|
                0 <= k < self.l1_seq().len() ==> out@[512 + self.l3_seq().len()
                    + self.l2_seq().len() + k] == spec_leaf_word(self.l1_seq()[k]),
    {
        let n3 = self.l3.len() / 512;
        let n2 = self.l2.len() / 512;
        let off3 = base + 1;
        let off2 = off3 + n3 as u64;
        let off1 = off2 + n2 as u64;
        proof {
            vstd::arithmetic::div_mod::lemma_fundamental_div_mod(self.l3_seq().len() as int, 512);
            vstd::arithmetic::div_mod::lemma_fundamental_div_mod(self.l2_seq().len() as int, 512);
            vstd::arithmetic::div_mod::lemma_fundamental_div_mod(self.l1_seq().len() as int, 512);
        }
        let mut out: Vec<u64> = Vec::new();
        export_dir_block(&mut out, &self.l4, off3, Ghost(self.l3_seq().len() as int / 512));
        export_dir_block(&mut out, &self.l3, off2, Ghost(self.l2_seq().len() as int / 512));
        export_dir_block(&mut out, &self.l2, off1, Ghost(self.l1_seq().len() as int / 512));
        let ghost before_leaves = out@;
        let mut k: usize = 0;
        while k < self.l1.len()
            invariant
                0 <= k <= self.l1_seq().len(),
                self.wf(),
                out@.len() == before_leaves.len() + k,
                before_leaves.len() == 512 + self.l3_seq().len() + self.l2_seq().len(),
                forall|j: int| 0 <= j < before_leaves.len() ==> out@[j] == before_leaves[j],
                forall|t: int|
                    0 <= t < k ==> out@[before_leaves.len() + t] == spec_leaf_word(
                        self.l1_seq()[t],
                    ),
            decreases self.l1_seq().len() - k,
        {
            let w = match self.l1[k] {
                LeafEntry::Vacant => 0u64,
                LeafEntry::Mapped { frame, flags } => {
                    proof {
                        assert(leaf_frame_ok(self.l1_seq()[k as int]));
                    }
                    entry_word(frame, flags)
                },
            };
            out.push(w);
            k += 1;
        }
        out
    }

    /// The export over a checked frame run: `None` exactly when the tables
    /// would not fit the physical range above `base`.
    pub fn export_checked(&self, base: u64) -> (r: Option<Vec<u64>>)
        requires
            self.wf(),
        ensures
            (r is Some <==> base + 1 + self.l3_seq().len() / 512 + self.l2_seq().len() / 512
                + self.l1_seq().len() / 512 <= LEAF_FRAME_LIMIT),
            match r {
                None => true,
                Some(out) => {
                    &&& out@.len() == 512 + self.l3_seq().len() + self.l2_seq().len()
                        + self.l1_seq().len()
                    &&& (forall|k: int|
                        0 <= k < 512 ==> out@[k] == spec_dir_word(self.l4_seq()[k], base + 1))
                    &&& (forall|k: int|
                        0 <= k < self.l3_seq().len() ==> out@[512 + k] == spec_dir_word(
                            self.l3_seq()[k],
                            base + 1 + self.l3_seq().len() / 512,
                        ))
                    &&& (forall|k: int|
                        0 <= k < self.l2_seq().len() ==> out@[512 + self.l3_seq().len() + k]
                            == spec_dir_word(
                            self.l2_seq()[k],
                            base + 1 + self.l3_seq().len() / 512 + self.l2_seq().len() / 512,
                        ))
                    &&& (forall|k: int|
                        0 <= k < self.l1_seq().len() ==> out@[512 + self.l3_seq().len()
                            + self.l2_seq().len() + k] == spec_leaf_word(self.l1_seq()[k]))
                },
            },
    {
        if base >= LEAF_FRAME_LIMIT {
            return None;
        }
        let n3 = (self.l3.len() / 512) as u64;
        let n2 = (self.l2.len() / 512) as u64;
        let n1 = (self.l1.len() / 512) as u64;
        if n3 > LEAF_FRAME_LIMIT || n2 > LEAF_FRAME_LIMIT || n1 > LEAF_FRAME_LIMIT {
            return None;
        }
        if base + 1 + n3 + n2 + n1 > LEAF_FRAME_LIMIT {
            return None;
        }
        Some(self.export_words(base))
    }
}


} // verus!
