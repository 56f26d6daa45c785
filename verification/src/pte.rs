//! Page-table entry flags.

use vstd::prelude::*;

verus! {

/// The attribute set of a page-table entry.
#[derive(Clone, Copy, Debug, PartialEq, Eq, Structural)]
pub struct PteFlags {
    pub present: bool,
    pub writable: bool,
    pub user: bool,
    pub write_through: bool,
    pub cache_disable: bool,
    pub accessed: bool,
    pub dirty: bool,
    pub huge: bool,
    pub global: bool,
    pub no_execute: bool,
}

impl PteFlags {
    pub open spec fn spec_empty() -> Self {
        PteFlags {
            present: false,
            writable: false,
            user: false,
            write_through: false,
            cache_disable: false,
            accessed: false,
            dirty: false,
            huge: false,
            global: false,
            no_execute: false,
        }
    }

    /// PRESENT alone: read and execute.
    pub open spec fn spec_present() -> Self {
        PteFlags { present: true, ..Self::spec_empty() }
    }

    /// PRESENT | WRITABLE.
    pub open spec fn spec_present_writable() -> Self {
        PteFlags { present: true, writable: true, ..Self::spec_empty() }
    }

    pub fn empty() -> (r: Self)
        ensures
            r == Self::spec_empty(),
    {
        PteFlags {
            present: false,
            writable: false,
            user: false,
            write_through: false,
            cache_disable: false,
            accessed: false,
            dirty: false,
            huge: false,
            global: false,
            no_execute: false,
        }
    }

    pub fn present() -> (r: Self)
        ensures
            r == Self::spec_present(),
    {
        PteFlags { present: true, ..Self::empty() }
    }

    pub fn present_writable() -> (r: Self)
        ensures
            r == Self::spec_present_writable(),
    {
        PteFlags { present: true, writable: true, ..Self::empty() }
    }

    /// Union of two flag sets.
    pub open spec fn spec_or(self, other: Self) -> Self {
        PteFlags {
            present: self.present || other.present,
            writable: self.writable || other.writable,
            user: self.user || other.user,
            write_through: self.write_through || other.write_through,
            cache_disable: self.cache_disable || other.cache_disable,
            accessed: self.accessed || other.accessed,
            dirty: self.dirty || other.dirty,
            huge: self.huge || other.huge,
            global: self.global || other.global,
            no_execute: self.no_execute || other.no_execute,
        }
    }

    pub fn or(self, other: Self) -> (r: Self)
        ensures
            r == self.spec_or(other),
    {
        PteFlags {
            present: self.present || other.present,
            writable: self.writable || other.writable,
            user: self.user || other.user,
            write_through: self.write_through || other.write_through,
            cache_disable: self.cache_disable || other.cache_disable,
            accessed: self.accessed || other.accessed,
            dirty: self.dirty || other.dirty,
            huge: self.huge || other.huge,
            global: self.global || other.global,
            no_execute: self.no_execute || other.no_execute,
        }
    }

    /// Flags for a loaded kernel segment, from its ELF writable and
    /// executable permission bits.
    pub open spec fn spec_segment_flags(writable: bool, executable: bool) -> Self {
        PteFlags { present: true, writable, no_execute: !executable, ..Self::spec_empty() }
    }

    pub fn for_segment(writable: bool, executable: bool) -> (r: Self)
        ensures
            r == Self::spec_segment_flags(writable, executable),
    {
        PteFlags { present: true, writable, no_execute: !executable, ..Self::empty() }
    }
}

} // verus!
