//! Locating the root system description pointer among the firmware
//! configuration-table entries.

use vstd::prelude::*;

verus! {

/// The ACPI 2.0 table identifier, as the 128-bit value of its GUID.
pub const ACPI2_GUID: u128 = 0x8868e871_e4f1_11d3_bc22_0080c73c8881;

/// The ACPI 1.0 table identifier.
pub const ACPI_GUID: u128 = 0xeb9d2d30_2d88_11d3_9a16_0090273fc14d;

/// One firmware configuration-table entry: its table GUID as a 128-bit
/// value and the table's physical address.
#[derive(Clone, Copy, Debug, PartialEq, Eq, Structural)]
pub struct ConfigTableEntry {
    pub guid: u128,
    pub address: u64,
}

/// The address of the first entry carrying `guid`.
pub open spec fn spec_find(s: Seq<ConfigTableEntry>, guid: u128) -> Option<u64>
    decreases s.len(),
{
    if s.len() == 0 {
        None
    } else if s[0].guid == guid {
        Some(s[0].address)
    } else {
        spec_find(s.drop_first(), guid)
    }
}

/// The root pointer to report: the first ACPI 2.0 entry, and only where
/// none exists, the first ACPI 1.0 entry.
pub open spec fn spec_rsdp(s: Seq<ConfigTableEntry>) -> Option<u64> {
    match spec_find(s, ACPI2_GUID) {
        Some(a) => Some(a),
        None => spec_find(s, ACPI_GUID),
    }
}

fn find_guid(entries: &Vec<ConfigTableEntry>, guid: u128) -> (r: Option<u64>)
    ensures
        r == spec_find(entries@, guid),
{
    let mut i: usize = 0;
    proof {
        assert(entries@.skip(0) =~= entries@);
    }
    while i < entries.len()
        invariant
            0 <= i <= entries@.len(),
            spec_find(entries@, guid) == spec_find(entries@.skip(i as int), guid),
        decreases entries@.len() - i,
    {
        if entries[i].guid == guid {
            proof {
                assert(entries@.skip(i as int)[0] == entries@[i as int]);
            }
            return Some(entries[i].address);
        }
        proof {
            assert(entries@.skip(i as int)[0] == entries@[i as int]);
            assert(entries@.skip(i as int).drop_first() =~= entries@.skip(i as int + 1));
        }
        i += 1;
    }
    proof {
        assert(entries@.skip(entries@.len() as int).len() == 0);
    }
    None
}

/// Searches the configuration table for the root system description
/// pointer, preferring the ACPI 2.0 table and falling back to ACPI 1.0.
/// Its absence is not an error: boot continues without it.
pub fn get_rsdp_address(entries: &Vec<ConfigTableEntry>) -> (r: Option<u64>)
    ensures
        r == spec_rsdp(entries@),
{
    proof {
        assert(entries@.skip(0) =~= entries@);
    }
    match find_guid(entries, ACPI2_GUID) {
        Some(a) => Some(a),
        None => find_guid(entries, ACPI_GUID),
    }
}

} // verus!
