//! Auxiliary boot modules: named binary blobs loaded into fresh frames.

use vstd::prelude::*;
use crate::error::BootError;

verus! {

/// Capacity of a module's name field, in bytes.
pub const MODULE_NAME_CAPACITY: usize = 64;

/// One loaded module: its file's base name, padded with zero bytes to the
/// fixed capacity, the physical address its bytes were loaded at, and its
/// length in bytes.
#[derive(Clone, Debug, PartialEq, Eq)]
pub struct Module {
    pub name: Vec<u8>,
    pub start: u64,
    pub len: u64,
}

pub open spec fn module_wf(m: Module) -> bool {
    m.name@.len() == MODULE_NAME_CAPACITY
}

/// A file name padded with zero bytes to the fixed capacity; a name longer
/// than the capacity is fatal.
pub fn pad_name(name: &Vec<u8>) -> (r: Result<Vec<u8>, BootError>)
    ensures
        (r is Ok <==> name@.len() <= MODULE_NAME_CAPACITY),
        match r {
            Err(e) => e == BootError::NameTooLong,
            Ok(p) => {
                &&& p@.len() == MODULE_NAME_CAPACITY
                &&& p@.subrange(0, name@.len() as int) == name@
                &&& (forall|i: int| name@.len() <= i < MODULE_NAME_CAPACITY ==> p@[i] == 0u8)
            },
        },
{
    if name.len() > MODULE_NAME_CAPACITY {
        return Err(BootError::NameTooLong);
    }
    let mut padded: Vec<u8> = Vec::new();
    let mut i: usize = 0;
    while i < name.len()
        invariant
            0 <= i <= name@.len(),
            name@.len() <= MODULE_NAME_CAPACITY,
            padded@ == name@.take(i as int),
        decreases name@.len() - i,
    {
        padded.push(name[i]);
        proof {
            assert(padded@ =~= name@.take(i as int + 1));
        }
        i += 1;
    }
    proof {
        assert(name@.take(name@.len() as int) =~= name@);
    }
    while padded.len() < MODULE_NAME_CAPACITY
        invariant
            name@.len() <= padded@.len() <= MODULE_NAME_CAPACITY,
            padded@.subrange(0, name@.len() as int) == name@,
            forall|j: int| name@.len() <= j < padded@.len() ==> padded@[j] == 0u8,
        decreases MODULE_NAME_CAPACITY - padded@.len(),
    {
        padded.push(0);
        proof {
            assert(padded@.subrange(0, name@.len() as int) =~= name@);
        }
    }
    Ok(padded)
}

/// Builds a module record: the name padded to the fixed capacity, and where
/// the module's bytes were loaded.
pub fn make_module(name: &Vec<u8>, start: u64, len: u64) -> (r: Result<Module, BootError>)
    ensures
        (r is Ok <==> name@.len() <= MODULE_NAME_CAPACITY),
        match r {
            Err(e) => e == BootError::NameTooLong,
            Ok(m) => {
                &&& module_wf(m)
                &&& m.name@.subrange(0, name@.len() as int) == name@
                &&& (forall|i: int| name@.len() <= i < MODULE_NAME_CAPACITY ==> m.name@[i] == 0u8)
                &&& m.start == start
                &&& m.len == len
            },
        },
{
    let padded = match pad_name(name) {
        Err(e) => {
            return Err(e);
        },
        Ok(p) => p,
    };
    Ok(Module { name: padded, start, len })
}

} // verus!
