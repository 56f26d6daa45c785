//! Verified core of an x86_64 UEFI bootloader.
//!
//! The bootloader's job is to build a fresh four-level page table, load the
//! kernel and auxiliary modules, lay out a self-describing boot-information
//! record, consolidate the firmware memory map, and hand control to the
//! kernel. Everything here that decides or computes is verified; the thin
//! shell that talks to firmware, performs the raw memory writes and executes
//! the final context switch lives outside the library.

pub mod addr;
pub mod boot_info;
pub mod codec;
pub mod error;
pub mod frame_buffer;
pub mod kernel;
pub mod layout;
pub mod mappings;
pub mod memory;
pub mod modules;
pub mod page_table;
pub mod pte;
pub mod regions;
pub mod rsdp;
