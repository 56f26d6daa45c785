use uefi_bootloader::addr::{Frame, Page, PhysicalAddress, VirtualAddress};
use uefi_bootloader::boot_info::{create_boot_info, finish_boot_info};
use uefi_bootloader::codec::{
    get_boot_information, get_regions, get_u64, put_boot_information, put_regions, put_u64,
    write_and_read_regions_round_trip,
};
use uefi_bootloader::error::BootError;
use uefi_bootloader::frame_buffer::{
    build_frame_buffer, classify_pixel_format, frame_buffer_for_kernel,
    unsupported_pixel_format_message, FrameBuffer, FrameBufferInfo, GraphicsMode, PixelFormat,
};
use uefi_bootloader::codec::{get_elf_section, get_module, put_elf_section, put_module};
use uefi_bootloader::kernel::{make_elf_section, map_kernel_segment};
use uefi_bootloader::layout::compute_layout;
use uefi_bootloader::mappings::{map_framebuffer, map_stack, set_up_mappings, STACK_SIZE};
use uefi_bootloader::memory::{FrameRange, Memory};
use uefi_bootloader::modules::make_module;
use uefi_bootloader::pte::PteFlags;
use uefi_bootloader::regions::{
    check_region_capacity, consolidate_regions, MemoryDescriptor, MemoryDescriptorConsolidator,
    MemoryRegion, MemoryRegionKind,
};
use uefi_bootloader::rsdp::{get_rsdp_address, ConfigTableEntry, ACPI2_GUID, ACPI_GUID};

const HEAP_BASE: u64 = 0xFFFF_9000_0000_0000;

fn fresh_memory(pool_start: u64, pool_count: u64) -> Memory {
    Memory::new(
        Frame::from_number(1),
        vec![FrameRange { start: pool_start, count: pool_count }],
        VirtualAddress::new_canonical(HEAP_BASE),
    )
}

#[test]
fn canonicalization_sign_extends_bit_47() {
    assert_eq!(
        VirtualAddress::new_canonical(0x0000_8000_0000_0000).value(),
        0xFFFF_8000_0000_0000
    );
    assert_eq!(VirtualAddress::new_canonical(0x1234).value(), 0x1234);
    assert_eq!(
        VirtualAddress::new_canonical(0xFFFF_8000_0000_1000).value(),
        0xFFFF_8000_0000_1000
    );
}

#[test]
fn containing_page_brackets_address() {
    let x = 0xFFFF_8000_0000_1234;
    let page = Page::containing_address(VirtualAddress::new_canonical(x));
    assert_eq!(page.start_address().value(), 0xFFFF_8000_0000_1000);
    assert!(page.start_address().value() <= x);
    assert!(x < page.plus(1).start_address().value());

    let low = 0x7FFF_FFFF;
    let page = Page::containing_address(VirtualAddress::new_canonical(low));
    assert!(page.start_address().value() <= low);
    assert!(low < page.plus(1).start_address().value());
}

#[test]
fn frame_of_physical_address_rounds_down() {
    let f = Frame::containing_address(PhysicalAddress::new(0x10_0FFF));
    assert_eq!(f.start_address().value(), 0x10_0000);
    assert_eq!(f.number(), 0x100);
}

#[test]
fn map_then_lookup_walks_to_the_frame() {
    let mut memory = fresh_memory(0x100, 16);
    let page = Page::containing_address(VirtualAddress::new_canonical(HEAP_BASE - 0x2000));
    let frame = Frame::from_number(0x4444);
    // the target page lies below the bump pointer, as the mapper requires
    assert!(memory.map(page, frame, PteFlags::present_writable()).is_ok());
    let walked = memory.lookup(page);
    assert_eq!(walked, Some((0x4444, PteFlags::present_writable())));
    // remapping the same page to a different frame is refused
    assert!(memory.map(page, Frame::from_number(0x5555), PteFlags::present()).is_err());
    // a fresh walk of an untouched page finds nothing
    let other = Page::containing_address(VirtualAddress::new_canonical(HEAP_BASE - 0x3000));
    assert_eq!(memory.lookup(other), None);
}

#[test]
fn allocate_frame_hands_out_distinct_frames() {
    let mut memory = fresh_memory(0x200, 3);
    let a = memory.allocate_frame().unwrap().number();
    let b = memory.allocate_frame().unwrap().number();
    let c = memory.allocate_frame().unwrap().number();
    assert!(a != b && b != c && a != c);
    assert!(memory.allocate_frame().is_none());
}

#[test]
fn stack_has_one_guard_page_below_first_mapped_page() {
    let mut memory = fresh_memory(0x300, 32);
    let top = map_stack(&mut memory, STACK_SIZE).unwrap();
    assert_eq!(top.value(), HEAP_BASE + STACK_SIZE);
    let guard = Page::containing_address(VirtualAddress::new_canonical(HEAP_BASE));
    assert_eq!(memory.lookup(guard), None);
    for i in 1..18 {
        let mapped = memory.lookup(guard.plus(i));
        assert!(mapped.is_some());
        assert_eq!(mapped.unwrap().1, PteFlags::present_writable());
    }
    // distinct stack pages sit on distinct frames
    let f1 = memory.lookup(guard.plus(1)).unwrap().0;
    let f17 = memory.lookup(guard.plus(17)).unwrap().0;
    assert_ne!(f1, f17);
}

#[test]
fn stack_size_rounds_up_and_one_page_is_fatal() {
    // one byte more than a page rounds up to two pages: guard plus one frame
    let mut memory = fresh_memory(0x400, 4);
    let top = map_stack(&mut memory, 4097).unwrap();
    assert_eq!(top.value(), HEAP_BASE + 2 * 4096);
    // a stack that rounds up to a single page maps no usable frame at all
    let mut memory = fresh_memory(0x400, 4);
    assert_eq!(map_stack(&mut memory, 4096), Err(BootError::StackTooSmall));
    assert_eq!(map_stack(&mut memory, 1), Err(BootError::StackTooSmall));
    // an exhausted pool is fatal too
    let mut memory = fresh_memory(0x400, 4);
    assert_eq!(map_stack(&mut memory, STACK_SIZE), Err(BootError::OutOfFrames));
}

#[test]
fn framebuffer_within_one_page_maps_one_page() {
    let mut memory = fresh_memory(0x500, 4);
    let va = map_framebuffer(&mut memory, 0x8000_0000, 100);
    assert_eq!(va.value(), HEAP_BASE);
    let first = Page::containing_address(va);
    assert_eq!(memory.lookup(first), Some((0x8_0000, PteFlags::present_writable())));
    assert_eq!(memory.lookup(first.plus(1)), None);
}

#[test]
fn framebuffer_pages_follow_its_frames() {
    let mut memory = fresh_memory(0x500, 4);
    let va = map_framebuffer(&mut memory, 0x8000_0000, 3 * 4096 + 5);
    let first = Page::containing_address(va);
    for k in 0..4 {
        assert_eq!(
            memory.lookup(first.plus(k)),
            Some((0x8_0000 + k, PteFlags::present_writable()))
        );
    }
    assert_eq!(memory.lookup(first.plus(4)), None);
}

#[test]
fn mappings_cover_stack_trampoline_and_framebuffer() {
    let mut memory = fresh_memory(0x600, 64);
    let fb = FrameBuffer {
        start: 0x8000_0000,
        info: FrameBufferInfo {
            size: 2 * 4096,
            width: 640,
            height: 480,
            pixel_format: PixelFormat::Rgb,
            bytes_per_pixel: 4,
            stride: 640,
        },
    };
    let trampoline = PhysicalAddress::new(0x10_0000);
    let mappings = set_up_mappings(&mut memory, &Some(fb), trampoline).unwrap();
    assert_eq!(mappings.stack_top.value(), HEAP_BASE + STACK_SIZE);

    // guard page unmapped, the eighteen-page region above it mapped
    let guard = Page::containing_address(VirtualAddress::new_canonical(HEAP_BASE));
    assert_eq!(memory.lookup(guard), None);
    assert!(memory.lookup(guard.plus(1)).is_some());
    assert!(memory.lookup(guard.plus(17)).is_some());

    // trampoline page identity-mapped, read-execute
    let tramp_page = Page::containing_address(VirtualAddress::new_canonical(0x10_0000));
    assert_eq!(memory.lookup(tramp_page), Some((0x100, PteFlags::present())));

    // framebuffer remapped right above the stack
    let fb_va = mappings.frame_buffer.unwrap();
    assert_eq!(fb_va.value(), HEAP_BASE + STACK_SIZE);
    let fb_page = Page::containing_address(fb_va);
    assert_eq!(memory.lookup(fb_page), Some((0x8_0000, PteFlags::present_writable())));
    assert_eq!(memory.lookup(fb_page.plus(1)), Some((0x8_0001, PteFlags::present_writable())));
}

#[test]
fn absent_framebuffer_still_builds_mappings() {
    let mut memory = fresh_memory(0x700, 32);
    let mappings = set_up_mappings(&mut memory, &None, PhysicalAddress::new(0x10_0000)).unwrap();
    assert!(mappings.frame_buffer.is_none());
    assert_eq!(mappings.stack_top.value(), HEAP_BASE + STACK_SIZE);
}

#[test]
fn pixel_format_classification() {
    assert_eq!(classify_pixel_format(0), Some(PixelFormat::Rgb));
    assert_eq!(classify_pixel_format(1), Some(PixelFormat::Bgr));
    assert_eq!(classify_pixel_format(2), None);
    assert_eq!(classify_pixel_format(3), None);
    assert_eq!(
        unsupported_pixel_format_message(),
        "Bitmask and BltOnly framebuffers are not supported"
    );
}

#[test]
fn blt_only_graphics_mode_is_rejected() {
    let mode = GraphicsMode { size: 4096, width: 64, height: 16, stride: 64, pixel_format_tag: 3 };
    assert!(build_frame_buffer(0x8000_0000, mode).is_none());
    let mode = GraphicsMode { size: 4096, width: 64, height: 16, stride: 64, pixel_format_tag: 1 };
    let fb = build_frame_buffer(0x8000_0000, mode).unwrap();
    assert_eq!(fb.info.pixel_format, PixelFormat::Bgr);
    assert_eq!(fb.info.bytes_per_pixel, 4);
}

#[test]
fn rsdp_prefers_acpi2_and_falls_back() {
    let entries = vec![
        ConfigTableEntry { guid: 0xdead, address: 1 },
        ConfigTableEntry { guid: ACPI_GUID, address: 0x9000 },
        ConfigTableEntry { guid: ACPI2_GUID, address: 0xA000 },
    ];
    assert_eq!(get_rsdp_address(&entries), Some(0xA000));
    let entries = vec![
        ConfigTableEntry { guid: 0xdead, address: 1 },
        ConfigTableEntry { guid: ACPI_GUID, address: 0x9000 },
    ];
    assert_eq!(get_rsdp_address(&entries), Some(0x9000));
    let entries = vec![ConfigTableEntry { guid: 0xdead, address: 1 }];
    assert_eq!(get_rsdp_address(&entries), None);
}

#[test]
fn module_names_pad_and_overlong_names_fail() {
    let m = make_module(&b"init".to_vec(), 0x20_0000, 4096).unwrap();
    assert_eq!(&m.name[..4], b"init");
    assert!(m.name[4..].iter().all(|&b| b == 0));
    assert_eq!(m.name.len(), 64);
    assert_eq!(m.start, 0x20_0000);
    assert_eq!(m.len, 4096);
    let long = vec![b'a'; 65];
    assert_eq!(make_module(&long, 0, 0), Err(BootError::NameTooLong));
}

#[test]
fn module_directory_of_two_files() {
    // a directory holding "init" (4 KiB) and "fs.img" (65 KiB)
    let init = make_module(&b"init".to_vec(), 0x20_0000, 4096).unwrap();
    let fs_img = make_module(&b"fs.img".to_vec(), 0x20_1000, 66560).unwrap();
    let modules = vec![init, fs_img];
    assert_eq!(modules.len(), 2);
    assert_eq!(&modules[0].name[..4], b"init");
    assert_eq!(&modules[1].name[..6], b"fs.img");
    assert!(modules[0].start % 4096 == 0 && modules[1].start % 4096 == 0);
    assert_eq!(modules[0].len, 4096);
    assert_eq!(modules[1].len, 66560);
    let layout = compute_layout(8, 2, 0).unwrap();
    assert_eq!(layout.elf_sections_offset - layout.modules_offset, 2 * 80);
}

#[test]
fn consolidator_merges_adjacent_conventional_memory() {
    // two adjacent conventional descriptors become one usable region
    let consolidator = MemoryDescriptorConsolidator::new(vec![
        MemoryDescriptor { phys_start: 0x10_0000, page_count: 0x10, ty: 7 },
        MemoryDescriptor { phys_start: 0x11_0000, page_count: 0x20, ty: 7 },
    ]);
    let out = consolidator.consolidate();
    assert_eq!(
        out,
        vec![MemoryRegion { start: 0x10_0000, len: 0x3_0000, kind: MemoryRegionKind::Usable }]
    );
}

#[test]
fn consolidator_keeps_distinct_kinds_apart() {
    // loader code then acpi-reclaim memory: usable and unknown, unmerged
    let consolidator = MemoryDescriptorConsolidator::new(vec![
        MemoryDescriptor { phys_start: 0x0, page_count: 0x8, ty: 1 },
        MemoryDescriptor { phys_start: 0x8000, page_count: 0x8, ty: 9 },
    ]);
    let out = consolidator.consolidate();
    assert_eq!(
        out,
        vec![
            MemoryRegion { start: 0x0, len: 0x8000, kind: MemoryRegionKind::Usable },
            MemoryRegion { start: 0x8000, len: 0x8000, kind: MemoryRegionKind::UnknownUefi(9) },
        ]
    );
}

#[test]
fn consolidation_is_idempotent_on_its_own_output() {
    let consolidator = MemoryDescriptorConsolidator::new(vec![
        MemoryDescriptor { phys_start: 0x0, page_count: 2, ty: 1 },
        MemoryDescriptor { phys_start: 0x2000, page_count: 2, ty: 2 },
        MemoryDescriptor { phys_start: 0x4000, page_count: 4, ty: 9 },
        MemoryDescriptor { phys_start: 0x8000, page_count: 1, ty: 9 },
        MemoryDescriptor { phys_start: 0x9000, page_count: 3, ty: 7 },
    ]);
    let once = consolidator.consolidate();
    let twice = consolidate_regions(&once);
    assert_eq!(once, twice);
}

#[test]
fn consolidated_map_covers_without_gaps() {
    let consolidator = MemoryDescriptorConsolidator::new(vec![
        MemoryDescriptor { phys_start: 0x0, page_count: 2, ty: 1 },
        MemoryDescriptor { phys_start: 0x2000, page_count: 2, ty: 2 },
        MemoryDescriptor { phys_start: 0x4000, page_count: 4, ty: 9 },
        MemoryDescriptor { phys_start: 0x8000, page_count: 8, ty: 7 },
    ]);
    let out = consolidator.consolidate();
    assert_eq!(out[0].start, 0);
    let last = &out[out.len() - 1];
    assert_eq!(last.start + last.len, 0x10000);
    for w in out.windows(2) {
        assert_eq!(w[0].start + w[0].len, w[1].start);
        assert_ne!(w[0].kind, w[1].kind);
    }
}

#[test]
fn boot_info_layout_offsets_are_aligned_and_nested() {
    let layout = compute_layout(10, 2, 3).unwrap();
    assert_eq!(layout.memory_regions_offset, 136);
    assert_eq!(layout.modules_offset, 136 + 10 * 24);
    assert_eq!(layout.elf_sections_offset, 136 + 10 * 24 + 2 * 80);
    assert_eq!(layout.size, 136 + 10 * 24 + 2 * 80 + 3 * 88);
    assert!(layout.memory_regions_offset % 8 == 0);
    assert!(layout.modules_offset % 8 == 0);
    assert!(layout.elf_sections_offset % 8 == 0);
    // every array's last byte stays inside the allocation
    assert!(layout.memory_regions_offset + 10 * 24 <= layout.size);
    assert!(layout.modules_offset + 2 * 80 <= layout.size);
    assert!(layout.elf_sections_offset + 3 * 88 <= layout.size);
}

#[test]
fn boot_info_allocation_is_mapped_contiguously() {
    let mut memory = fresh_memory(0x800, 64);
    let alloc = create_boot_info(&mut memory, 8, 1, 2).unwrap();
    assert_eq!(alloc.kernel_mappings.boot_info, HEAP_BASE);
    assert_eq!(alloc.size, 136 + 8 * 24 + 80 + 2 * 88);
    assert_eq!(alloc.physical_start % 4096, 0);
    // the triples land inside the mapped allocation (its pages round up)
    assert!(alloc.kernel_mappings.modules_offset + 80 <= alloc.size);
    assert!(alloc.kernel_mappings.elf_sections_offset + 2 * 88 <= alloc.size);
    let base_page = Page::containing_address(VirtualAddress::new_canonical(HEAP_BASE));
    let first = memory.lookup(base_page).unwrap();
    assert_eq!(first.0, alloc.physical_start / 4096);
    assert_eq!(first.1, PteFlags::present_writable());
}

#[test]
fn minimal_system_boot_flow() {
    // no framebuffer, no modules, a kernel of one read-execute segment and
    // one read-write segment
    let mut memory = fresh_memory(0x1000, 128);
    let entry = VirtualAddress::new_canonical(0xFFFF_8000_0000_0000);
    map_kernel_segment(&mut memory, entry, 2, false, true).unwrap();
    let data = VirtualAddress::new_canonical(0xFFFF_8000_0000_2000);
    map_kernel_segment(&mut memory, data, 1, true, false).unwrap();

    let text = make_elf_section(&b".text".to_vec(), entry.value(), 0x2000, 6).unwrap();
    let bss = make_elf_section(&b".bss".to_vec(), data.value(), 0x1000, 3).unwrap();
    let sections = vec![text, bss];

    let rsdp = get_rsdp_address(&vec![ConfigTableEntry { guid: ACPI2_GUID, address: 0xE0000 }]);
    assert!(rsdp.is_some());

    let mappings = set_up_mappings(&mut memory, &None, PhysicalAddress::new(0x10_0000)).unwrap();
    let alloc = create_boot_info(&mut memory, 8, 0, sections.len() as u64).unwrap();
    let layout = compute_layout(8, 0, sections.len() as u64).unwrap();
    let info = finish_boot_info(layout, None, rsdp, 8, 0, sections.len() as u64);

    assert!(info.frame_buffer.is_none());
    assert_eq!(info.modules_len, 0);
    assert_eq!(info.elf_sections_len, 2);
    assert_eq!(info.rsdp_address, Some(0xE0000));
    assert_eq!(alloc.kernel_mappings.modules_offset, info.modules_offset);

    // the context switch lands on the first segment: its page is mapped
    // present and executable under the fresh table
    let entry_page = Page::containing_address(entry);
    let walked = memory.lookup(entry_page).unwrap();
    assert!(walked.1.present);
    assert!(!walked.1.no_execute);
    assert!(mappings.stack_top.value() > HEAP_BASE);
}

#[test]
fn kernel_segment_remap_is_fatal() {
    let mut memory = fresh_memory(0x1000, 16);
    let seg = VirtualAddress::new_canonical(0xFFFF_8000_0000_0000);
    map_kernel_segment(&mut memory, seg, 2, false, true).unwrap();
    assert_eq!(map_kernel_segment(&mut memory, seg, 1, true, false), Err(BootError::AlreadyMapped));
}

#[test]
fn layout_overflow_is_fatal() {
    assert_eq!(compute_layout(u64::MAX, 0, 0), Err(BootError::LayoutOverflow));
}

#[test]
fn boot_info_regions_array_reads_back_exactly() {
    let regions = vec![
        MemoryRegion { start: 0x0, len: 0x8000, kind: MemoryRegionKind::Usable },
        MemoryRegion { start: 0x8000, len: 0x8000, kind: MemoryRegionKind::UnknownUefi(9) },
        MemoryRegion { start: 0x10000, len: 0x1000, kind: MemoryRegionKind::BootloaderReserved },
        MemoryRegion { start: 0x11000, len: 0x2000, kind: MemoryRegionKind::KernelReserved },
    ];
    assert_eq!(write_and_read_regions_round_trip(&regions), regions);

    // and through a nonzero offset, as the kernel reads it
    let mut buf = vec![0xAB; 16];
    put_regions(&mut buf, &regions);
    assert_eq!(get_regions(&buf, 16, regions.len()), regions);
}

#[test]
fn le64_bytes_round_trip() {
    let mut buf = Vec::new();
    put_u64(&mut buf, 0x0123_4567_89AB_CDEF);
    assert_eq!(buf, vec![0xEF, 0xCD, 0xAB, 0x89, 0x67, 0x45, 0x23, 0x01]);
    assert_eq!(get_u64(&buf, 0), 0x0123_4567_89AB_CDEF);
}

#[test]
fn module_and_section_records_read_back_exactly() {
    let mut buf = vec![0x55; 8];
    let m = make_module(&b"fs.img".to_vec(), 0x20_1000, 66560).unwrap();
    put_module(&mut buf, &m);
    let back = get_module(&buf, 8);
    assert_eq!(back, m);

    let s = make_elf_section(&b".rodata".to_vec(), 0xFFFF_8000_0000_1000, 0x800, 2).unwrap();
    let mut buf = Vec::new();
    put_elf_section(&mut buf, &s);
    assert_eq!(get_elf_section(&buf, 0), s);
    assert_eq!(buf.len(), 88);
}

#[test]
fn region_capacity_guard_is_exact() {
    let regions = vec![
        MemoryRegion { start: 0, len: 0x1000, kind: MemoryRegionKind::Usable },
        MemoryRegion { start: 0x1000, len: 0x1000, kind: MemoryRegionKind::UnknownUefi(9) },
    ];
    assert!(check_region_capacity(&regions, 2).is_ok());
    assert!(check_region_capacity(&regions, 3).is_ok());
    assert_eq!(check_region_capacity(&regions, 1), Err(BootError::TooManyRegions));
}

#[test]
fn kernel_header_carries_remapped_framebuffer_start() {
    let mut memory = fresh_memory(0x900, 64);
    let fb = FrameBuffer {
        start: 0x8000_0000,
        info: FrameBufferInfo {
            size: 4096,
            width: 32,
            height: 32,
            pixel_format: PixelFormat::Bgr,
            bytes_per_pixel: 4,
            stride: 32,
        },
    };
    let mappings =
        set_up_mappings(&mut memory, &Some(fb), PhysicalAddress::new(0x10_0000)).unwrap();
    let kernel_fb = frame_buffer_for_kernel(&Some(fb), &mappings.frame_buffer).unwrap();
    assert_eq!(kernel_fb.start, HEAP_BASE + STACK_SIZE);
    assert_ne!(kernel_fb.start, fb.start);
    assert_eq!(kernel_fb.info, fb.info);
    assert_eq!(frame_buffer_for_kernel(&None, &None), None);
}

#[test]
fn stack_frames_are_fresh_across_calls() {
    // kernel segments first, then the stack: no frame is reused
    let mut memory = fresh_memory(0x1000, 64);
    let seg = VirtualAddress::new_canonical(0xFFFF_8000_0000_0000);
    map_kernel_segment(&mut memory, seg, 2, false, true).unwrap();
    let seg_page = Page::containing_address(seg);
    let seg_frames = [
        memory.lookup(seg_page).unwrap().0,
        memory.lookup(seg_page.plus(1)).unwrap().0,
    ];
    set_up_mappings(&mut memory, &None, PhysicalAddress::new(0x10_0000)).unwrap();
    let guard = Page::containing_address(VirtualAddress::new_canonical(HEAP_BASE));
    for i in 1..18 {
        let f = memory.lookup(guard.plus(i)).unwrap().0;
        assert!(!seg_frames.contains(&f));
    }
}

#[test]
fn boot_information_header_reads_back_exactly() {
    let fb = FrameBuffer {
        start: 0xFFFF_9000_0001_2000,
        info: FrameBufferInfo {
            size: 0x1D_4000,
            width: 640,
            height: 480,
            pixel_format: PixelFormat::Bgr,
            bytes_per_pixel: 4,
            stride: 640,
        },
    };
    let layout = compute_layout(8, 1, 2).unwrap();
    let info = finish_boot_info(layout, Some(fb), Some(0xE_0000), 3, 1, 2);
    let mut buf = vec![0x7Fu8; 4];
    put_boot_information(&mut buf, &info);
    assert_eq!(buf.len(), 4 + 136);
    assert_eq!(get_boot_information(&buf, 4), info);

    // and a header with both options absent
    let bare = finish_boot_info(layout, None, None, 3, 0, 0);
    let mut buf = Vec::new();
    put_boot_information(&mut buf, &bare);
    assert_eq!(get_boot_information(&buf, 0), bare);
}

#[test]
fn exported_words_are_the_hardware_walk() {
    let mut memory = fresh_memory(0x100, 16);
    let addr = HEAP_BASE - 0x2000;
    let page = Page::containing_address(VirtualAddress::new_canonical(addr));
    let frame = Frame::from_number(0x4444);
    memory.map(page, frame, PteFlags::present_writable()).unwrap();

    let base = 0x9000u64;
    let words = memory.export_page_table(Frame::from_number(base)).unwrap();
    // one table per level was allocated for the single mapping
    assert_eq!(words.len(), 4 * 512);

    let vpn = (addr % (1u64 << 48)) / 4096;
    let (i4, i3, i2, i1) = (
        (vpn >> 27) & 511,
        (vpn >> 18) & 511,
        (vpn >> 9) & 511,
        vpn & 511,
    );
    // each directory word: child table's physical address, PRESENT|WRITABLE
    assert_eq!(words[i4 as usize], (base + 1) * 4096 + 3);
    assert_eq!(words[512 + i3 as usize], (base + 2) * 4096 + 3);
    assert_eq!(words[2 * 512 + i2 as usize], (base + 3) * 4096 + 3);
    // the leaf word: the mapped frame's address, PRESENT|WRITABLE
    assert_eq!(words[3 * 512 + i1 as usize], 0x4444 * 4096 + 3);
    // every other slot is vacant
    for s in 0..512usize {
        if s as u64 != i4 {
            assert_eq!(words[s], 0);
        }
        if s as u64 != i1 {
            assert_eq!(words[3 * 512 + s], 0);
        }
    }
}
