use yaros::config::{CONTEXT, PAGE_SIZE};
use yaros::context::{Context, SPP, get_context};
use yaros::mm::address::{VirtAddr, VirtPageNum};
use yaros::mm::kernel::KernelLayout;
use yaros::mm::memory::PhysMemory;
use yaros::mm::set::{MapArea, MapPermission, MapType, MemorySet};

fn rw() -> MapPermission {
    MapPermission::R().union(MapPermission::W())
}

#[test]
fn identical_area_maps_pages_to_themselves() {
    let mut mem = PhysMemory::new(0x80400, 0x80500);
    let mut set = MemorySet::new(&mut mem);
    let area = MapArea::new(VirtAddr(0x80200000), VirtAddr(0x80202001), MapType::Identical, rw());
    set.push(area, None, &mut mem);
    for vpn in 0x80200..0x80203 {
        let e = set.table.translate(&mem, VirtPageNum(vpn)).unwrap();
        assert!(e.is_valid());
        assert_eq!(e.ppn().value(), vpn);
        assert_eq!(e.flags().bits(), 0b111);
    }
    assert!(!set.table.translate(&mem, VirtPageNum(0x80203)).unwrap().is_valid());
}

#[test]
fn alloc_area_holds_its_data_zero_padded() {
    let mut mem = PhysMemory::new(0x80400, 0x80500);
    let mut set = MemorySet::new(&mut mem);
    let area = MapArea::new(VirtAddr(0x10000), VirtAddr(0x12000), MapType::Alloc, rw());
    let data: Vec<u8> = (0..5000u32).map(|i| (i % 251) as u8 + 1).collect();
    set.push(area, Some(&data), &mut mem);
    for (vpn, page) in [(0x10usize, 0usize), (0x11, 1)] {
        let ppn = set.table.translate(&mem, VirtPageNum(vpn)).unwrap().ppn();
        for off in [0usize, 1, 903, 4095] {
            let i = page * PAGE_SIZE + off;
            let expected = if i < data.len() { data[i] } else { 0 };
            assert_eq!(mem.read_byte(ppn, off), expected);
        }
    }
    assert_eq!(set.areas.len(), 1);
}

#[test]
fn satp_of_an_address_space_selects_sv39() {
    let mut mem = PhysMemory::new(0x80400, 0x80500);
    let set = MemorySet::new(&mut mem);
    assert_eq!(set.satp_bits(), (8u64 << 60) | 0x80400);
}

#[test]
fn init_context_sets_entry_stack_and_mode() {
    let cx = Context::init_context(SPP::Supervisor, 0x1000, 7, 0x2000, 9, 11, 13);
    assert_eq!(cx.sepc, 0x1000);
    assert_eq!(cx.sp, 0x2000);
    assert_eq!(cx.satp, 7);
    assert_eq!(cx.kernel_satp, 9);
    assert_eq!(cx.kernel_sp, 11);
    assert_eq!(cx.trap_handler, 13);
    assert_eq!(cx.sstatus, 1 << 8);
    assert_eq!(cx.spp, 1);
    assert_eq!(cx.a0, 0);
    let user = Context::init_context(SPP::User, 0x1000, 7, 0x2000, 9, 11, 13);
    assert_eq!(user.sstatus, 0);
    assert_eq!(user.spp, 0);
    let bytes = cx.to_bytes();
    assert_eq!(bytes.len(), 55 * 8);
    assert_eq!(bytes[33 * 8], 0x00);
    assert_eq!(bytes[33 * 8 + 1], 0x10);
}

#[test]
fn kernel_space_maps_its_image_and_reads_back_its_context() {
    let mut mem = PhysMemory::new(0x80700, 0x80800);
    let layout = KernelLayout {
        stext: 0x80200000,
        etext: 0x80201800,
        srodata: 0x80202000,
        erodata: 0x80202800,
        sdata: 0x80203000,
        edata: 0x80203100,
        sbss: 0x80204000,
        ebss: 0x80205000,
        ekernel: 0x807f0000,
    };
    let set = MemorySet::new_kernel(&mut mem, &layout, 0x80200abc);
    assert_eq!(set.areas.len(), 8);
    let text = set.table.translate(&mem, VirtPageNum(0x80201)).unwrap();
    assert!(text.is_valid() && text.executable() && !text.writable());
    assert_eq!(text.ppn().value(), 0x80201);
    let mmio = set.table.translate(&mem, VirtPageNum(0x10001)).unwrap();
    assert!(mmio.is_valid() && mmio.writable());
    assert!(!set.table.translate(&mem, VirtPageNum(0x80206)).unwrap().is_valid());
    let satp = set.satp_bits();
    let cx = get_context(&mem, satp);
    assert_eq!(cx.trap_handler, 0x80200abc);
    assert_eq!(cx.kernel_satp, satp as usize);
    assert_eq!(cx.sstatus, 1 << 8);
    assert_eq!(cx.sepc, 0);
    let sub = set.table.translate(&mem, VirtAddr(CONTEXT - PAGE_SIZE).floor()).unwrap();
    assert!(sub.is_valid());
}

#[test]
fn kernel_space_fits_in_the_pool_past_the_image() {
    let layout = KernelLayout {
        stext: 0x80200000,
        etext: 0x80201000,
        srodata: 0x80201000,
        erodata: 0x80202000,
        sdata: 0x80202000,
        edata: 0x80203000,
        sbss: 0x80203000,
        ebss: 0x80204000,
        ekernel: 0x80204000,
    };
    assert!(layout.check());
    let mut mem = PhysMemory::new(0x80204, 0x80800);
    let need = layout.frames_needed();
    assert!(need < 64);
    assert!(mem.has_free_frames(need));
    let set = MemorySet::new_kernel(&mut mem, &layout, 0x80200000);
    let free = set.table.translate(&mem, VirtPageNum(0x807ff)).unwrap();
    assert!(free.is_valid() && free.writable());
    assert_eq!(free.ppn().value(), 0x807ff);
}
