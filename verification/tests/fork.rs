use yaros::config::{CONTEXT, PAGE_SIZE};
use yaros::context::get_context;
use yaros::mm::address::{VirtAddr, VirtPageNum};
use yaros::mm::loader::UserEnv;
use yaros::mm::memory::PhysMemory;
use yaros::mm::set::{MapArea, MapPermission, MapType, MemorySet};
use yaros::task::TaskUnit;

fn put16(b: &mut Vec<u8>, x: u16) {
    b.extend_from_slice(&x.to_le_bytes());
}
fn put32(b: &mut Vec<u8>, x: u32) {
    b.extend_from_slice(&x.to_le_bytes());
}
fn put64(b: &mut Vec<u8>, x: u64) {
    b.extend_from_slice(&x.to_le_bytes());
}

/// A 64-bit ELF file with one loadable, readable and executable segment of
/// 8 file bytes and 0x1800 memory bytes at 0x10000, entered at 0x10004.
fn sample_elf() -> Vec<u8> {
    let mut b: Vec<u8> = Vec::with_capacity(256);
    b.extend_from_slice(&[0x7f, b'E', b'L', b'F', 2, 1, 1, 0, 0, 0, 0, 0, 0, 0, 0, 0]);
    put16(&mut b, 2);
    put16(&mut b, 0xf3);
    put32(&mut b, 1);
    put64(&mut b, 0x10004);
    put64(&mut b, 64);
    put64(&mut b, 0);
    put32(&mut b, 0);
    put16(&mut b, 64);
    put16(&mut b, 56);
    put16(&mut b, 1);
    put16(&mut b, 0);
    put16(&mut b, 0);
    put16(&mut b, 0);
    put32(&mut b, 1);
    put32(&mut b, 5);
    put64(&mut b, 120);
    put64(&mut b, 0x10000);
    put64(&mut b, 0x10000);
    put64(&mut b, 8);
    put64(&mut b, 0x1800);
    put64(&mut b, 0x1000);
    b.extend_from_slice(&[1, 2, 3, 4, 5, 6, 7, 8]);
    b
}

fn env() -> UserEnv {
    UserEnv { sasm: 0x80201000, easm: 0x80202000, kernel_satp: 0x8000_0000_0008_0400, trap_handler: 0x80200000 }
}

fn rw() -> MapPermission {
    MapPermission::R().union(MapPermission::W())
}

#[test]
fn fork_copies_the_pages_into_fresh_frames() {
    let data = sample_elf();
    let mut mem = PhysMemory::new(0x80400, 0x80480);
    let parent = TaskUnit::new(&mut mem, &data, &env()).unwrap();
    assert!(parent.can_fork(&mem));
    let child = parent.fork(&mut mem);
    assert_ne!(child.satp, parent.satp);
    assert_eq!(child.satp, child.mem_set.satp_bits());
    let p = parent.mem_set.table.translate(&mem, VirtPageNum(0x10)).unwrap();
    let c = child.mem_set.table.translate(&mem, VirtPageNum(0x10)).unwrap();
    assert!(c.is_valid() && c.readable() && c.executable() && c.is_user_page());
    assert_ne!(c.ppn().value(), p.ppn().value());
    for off in 0..PAGE_SIZE {
        assert_eq!(mem.read_byte(c.ppn(), off), mem.read_byte(p.ppn(), off));
    }
    assert_eq!(mem.read_byte(c.ppn(), 3), 4);
    let tramp = child.mem_set.table.translate(&mem, VirtPageNum(0x80201)).unwrap();
    assert!(tramp.is_valid());
    assert_eq!(tramp.ppn().value(), 0x80201);
    assert!(!child.mem_set.table.translate(&mem, VirtPageNum(0x12)).unwrap().is_valid());
    assert_eq!(child.mem_set.areas.len(), parent.mem_set.areas.len());
}

#[test]
fn forked_context_returns_zero_in_the_child_space() {
    let data = sample_elf();
    let mut mem = PhysMemory::new(0x80400, 0x80480);
    let parent = TaskUnit::new(&mut mem, &data, &env()).unwrap();
    let before = get_context(&mem, parent.satp);
    let child = parent.fork(&mut mem);
    let cx = get_context(&mem, child.satp);
    assert_eq!(cx.a0, 0);
    assert_eq!(cx.satp, child.satp as usize);
    assert_eq!(cx.sepc, 0x10004);
    assert_eq!(cx.sp, before.sp);
    let after = get_context(&mem, parent.satp);
    assert_eq!(after.satp, parent.satp as usize);
    assert_eq!(after.sepc, before.sepc);
    assert_eq!(after.a0, before.a0);
}

#[test]
fn writes_to_the_child_leave_the_parent_alone() {
    let data = sample_elf();
    let mut mem = PhysMemory::new(0x80400, 0x80480);
    let parent = TaskUnit::new(&mut mem, &data, &env()).unwrap();
    let child = parent.fork(&mut mem);
    let c = child.mem_set.table.translate(&mem, VirtPageNum(0x10)).unwrap().ppn();
    let p = parent.mem_set.table.translate(&mem, VirtPageNum(0x10)).unwrap().ppn();
    mem.write_byte(c, 0, 0xaa);
    assert_eq!(mem.read_byte(c, 0), 0xaa);
    assert_eq!(mem.read_byte(p, 0), 1);
    let page = VirtAddr(CONTEXT).floor();
    let pc = parent.mem_set.table.translate(&mem, page).unwrap().ppn();
    let cc = child.mem_set.table.translate(&mem, page).unwrap().ppn();
    assert_ne!(pc.value(), cc.value());
}

#[test]
fn fork_is_refused_when_frames_run_short() {
    let data = sample_elf();
    let mut mem = PhysMemory::new(0x80400, 0x80418);
    let parent = TaskUnit::new(&mut mem, &data, &env()).unwrap();
    assert!(!parent.can_fork(&mem));
    assert!(!parent.mem_set.can_clone(&mem));
}

#[test]
fn clone_of_an_area_has_no_frames() {
    let area = MapArea::new(VirtAddr(0x10000), VirtAddr(0x12000), MapType::Alloc, rw());
    let copy = area.clone();
    assert_eq!(copy.range.get_start().0, 0x10);
    assert_eq!(copy.range.get_end().0, 0x12);
    assert!(copy.mtype == MapType::Alloc);
    assert_eq!(copy.permission.bits(), rw().bits());
    assert!(copy.allocated.is_empty());
}

#[test]
fn clone_maps_identical_areas_to_themselves_and_copies_the_others() {
    let mut mem = PhysMemory::new(0x80400, 0x80500);
    let mut set = MemorySet::new(&mut mem);
    let ident = MapArea::new(VirtAddr(0x80200000), VirtAddr(0x80202000), MapType::Identical, rw());
    set.push(ident, None, &mut mem);
    let alloc = MapArea::new(VirtAddr(0x10000), VirtAddr(0x12000), MapType::Alloc, rw());
    let bytes: Vec<u8> = (0..6000u32).map(|i| (i % 199) as u8 + 3).collect();
    set.push(alloc, Some(&bytes), &mut mem);
    assert!(set.can_clone(&mem));
    let copy = set.clone(&mut mem);
    for vpn in 0x80200..0x80202 {
        let e = copy.table.translate(&mem, VirtPageNum(vpn)).unwrap();
        assert!(e.is_valid());
        assert_eq!(e.ppn().value(), vpn);
    }
    for (vpn, page) in [(0x10usize, 0usize), (0x11, 1)] {
        let ppn = copy.table.translate(&mem, VirtPageNum(vpn)).unwrap().ppn();
        let orig = set.table.translate(&mem, VirtPageNum(vpn)).unwrap().ppn();
        assert_ne!(ppn.value(), orig.value());
        for off in [0usize, 17, 1903, 4095] {
            let i = page * PAGE_SIZE + off;
            let expected = if i < bytes.len() { bytes[i] } else { 0 };
            assert_eq!(mem.read_byte(ppn, off), expected);
        }
    }
    assert!(!copy.table.translate(&mem, VirtPageNum(0x12)).map_or(false, |e| e.is_valid()));
}

#[test]
fn overlapping_areas_cannot_be_copied() {
    let mut mem = PhysMemory::new(0x80400, 0x80500);
    let mut set = MemorySet::new(&mut mem);
    let alloc = MapArea::new(VirtAddr(0x10000), VirtAddr(0x12000), MapType::Alloc, rw());
    let twin = alloc.clone();
    set.push(alloc, None, &mut mem);
    assert!(set.can_clone(&mem));
    set.areas.push(twin);
    assert!(!set.can_clone(&mem));
}

#[test]
fn releasing_the_child_gives_its_frames_back() {
    let data = sample_elf();
    let mut mem = PhysMemory::new(0x80400, 0x80480);
    let parent = TaskUnit::new(&mut mem, &data, &env()).unwrap();
    let free_before = mem.recycled.len() + mem.end - mem.current;
    let child = parent.fork(&mut mem);
    let c = child.mem_set.table.translate(&mem, VirtPageNum(0x10)).unwrap().ppn();
    let root = child.mem_set.table.root;
    assert!(mem.is_allocated(c.value()) && mem.is_allocated(root.value()));
    assert!(mem.recycled.len() + mem.end - mem.current < free_before);
    child.mem_set.release(&mut mem);
    assert!(!mem.is_allocated(c.value()));
    assert!(!mem.is_allocated(root.value()));
    assert_eq!(mem.recycled.len() + mem.end - mem.current, free_before);
    let p = parent.mem_set.table.translate(&mem, VirtPageNum(0x10)).unwrap().ppn();
    assert!(mem.is_allocated(p.value()));
    assert_eq!(mem.read_byte(p, 0), 1);
}
