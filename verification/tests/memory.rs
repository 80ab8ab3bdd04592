use yaros::config::PAGE_SIZE;
use yaros::mm::address::{PhysAddr, PhysPageNum, VirtAddr, VirtPageNum};
use yaros::mm::memory::PhysMemory;
use yaros::mm::pte::{PTEFlags, PageTableEntry};
use yaros::mm::table::{Mode, PageTable};

fn rw() -> PTEFlags {
    PTEFlags::R().union(PTEFlags::W())
}

#[test]
fn frames_come_zeroed_and_are_reused_last_in_first_out() {
    let mut mem = PhysMemory::new(0x80400, 0x80410);
    let a = mem.frame_alloc().unwrap();
    let b = mem.frame_alloc().unwrap();
    assert_eq!(a.ppn().value(), 0x80400);
    assert_eq!(b.ppn().value(), 0x80401);
    mem.write_byte(a.ppn(), 5, 0xaa);
    assert_eq!(mem.read_byte(a.ppn(), 5), 0xaa);
    mem.frame_dealloc(a.ppn());
    let c = mem.frame_alloc().unwrap();
    assert_eq!(c.ppn().value(), 0x80400);
    assert_eq!(mem.read_byte(c.ppn(), 5), 0);
}

#[test]
fn pool_runs_out() {
    let mut mem = PhysMemory::new(0x80400, 0x80402);
    assert!(mem.frame_alloc().is_some());
    assert!(mem.frame_alloc().is_some());
    assert!(mem.frame_alloc().is_none());
    assert!(!mem.has_free_frames(1));
}

#[test]
fn write_bytes_fills_the_start_of_a_frame() {
    let mut mem = PhysMemory::new(0x80400, 0x80402);
    let f = mem.frame_alloc().unwrap();
    mem.write_bytes(f.ppn(), &[1, 2, 3]);
    assert_eq!(mem.read_byte(f.ppn(), 0), 1);
    assert_eq!(mem.read_byte(f.ppn(), 2), 3);
    assert_eq!(mem.read_byte(f.ppn(), 3), 0);
}

#[test]
fn pte_round_trip_and_flags() {
    let e = PageTableEntry::new(PhysPageNum(0x80123), rw().union(PTEFlags::V()));
    assert_eq!(e.ppn().value(), 0x80123);
    assert_eq!(e.flags().bits(), 0b111);
    assert!(e.is_valid());
    assert!(e.readable());
    assert!(e.writable());
    assert!(!e.executable());
    assert!(e.is_leaf());
    assert!(!e.is_node());
    let n = PageTableEntry::new(PhysPageNum(7), PTEFlags::V());
    assert!(n.is_node());
    assert!(!PageTableEntry::empty().is_valid());
}

#[test]
fn map_translate_unmap() {
    let mut mem = PhysMemory::new(0x80400, 0x80440);
    let mut t = PageTable::new(&mut mem);
    let vpn = VirtPageNum::new(0x12345);
    assert!(t.translate(&mem, vpn).is_none());
    t.map(&mut mem, vpn, PhysPageNum(0x80001), rw());
    let e = t.translate(&mem, vpn).unwrap();
    assert!(e.is_valid());
    assert_eq!(e.ppn().value(), 0x80001);
    assert_eq!(e.flags().bits(), 0b111);
    let pa = t.translate_va_to_pa(&mem, VirtAddr(0x12345 * PAGE_SIZE + 0x10)).unwrap();
    assert_eq!(pa.value(), 0x80001 * PAGE_SIZE + 0x10);
    t.unmap(&mut mem, vpn);
    let cleared = t.translate(&mem, vpn).unwrap();
    assert!(!cleared.is_valid());
    assert_eq!(cleared.bits, 0);
}

#[test]
fn satp_names_the_root_again() {
    let mut mem = PhysMemory::new(0x80400, 0x80440);
    let t = PageTable::new(&mut mem);
    let satp = t.satp_bits(Mode::Sv39);
    assert_eq!(satp >> 60, 8);
    assert_eq!(PageTable::from_satp(satp).root.value(), t.root.value());
    assert_eq!(PhysAddr(0x80400000).floor().value(), t.root.value());
}

#[test]
fn an_entry_keeps_its_flags_whatever_its_frame_number() {
    let f = PTEFlags::V().union(PTEFlags::R()).union(PTEFlags::U());
    for ppn in [0usize, 0x80400, (1usize << 44) - 1, 1usize << 44, usize::MAX] {
        let e = PageTableEntry::new(PhysPageNum(ppn), f);
        assert_eq!(e.flags().bits(), f.bits());
        assert!(e.is_valid() && e.readable() && !e.writable());
    }
    let e = PageTableEntry::new(PhysPageNum(1usize << 44 | 5), rw());
    assert_eq!(e.ppn().value(), 5);
    assert!(!e.is_valid());
}
