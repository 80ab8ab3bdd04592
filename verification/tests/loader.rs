use yaros::context::{SPP, get_context};
use yaros::config::{CONTEXT, SUB_CONTEXT};
use yaros::mm::address::{VirtAddr, VirtPageNum};
use yaros::mm::loader::UserEnv;
use yaros::mm::memory::PhysMemory;
use yaros::mm::set::MemorySet;

fn put16(b: &mut Vec<u8>, x: u16) {
    b.extend_from_slice(&x.to_le_bytes());
}
fn put32(b: &mut Vec<u8>, x: u32) {
    b.extend_from_slice(&x.to_le_bytes());
}
fn put64(b: &mut Vec<u8>, x: u64) {
    b.extend_from_slice(&x.to_le_bytes());
}

/// A 64-bit ELF file with one loadable, readable and executable segment of
/// 8 file bytes and 0x1800 memory bytes at 0x10000, entered at 0x10004.
fn sample_elf() -> Vec<u8> {
    let mut b: Vec<u8> = Vec::with_capacity(256);
    b.extend_from_slice(&[0x7f, b'E', b'L', b'F', 2, 1, 1, 0, 0, 0, 0, 0, 0, 0, 0, 0]);
    put16(&mut b, 2);
    put16(&mut b, 0xf3);
    put32(&mut b, 1);
    put64(&mut b, 0x10004);
    put64(&mut b, 64);
    put64(&mut b, 0);
    put32(&mut b, 0);
    put16(&mut b, 64);
    put16(&mut b, 56);
    put16(&mut b, 1);
    put16(&mut b, 0);
    put16(&mut b, 0);
    put16(&mut b, 0);
    assert_eq!(b.len(), 64);
    put32(&mut b, 1);
    put32(&mut b, 5);
    put64(&mut b, 120);
    put64(&mut b, 0x10000);
    put64(&mut b, 0x10000);
    put64(&mut b, 8);
    put64(&mut b, 0x1800);
    put64(&mut b, 0x1000);
    assert_eq!(b.len(), 120);
    b.extend_from_slice(&[1, 2, 3, 4, 5, 6, 7, 8]);
    b
}

fn env() -> UserEnv {
    UserEnv { sasm: 0x80201000, easm: 0x80202000, kernel_satp: 0x8000_0000_0008_0400, trap_handler: 0x80200000 }
}

#[test]
fn loads_segments_stack_trampoline_and_context() {
    let data = sample_elf();
    let mut mem = PhysMemory::new(0x80400, 0x80480);
    let set = MemorySet::from_elf(&mut mem, SPP::User, &data, &env()).unwrap();
    let code = set.table.translate(&mem, VirtPageNum(0x10)).unwrap();
    assert!(code.is_valid() && code.readable() && code.executable() && !code.writable());
    assert!(code.is_user_page());
    for off in 0..8 {
        assert_eq!(mem.read_byte(code.ppn(), off), (off + 1) as u8);
    }
    assert_eq!(mem.read_byte(code.ppn(), 8), 0);
    let tail = set.table.translate(&mem, VirtPageNum(0x11)).unwrap();
    assert!(tail.is_valid());
    assert_eq!(mem.read_byte(tail.ppn(), 0), 0);
    assert!(!set.table.translate(&mem, VirtPageNum(0x12)).unwrap().is_valid());
    for vpn in [0x13usize, 0x14] {
        let s = set.table.translate(&mem, VirtPageNum(vpn)).unwrap();
        assert!(s.is_valid() && s.readable() && s.writable());
        assert_eq!(s.flags().bits(), 0b10111);
        assert!(!s.executable());
        for off in [0usize, 100, 4095] {
            assert_eq!(mem.read_byte(s.ppn(), off), 0);
        }
    }
    let tramp = set.table.translate(&mem, VirtPageNum(0x80201)).unwrap();
    assert!(tramp.is_valid() && tramp.executable());
    assert_eq!(tramp.ppn().value(), 0x80201);
    let satp = set.satp_bits();
    let cx = get_context(&mem, satp);
    assert_eq!(cx.sepc, 0x10004);
    assert_eq!(cx.sp, 0x15000);
    assert_eq!(cx.satp, satp as usize);
    assert_eq!(cx.kernel_satp, 0x8000_0000_0008_0400);
    assert_eq!(cx.trap_handler, 0x80200000);
    assert_eq!(cx.sstatus, 0);
    assert_eq!(cx.spp, 0);
}

#[test]
fn rejects_what_is_no_elf_file() {
    let mut mem = PhysMemory::new(0x80400, 0x80480);
    assert!(MemorySet::from_elf(&mut mem, SPP::User, &[1, 2, 3], &env()).is_none());
    let mut bad = sample_elf();
    bad[1] = b'X';
    assert!(MemorySet::from_elf(&mut mem, SPP::User, &bad, &env()).is_none());
}

#[test]
fn rejects_a_segment_that_overlaps_the_trampoline() {
    let data = sample_elf();
    let mut mem = PhysMemory::new(0x80400, 0x80480);
    let low = UserEnv { sasm: 0x11000, easm: 0x12000, kernel_satp: 0, trap_handler: 0 };
    assert!(MemorySet::from_elf(&mut mem, SPP::User, &data, &low).is_none());
}

#[test]
fn rejects_when_frames_run_short() {
    let data = sample_elf();
    let mut mem = PhysMemory::new(0x80400, 0x80404);
    assert!(MemorySet::from_elf(&mut mem, SPP::User, &data, &env()).is_none());
}

#[test]
fn loads_from_bytes_at_any_address() {
    let mut padded = vec![0u8; 3];
    padded.extend_from_slice(&sample_elf());
    let mut mem = PhysMemory::new(0x80400, 0x80480);
    let set = MemorySet::from_elf(&mut mem, SPP::User, &padded[3..], &env()).unwrap();
    let code = set.table.translate(&mem, VirtPageNum(0x10)).unwrap();
    assert!(code.is_valid());
    for off in 0..8 {
        assert_eq!(mem.read_byte(code.ppn(), off), (off + 1) as u8);
    }
}

/// The sample file with a second loadable segment that has no byte and no
/// page, at 0x13000.
fn elf_with_empty_segment() -> Vec<u8> {
    let mut b: Vec<u8> = Vec::with_capacity(256);
    b.extend_from_slice(&[0x7f, b'E', b'L', b'F', 2, 1, 1, 0, 0, 0, 0, 0, 0, 0, 0, 0]);
    put16(&mut b, 2);
    put16(&mut b, 0xf3);
    put32(&mut b, 1);
    put64(&mut b, 0x10004);
    put64(&mut b, 64);
    put64(&mut b, 0);
    put32(&mut b, 0);
    put16(&mut b, 64);
    put16(&mut b, 56);
    put16(&mut b, 2);
    put16(&mut b, 0);
    put16(&mut b, 0);
    put16(&mut b, 0);
    for (off, va, filesz, memsz) in [(176u64, 0x10000u64, 8u64, 0x1800u64), (184, 0x13000, 0, 0)] {
        put32(&mut b, 1);
        put32(&mut b, 5);
        put64(&mut b, off);
        put64(&mut b, va);
        put64(&mut b, va);
        put64(&mut b, filesz);
        put64(&mut b, memsz);
        put64(&mut b, 0x1000);
    }
    assert_eq!(b.len(), 176);
    b.extend_from_slice(&[1, 2, 3, 4, 5, 6, 7, 8]);
    b
}

#[test]
fn a_segment_without_pages_loads_nothing_but_moves_the_stack() {
    let data = elf_with_empty_segment();
    let mut mem = PhysMemory::new(0x80400, 0x80480);
    let set = MemorySet::from_elf(&mut mem, SPP::User, &data, &env()).unwrap();
    let code = set.table.translate(&mem, VirtPageNum(0x10)).unwrap();
    assert_eq!(mem.read_byte(code.ppn(), 0), 1);
    assert!(!set.table.translate(&mem, VirtPageNum(0x13)).map_or(false, |e| e.is_valid()));
    for vpn in [0x14usize, 0x15] {
        assert!(set.table.translate(&mem, VirtPageNum(vpn)).unwrap().is_valid());
    }
    let cx = get_context(&mem, set.satp_bits());
    assert_eq!(cx.sp, 0x16000);
}

/// The sample file linked at 0x9000_0000, above the trampoline.
fn elf_above_trampoline() -> Vec<u8> {
    let mut b = sample_elf();
    b[24..32].copy_from_slice(&0x9000_0004u64.to_le_bytes());
    b[64 + 16..64 + 24].copy_from_slice(&0x9000_0000u64.to_le_bytes());
    b[64 + 24..64 + 32].copy_from_slice(&0x9000_0000u64.to_le_bytes());
    b
}

#[test]
fn loads_a_program_linked_above_the_trampoline() {
    let data = elf_above_trampoline();
    let mut mem = PhysMemory::new(0x80400, 0x80480);
    let set = MemorySet::from_elf(&mut mem, SPP::User, &data, &env()).unwrap();
    let code = set.table.translate(&mem, VirtPageNum(0x90000)).unwrap();
    assert!(code.is_valid() && code.executable());
    assert_eq!(mem.read_byte(code.ppn(), 7), 8);
    let tramp = set.table.translate(&mem, VirtPageNum(0x80201)).unwrap();
    assert_eq!(tramp.ppn().value(), 0x80201);
    for vpn in [0x90003usize, 0x90004] {
        assert!(set.table.translate(&mem, VirtPageNum(vpn)).unwrap().is_valid());
    }
    let cx = get_context(&mem, set.satp_bits());
    assert_eq!(cx.sepc, 0x9000_0004);
    assert_eq!(cx.sp, 0x90005000);
}

/// A 64-bit ELF file with two loadable segments of 8 file bytes and 0x1000
/// memory bytes each: the first readable and executable at `first`, the
/// second readable and writable at `second`, in that order in the file.
fn two_segment_elf(first: u64, second: u64) -> Vec<u8> {
    let mut b: Vec<u8> = Vec::with_capacity(256);
    b.extend_from_slice(&[0x7f, b'E', b'L', b'F', 2, 1, 1, 0, 0, 0, 0, 0, 0, 0, 0, 0]);
    put16(&mut b, 2);
    put16(&mut b, 0xf3);
    put32(&mut b, 1);
    put64(&mut b, first);
    put64(&mut b, 64);
    put64(&mut b, 0);
    put32(&mut b, 0);
    put16(&mut b, 64);
    put16(&mut b, 56);
    put16(&mut b, 2);
    put16(&mut b, 0);
    put16(&mut b, 0);
    put16(&mut b, 0);
    for (vaddr, flags, offset) in [(first, 5u32, 176u64), (second, 6u32, 184u64)] {
        put32(&mut b, 1);
        put32(&mut b, flags);
        put64(&mut b, offset);
        put64(&mut b, vaddr);
        put64(&mut b, vaddr);
        put64(&mut b, 8);
        put64(&mut b, 0x1000);
        put64(&mut b, 0x1000);
    }
    assert_eq!(b.len(), 176);
    b.extend_from_slice(&[1, 2, 3, 4, 5, 6, 7, 8]);
    b.extend_from_slice(&[9, 10, 11, 12, 13, 14, 15, 16]);
    b
}

#[test]
fn loads_segments_given_in_descending_order() {
    let data = two_segment_elf(0x20000, 0x10000);
    let mut mem = PhysMemory::new(0x80400, 0x80480);
    let set = MemorySet::from_elf(&mut mem, SPP::User, &data, &env()).unwrap();
    let high = set.table.translate(&mem, VirtPageNum(0x20)).unwrap();
    assert!(high.is_valid() && high.executable() && !high.writable());
    assert_eq!(mem.read_byte(high.ppn(), 0), 1);
    let low = set.table.translate(&mem, VirtPageNum(0x10)).unwrap();
    assert!(low.is_valid() && low.writable() && !low.executable());
    assert_eq!(mem.read_byte(low.ppn(), 0), 9);
    assert!(!set.table.translate(&mem, VirtPageNum(0x11)).unwrap().is_valid());
    for vpn in [0x12usize, 0x13] {
        assert_eq!(set.table.translate(&mem, VirtPageNum(vpn)).unwrap().flags().bits(), 0b10111);
    }
    let cx = get_context(&mem, set.satp_bits());
    assert_eq!(cx.sepc, 0x20000);
    assert_eq!(cx.sp, 0x14000);
}

#[test]
fn rejects_segments_that_share_a_page() {
    let data = two_segment_elf(0x10000, 0x10800);
    let mut mem = PhysMemory::new(0x80400, 0x80480);
    assert!(MemorySet::from_elf(&mut mem, SPP::User, &data, &env()).is_none());
    assert!(mem.has_free_frames(0x80));
}

#[test]
fn rejects_a_stack_that_falls_on_an_earlier_segment() {
    let data = two_segment_elf(0x12000, 0x10000);
    let mut mem = PhysMemory::new(0x80400, 0x80480);
    assert!(MemorySet::from_elf(&mut mem, SPP::User, &data, &env()).is_none());
}

#[test]
fn the_page_below_the_context_holds_the_context_too() {
    let data = sample_elf();
    let mut mem = PhysMemory::new(0x80400, 0x80480);
    let set = MemorySet::from_elf(&mut mem, SPP::User, &data, &env()).unwrap();
    let top = set.table.translate(&mem, VirtAddr(CONTEXT).floor()).unwrap();
    let below = set.table.translate(&mem, VirtAddr(SUB_CONTEXT).floor()).unwrap();
    assert!(top.is_valid() && below.is_valid());
    assert_ne!(top.ppn().value(), below.ppn().value());
    for off in 0..512 {
        assert_eq!(mem.read_byte(below.ppn(), off), mem.read_byte(top.ppn(), off));
    }
    assert!(!set.table.translate(&mem, VirtPageNum(0x15)).unwrap().is_valid());
}
