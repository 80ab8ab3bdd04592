use yaros::mm::address::{PhysAddr, VirtAddr, VirtPageNum, VPNRange};

#[test]
fn virt_addr_floor_and_ceil() {
    let a = VirtAddr(0x1234);
    assert_eq!(a.floor().value(), 1);
    assert_eq!(a.ceil().value(), 2);
    assert_eq!(a.page_offset(), 0x234);
    assert!(!a.aligned());
    let b = VirtAddr(0x2000);
    assert_eq!(b.floor().value(), 2);
    assert_eq!(b.ceil().value(), 2);
    assert!(b.aligned());
}

#[test]
fn phys_addr_floor_and_ceil() {
    let a = PhysAddr(0x8000_0001);
    assert_eq!(a.floor().value(), 0x80000);
    assert_eq!(a.ceil().value(), 0x80001);
    assert_eq!(a.page_offset(), 1);
}

#[test]
fn vpn_indexes_split_nine_bits_each() {
    let v = VirtPageNum::new((3 << 18) | (5 << 9) | 7);
    assert_eq!(v.indexes(), [3, 5, 7]);
}

#[test]
fn vpn_range_walks_every_page_once() {
    let mut r = VPNRange::new(VirtPageNum(4), VirtPageNum(7));
    let mut seen = Vec::new();
    while let Some(v) = r.next() {
        seen.push(v.value());
    }
    assert_eq!(seen, vec![4, 5, 6]);
    assert_eq!(r.get_start().value(), 4);
    assert_eq!(r.get_end().value(), 7);
    assert_eq!(r.current().value(), 7);
}
