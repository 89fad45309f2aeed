use breakcore::mm::addr::{
    page_count, Addr, PageNum, PhysAddr, PhysPageNum, VirtAddr, VirtPageNum, PAGE_SIZE,
};

#[test]
fn floor_and_ceil_of_an_unaligned_address() {
    let a = PhysAddr(0x8000_1234);
    assert_eq!(a.floor_page_num(), PhysPageNum(0x80001));
    assert_eq!(a.ceil_page_num(), PhysPageNum(0x80002));
    assert_eq!(a.page_offset(), 0x234);
    assert!(!a.aligned());
}

#[test]
fn floor_and_ceil_of_an_aligned_address() {
    let a = VirtAddr(0x1000_0000);
    assert_eq!(a.floor_page_num(), VirtPageNum(0x10000));
    assert_eq!(a.ceil_page_num(), VirtPageNum(0x10000));
    assert_eq!(a.page_offset(), 0);
    assert!(a.aligned());
}

#[test]
fn page_number_gives_its_first_address() {
    assert_eq!(PhysPageNum(0x80001).addr(), PhysAddr(0x8000_1000));
    assert_eq!(VirtPageNum(3).addr(), VirtAddr(0x3000));
    assert_eq!(VirtPageNum(0).addr(), VirtAddr(0));
}

#[test]
fn indexes_are_the_three_nine_bit_digits() {
    let vpn = VirtPageNum((5 << 18) | (300 << 9) | 17);
    assert_eq!(vpn.indexes(), [5, 300, 17]);
    assert_eq!(VirtPageNum(0).indexes(), [0, 0, 0]);
    assert_eq!(VirtPageNum(0x7ff_ffff).indexes(), [511, 511, 511]);
}

#[test]
fn indexes_ignore_bits_above_the_table() {
    let vpn = VirtPageNum((1 << 27) | (2 << 18) | (3 << 9) | 4);
    assert_eq!(vpn.indexes(), [2, 3, 4]);
}

#[test]
fn page_count_rounds_up() {
    assert_eq!(page_count(0), 0);
    assert_eq!(page_count(1), 1);
    assert_eq!(page_count(PAGE_SIZE), 1);
    assert_eq!(page_count(PAGE_SIZE + 1), 2);
    assert_eq!(page_count(16 * PAGE_SIZE), 16);
}

#[test]
fn addresses_compare_by_their_number() {
    assert!(PhysAddr(1) < PhysAddr(2));
    assert!(VirtPageNum(7) >= VirtPageNum(7));
    assert_ne!(PhysPageNum(1), PhysPageNum(2));
}
