use breakcore::mm::addr::PhysPageNum;
use breakcore::mm::memory::PhysMemory;

#[test]
fn new_memory_is_zero() {
    let mem = PhysMemory::new(PhysPageNum(0x80000), 4).unwrap();
    assert_eq!(mem.base(), PhysPageNum(0x80000));
    assert_eq!(mem.page_count(), 4);
    assert_eq!(mem.read_word(PhysPageNum(0x80003), 511), 0);
    assert_eq!(mem.read_byte(PhysPageNum(0x80000), 0), 0);
}

#[test]
fn memory_past_the_last_page_number_is_refused() {
    assert!(PhysMemory::new(PhysPageNum(0x1000_0000_0000), 1).is_none());
    assert!(PhysMemory::new(PhysPageNum(0xfff_ffff_ffff), 1).is_some());
    assert!(PhysMemory::new(PhysPageNum(0xfff_ffff_ffff), 2).is_none());
}

#[test]
fn contains_tells_the_pages_of_the_memory() {
    let mem = PhysMemory::new(PhysPageNum(0x80000), 4).unwrap();
    assert!(mem.contains(PhysPageNum(0x80000)));
    assert!(mem.contains(PhysPageNum(0x80003)));
    assert!(!mem.contains(PhysPageNum(0x80004)));
    assert!(!mem.contains(PhysPageNum(0x7ffff)));
}

#[test]
fn words_are_little_endian_bytes() {
    let mut mem = PhysMemory::new(PhysPageNum(0x80000), 2).unwrap();
    mem.write_word(PhysPageNum(0x80001), 3, 0x0102_0304_0506_0708);
    assert_eq!(mem.read_word(PhysPageNum(0x80001), 3), 0x0102_0304_0506_0708);
    assert_eq!(mem.read_byte(PhysPageNum(0x80001), 24), 0x08);
    assert_eq!(mem.read_byte(PhysPageNum(0x80001), 31), 0x01);
    assert_eq!(mem.read_word(PhysPageNum(0x80001), 2), 0);
    assert_eq!(mem.read_word(PhysPageNum(0x80001), 4), 0);
    assert_eq!(mem.read_word(PhysPageNum(0x80000), 3), 0);
}

#[test]
fn bytes_make_up_words() {
    let mut mem = PhysMemory::new(PhysPageNum(0x80000), 1).unwrap();
    mem.write_byte(PhysPageNum(0x80000), 8, 0x11);
    mem.write_byte(PhysPageNum(0x80000), 9, 0x22);
    assert_eq!(mem.read_word(PhysPageNum(0x80000), 1), 0x2211);
}

#[test]
fn zero_page_clears_one_page_only() {
    let mut mem = PhysMemory::new(PhysPageNum(0x80000), 2).unwrap();
    mem.write_word(PhysPageNum(0x80000), 0, 7);
    mem.write_word(PhysPageNum(0x80001), 0, 9);
    mem.zero_page(PhysPageNum(0x80000));
    assert_eq!(mem.read_word(PhysPageNum(0x80000), 0), 0);
    assert_eq!(mem.read_word(PhysPageNum(0x80001), 0), 9);
}
