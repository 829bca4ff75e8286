use platform_trees::{Leaf, LinkType};

#[test]
fn test_funty_zero() {
    assert_eq!(usize::funty(0), 0usize);
    assert_eq!(u8::funty(0), 0u8);
    assert_eq!(u16::funty(0), 0u16);
    assert_eq!(u32::funty(0), 0u32);
    assert_eq!(u64::funty(0), 0u64);
}

#[test]
fn test_funty_one() {
    assert_eq!(usize::funty(1), 1usize);
    assert_eq!(u8::funty(1), 1u8);
    assert_eq!(u16::funty(1), 1u16);
    assert_eq!(u32::funty(1), 1u32);
    assert_eq!(u64::funty(1), 1u64);
}

#[test]
fn test_funty_various_values() {
    for i in 0..=255u8 {
        assert_eq!(u8::funty(i), i);
        assert_eq!(u16::funty(i), i as u16);
        assert_eq!(u32::funty(i), i as u32);
        assert_eq!(u64::funty(i), i as u64);
        assert_eq!(usize::funty(i), i as usize);
    }
}

#[test]
fn funty_two_is_the_third_handle() {
    assert_eq!(usize::funty(2), 2usize);
    assert_eq!(u32::funty(2), 2u32);
}

#[test]
fn addr_is_the_number_of_the_handle() {
    assert_eq!(0u8.addr(), 0usize);
    assert_eq!(255u8.addr(), 255usize);
    assert_eq!(65_535u16.addr(), 65_535usize);
    assert_eq!(70_000u32.addr(), 70_000usize);
    assert_eq!(12u64.addr(), 12usize);
    assert_eq!(9usize.addr(), 9usize);
}

#[test]
fn same_compares_addresses() {
    assert!(7u8.same(7u8));
    assert!(!7u8.same(8u8));
    assert!(300u16.same(300u16));
    assert!(!1u32.same(2u32));
    assert!(5u64.same(5u64));
    assert!(!0usize.same(1usize));
}
