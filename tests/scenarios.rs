use shadow::{ShadowError, ShadowManager, ShadowPage, PAGE_SIZE};

#[test]
fn test_range_1() {
    let mut sm = ShadowManager::new();
    sm.add_byte(1000, 1);
    assert!(sm.has_patch_in_range((999, 1001)) == true);
}

#[test]
fn test_range_2() {
    let mut sm = ShadowManager::new();
    sm.add_byte(1000, 1);
    assert!(sm.has_patch_in_range((1000, 1000)) == true);
}

#[test]
fn test_range_3() {
    let mut sm = ShadowManager::new();
    sm.add_byte(1000, 1);
    assert!(sm.has_patch_in_range((1001, 1001)) == false);
}

#[test]
fn test_range_4() {
    let mut sm = ShadowManager::new();
    sm.add_byte(1000, 1);
    assert!(sm.has_patch_in_range((500, 700)) == false);
}

#[test]
fn test_range_5() {
    let mut sm = ShadowManager::new();
    sm.add_byte(1, 1);
    assert!(sm.has_patch_in_range((0, 1)) == true);
}

#[test]
fn test_0() {
    let mut sm = ShadowManager::new();
    sm.add_byte(0, 1);
    assert!(sm.has_patch(0) == true);
}

#[test]
fn test_range_0() {
    let mut sm = ShadowManager::new();
    sm.add_byte(0, 1);
    assert!(sm.has_patch_in_range((0, 0)) == true);
}

#[test]
fn test_range_0a() {
    let mut sm = ShadowManager::new();
    sm.add_byte(0, 1);
    assert!(sm.has_patch_in_range((0, 1)) == true);
}

#[test]
fn test_range_0b() {
    let mut sm = ShadowManager::new();
    sm.add_byte(0, 1);
    assert!(sm.has_patch_in_range((0, 5)) == true);
}

#[test]
fn test_1() {
    let mut sm = ShadowManager::new();
    sm.add_byte(1000, 1);
    assert!(sm.has_patch(1000) == true);
}

#[test]
fn fresh_store_has_nothing_patched() {
    let sm = ShadowManager::new();
    assert!(!sm.has_patch(0));
    assert!(!sm.has_patch(u64::MAX));
    assert!(!sm.has_patch_in_range((0, 10_000)));
    assert_eq!(sm.patched_value(1234), None);
}

#[test]
fn unrecorded_neighbours_stay_unpatched() {
    let mut sm = ShadowManager::new();
    sm.add_byte(0x2123, 0xa1);
    sm.add_byte(0x1123, 0xa1);
    assert!(!sm.has_patch(0x2122));
    assert!(!sm.has_patch(0x2124));
    assert!(!sm.has_patch(0x3123));
    assert!(!sm.has_patch(0x123));
}

#[test]
fn record_then_read_back() {
    let mut sm = ShadowManager::new();
    sm.add_byte(0x2123, 0xa1);
    assert!(sm.has_patch(0x2123));
    assert_eq!(sm.patched_value(0x2123), Some(0xa1));
    sm.add_byte(0x2123, 0x5c);
    assert_eq!(sm.patched_value(0x2123), Some(0x5c));
}

#[test]
fn stored_zero_is_still_patched() {
    let mut sm = ShadowManager::new();
    sm.add_byte(77, 0);
    assert!(sm.has_patch(77));
    assert_eq!(sm.patched_value(77), Some(0));
    assert_eq!(sm.patched_value(78), None);
}

#[test]
fn single_point_range_matches_point_query() {
    let mut sm = ShadowManager::new();
    sm.add_byte(7, 7);
    sm.add_byte(8, 8);
    for a in 0..20u64 {
        assert_eq!(sm.has_patch_in_range((a, a)), sm.has_patch(a));
    }
}

#[test]
fn range_around_a_patch_is_patched() {
    let mut sm = ShadowManager::new();
    sm.add_byte(100, 0xad);
    assert!(sm.has_patch_in_range((100, 100)));
    assert!(sm.has_patch_in_range((0, 100)));
    assert!(sm.has_patch_in_range((100, 200_000)));
    assert!(!sm.has_patch_in_range((101, 200)));
    assert!(!sm.has_patch_in_range((0, 99)));
}

#[test]
fn cross_page_range_finds_patch() {
    let mut sm = ShadowManager::new();
    sm.add_byte(0x1000 - 1, 3);
    assert!(sm.has_patch_in_range((0x1000 - 2, 0x1000)));
}

#[test]
fn cross_page_range_finds_patch_on_last_page() {
    let mut sm = ShadowManager::new();
    sm.add_byte(0x1000, 3);
    assert!(sm.has_patch_in_range((0xffe, 0x1001)));
    assert!(!sm.has_patch_in_range((0xffe, 0xfff)));
}

#[test]
fn range_passes_over_a_missing_page() {
    let mut sm = ShadowManager::new();
    sm.add_byte(0x10, 1);
    sm.add_byte(0x3010, 2);
    assert!(sm.has_patch_in_range((0x20, 0x3010)));
    assert!(!sm.has_patch_in_range((0x20, 0x300f)));
}

#[test]
fn range_searches_interior_pages() {
    let mut sm = ShadowManager::new();
    sm.add_byte(0x1800, 9);
    assert!(sm.has_patch_in_range((0x800, 0x2800)));
}

#[test]
fn top_of_address_space() {
    let mut sm = ShadowManager::new();
    sm.add_byte(u64::MAX, 0xff);
    assert!(sm.has_patch(u64::MAX));
    assert!(sm.has_patch_in_range((u64::MAX - 5000, u64::MAX)));
    assert!(!sm.has_patch_in_range((u64::MAX - 5000, u64::MAX - 1)));
    assert_eq!(sm.patched_value(u64::MAX), Some(0xff));
}

#[test]
fn inverted_range_is_refused() {
    let mut sm = ShadowManager::new();
    sm.add_byte(5, 1);
    assert_eq!(
        sm.checked_has_patch_in_range((6, 5)),
        Err(ShadowError::InvalidRange { begin: 6, end: 5 })
    );
    assert_eq!(sm.checked_has_patch_in_range((4, 6)), Ok(true));
    assert_eq!(sm.checked_has_patch_in_range((6, 9)), Ok(false));
}

#[test]
fn page_offset_rounds_down() {
    let sm = ShadowManager::new();
    assert_eq!(sm.get_page_offset(0), 0);
    assert_eq!(sm.get_page_offset(0xfff), 0);
    assert_eq!(sm.get_page_offset(0x1000), 0x1000);
    assert_eq!(sm.get_page_offset(0x2123), 0x2000);
    assert_eq!(sm.get_page_offset(u64::MAX), 0xffff_ffff_ffff_f000);
}

#[test]
fn bit_index_splits_offset() {
    let sm = ShadowManager::new();
    assert_eq!(sm.get_bit_index(0), (0, 0));
    assert_eq!(sm.get_bit_index(13), (1, 5));
    assert_eq!(sm.get_bit_index(4095), (511, 7));
}

#[test]
fn page_marks_and_queries() {
    let mut page = ShadowPage::new();
    assert!(!page.has_patch(0));
    assert!(!page.has_patch_in_range((0, PAGE_SIZE)));
    page.mark(4095, 0x42);
    page.mark(9, 0);
    assert!(page.has_patch(9));
    assert!(page.has_patch(4095));
    assert!(!page.has_patch(10));
    assert_eq!(page.patched_value(4095), Some(0x42));
    assert_eq!(page.patched_value(9), Some(0));
    assert_eq!(page.patched_value(8), None);
    assert!(page.has_patch_in_range((10, PAGE_SIZE)));
    assert!(!page.has_patch_in_range((10, 4094)));
    assert!(page.has_patch_in_range((3, 9)));
    assert!(!page.has_patch_in_range((0, 8)));
    assert!(!page.has_patch_in_range((10, 9)));
}

#[test]
fn marked_addresses_lists_each_patch_once() {
    let mut sm = ShadowManager::new();
    assert!(sm.marked_addresses().is_empty());
    sm.add_byte(0x2123, 0xa1);
    sm.add_byte(0x1123, 0xa1);
    sm.add_byte(0, 0xde);
    sm.add_byte(100, 0xad);
    sm.add_byte(7, 7);
    sm.add_byte(8, 8);
    sm.add_byte(8, 9);
    let mut got = sm.marked_addresses();
    got.sort();
    assert_eq!(got, vec![0, 7, 8, 100, 0x1123, 0x2123]);
}

#[test]
fn whole_address_space_range() {
    let mut sm = ShadowManager::new();
    assert!(!sm.has_patch_in_range((0, u64::MAX)));
    sm.add_byte(0x7777_0000_1234, 5);
    assert!(sm.has_patch_in_range((0, u64::MAX)));
    assert!(sm.has_patch_in_range((0x10, 0x7777_0000_1234)));
    assert!(!sm.has_patch_in_range((0x10, 0x7777_0000_1233)));
    assert!(!sm.has_patch_in_range((0x7777_0000_1235, u64::MAX)));
}

#[test]
fn wide_range_with_many_pages() {
    let mut sm = ShadowManager::new();
    sm.add_byte(0x5000, 1);
    sm.add_byte(0x9000_0000, 2);
    sm.add_byte(0xffff_0000_0000, 3);
    assert!(sm.has_patch_in_range((0x5001, 0x9000_0000)));
    assert!(!sm.has_patch_in_range((0x5001, 0x8fff_ffff)));
    assert!(sm.has_patch_in_range((0x9000_0001, u64::MAX)));
    assert!(!sm.has_patch_in_range((0xffff_0000_0001, u64::MAX)));
}

#[test]
fn marked_addresses_ascend_within_each_page() {
    let mut sm = ShadowManager::new();
    sm.add_byte(0x2123, 0xa1);
    sm.add_byte(0x1123, 0xa1);
    sm.add_byte(0, 0xde);
    sm.add_byte(100, 0xad);
    sm.add_byte(7, 7);
    sm.add_byte(8, 8);
    let got = sm.marked_addresses();
    assert_eq!(got.len(), 6);
    let first_page: Vec<u64> = got.iter().copied().filter(|a| *a < 0x1000).collect();
    assert_eq!(first_page, vec![0, 7, 8, 100]);
    let start = got.iter().position(|a| *a == 0).unwrap();
    assert_eq!(&got[start..start + 4], &[0, 7, 8, 100]);
}
