use fiddlers_db::layout::PageDataLayout;

#[test]
fn accepts_powers_of_two_in_range() {
    for size in [32usize, 64, 128, 256, 512, 4096, 65536] {
        let l = PageDataLayout::new(size).unwrap();
        assert_eq!(l.page_size(), size);
        assert_eq!(l.page_data_size(), size - 17);
        assert_eq!(l.max_tupel_size(), size - 21);
    }
}

#[test]
fn rejects_other_sizes() {
    for size in [0usize, 1, 16, 100, 500, 513, 131072, 3000] {
        assert!(PageDataLayout::new(size).is_none());
    }
}

#[test]
fn max_tupel_size_of_512_byte_page() {
    let l = PageDataLayout::new(512).unwrap();
    assert_eq!(l.max_tupel_size(), 491);
}
