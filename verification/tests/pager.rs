use engine::storage::pager::{Page, Pager, HEADER_SIZE, PAGE_SIZE};

#[test]
fn pager_test_page_new() {
    let page = Page::new();
    assert_eq!(page.data.len(), PAGE_SIZE);
    for b in page.data.iter() {
        assert_eq!(*b, 0);
    }
}

#[test]
fn pager_test_page_slot_management() {
    let mut page = Page::new();
    assert!(!page.is_slot_full(0));
    assert!(!page.is_slot_full(1));

    page.set_slot(0, true);
    assert!(page.is_slot_full(0));
    assert!(!page.is_slot_full(1));

    page.set_slot(1, true);
    assert!(page.is_slot_full(0));
    assert!(page.is_slot_full(1));

    page.set_slot(0, false);
    assert!(!page.is_slot_full(0));
    assert!(page.is_slot_full(1));
}

#[test]
fn pager_test_get_row_offset() {
    let page = Page::new();
    let row_size = 100;
    assert_eq!(page.get_row_offset(0, row_size), HEADER_SIZE);
    assert_eq!(page.get_row_offset(1, row_size), HEADER_SIZE + 100);
}

#[test]
fn pager_test_pager_open_and_io() {
    let mut pager = Pager::open(Vec::new());
    assert_eq!(pager.num_pages(), 0);

    let mut page = Page::new();
    page.data[0] = 55;
    page.set_slot(0, true);

    pager.write_page(0, &page);
    assert_eq!(pager.num_pages(), 1);

    let read_page = pager.read_page(0);
    assert_eq!(read_page.data[0], 55);
    assert!(read_page.is_slot_full(0));
}

#[test]
fn pager_tests_test_page_new() {
    let page = Page::new();
    assert_eq!(page.data.len(), PAGE_SIZE);
    for b in page.data.iter() {
        assert_eq!(*b, 0);
    }
}

#[test]
fn pager_tests_test_page_slot_management() {
    let mut page = Page::new();
    assert!(!page.is_slot_full(0));
    assert!(!page.is_slot_full(1));

    page.set_slot(0, true);
    assert!(page.is_slot_full(0));
    assert!(!page.is_slot_full(1));

    page.set_slot(1, true);
    assert!(page.is_slot_full(0));
    assert!(page.is_slot_full(1));

    page.set_slot(0, false);
    assert!(!page.is_slot_full(0));
    assert!(page.is_slot_full(1));
}

#[test]
fn pager_tests_test_get_row_offset() {
    let page = Page::new();
    let row_size = 100;
    assert_eq!(page.get_row_offset(0, row_size), HEADER_SIZE);
    assert_eq!(page.get_row_offset(1, row_size), HEADER_SIZE + 100);
}

#[test]
fn pager_tests_test_pager_open_and_io() {
    let mut pager = Pager::open(Vec::new());
    assert_eq!(pager.num_pages(), 0);

    let mut page = Page::new();
    page.data[0] = 55;
    page.set_slot(0, true);

    pager.write_page(0, &page);
    assert_eq!(pager.num_pages(), 1);
    assert_eq!(pager.file_length, PAGE_SIZE as u64);

    let read_page = pager.read_page(0);
    assert_eq!(read_page.data[0], 55);
    assert!(read_page.is_slot_full(0));
}

#[test]
fn slot_bits_are_independent() {
    let mut page = Page::new();
    page.set_slot(9, true);
    assert_eq!(page.data[1], 0b0000_0010);
    for j in 0..(8 * HEADER_SIZE) {
        assert_eq!(page.is_slot_full(j), j == 9);
    }
    page.set_slot(9, false);
    for b in page.data.iter() {
        assert_eq!(*b, 0);
    }
}

#[test]
fn write_past_end_extends_with_blank_pages() {
    let mut pager = Pager::open(Vec::new());
    let mut page = Page::new();
    page.data[100] = 7;
    pager.write_page(2, &page);
    assert_eq!(pager.num_pages(), 3);
    assert_eq!(pager.file_length, 3 * PAGE_SIZE as u64);
    assert_eq!(pager.read_page(0).data[100], 0);
    assert_eq!(pager.read_page(1).data[100], 0);
    assert_eq!(pager.read_page(2).data[100], 7);
    assert_eq!(pager.read_page(9).data[100], 0);
    assert_eq!(pager.take_written(), vec![2]);
    assert_eq!(pager.take_written(), Vec::<usize>::new());
}
