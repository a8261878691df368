use nvme_kv_cache::{Backend, DramBackend, DramError, Page};

#[test]
fn dram_put_get_delete() {
    let mut backend = DramBackend::new();

    let mut page = Page::zeroed();
    page.data.fill(0x42);

    backend.put(1, &page).unwrap();
    let mut out = Page::zeroed();
    backend.get(1, &mut out).unwrap();
    assert_eq!(out.data.as_ref(), page.data.as_ref());

    let mut out2 = Page::zeroed();
    let err = backend.get(999, &mut out2).unwrap_err();
    assert_eq!(err, DramError::NotFound);

    backend.delete(1).unwrap();
    let err = backend.get(1, &mut out).unwrap_err();
    assert_eq!(err, DramError::NotFound);
}

#[test]
fn dram_failed_get_leaves_the_buffer_alone() {
    let mut backend = DramBackend::new();
    let mut out = Page::zeroed();
    out.data.fill(0x11);
    assert_eq!(backend.get(3, &mut out), Err(DramError::NotFound));
    assert!(out.data.iter().all(|&b| b == 0x11));
    assert_eq!(DramError::NotFound.message(), "page not found");
}

#[test]
fn dram_put_overwrites_and_copies() {
    let mut backend = DramBackend::new();
    let mut page = Page::zeroed();
    page.data.fill(1);
    backend.put(5, &page).unwrap();
    page.data.fill(2);
    let mut out = Page::zeroed();
    backend.get(5, &mut out).unwrap();
    assert_eq!(out.data[0], 1);
    backend.put(5, &page).unwrap();
    backend.get(5, &mut out).unwrap();
    assert_eq!(out.data[4095], 2);
}

#[test]
fn dram_delete_of_an_absent_page_succeeds() {
    let mut backend = DramBackend::new();
    assert_eq!(backend.delete(8), Ok(()));
}

#[test]
fn dram_tells_whether_a_buffer_fits() {
    let mut backend = DramBackend::new();
    let short = Page { data: vec![9u8; 16].into_boxed_slice() };
    backend.put(1, &short).unwrap();
    assert!(backend.fits(1, 16));
    assert!(!backend.fits(1, 4096));
    assert!(backend.fits(2, 4096));
    let mut out = Page { data: vec![0u8; 16].into_boxed_slice() };
    backend.get(1, &mut out).unwrap();
    assert_eq!(out.data.as_ref(), &[9u8; 16][..]);
}

#[test]
fn dram_keeps_pages_apart() {
    let mut backend = DramBackend::new();
    let mut page = Page::zeroed();
    for id in 0..4u64 {
        page.data.fill(id as u8 + 1);
        backend.put(id, &page).unwrap();
    }
    page.data.fill(0xEE);
    backend.put(1, &page).unwrap();
    backend.delete(2).unwrap();
    let mut out = Page::zeroed();
    for (id, byte) in [(0, 1), (1, 0xEE), (3, 4)] {
        backend.get(id, &mut out).unwrap();
        assert_eq!(out.data[0], byte);
    }
    assert_eq!(backend.get(2, &mut out), Err(DramError::NotFound));
}
