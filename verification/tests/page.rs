use nvme_kv_cache::page::copy_bytes;
use nvme_kv_cache::{Page, PAGE_SIZE};

#[test]
fn zeroed_page_is_one_block_of_zeroes() {
    assert_eq!(PAGE_SIZE, 4096);
    let page = Page::zeroed();
    assert_eq!(page.data.len(), 4096);
    assert!(page.data.iter().all(|&b| b == 0));
}

#[test]
fn load_overwrites_the_whole_page() {
    let mut page = Page::zeroed();
    let bytes: Vec<u8> = (0..PAGE_SIZE).map(|i| (i % 251) as u8).collect();
    page.load(&bytes);
    assert_eq!(page.data.as_ref(), &bytes[..]);
}

#[test]
fn copied_bytes_are_independent() {
    let mut page = Page::zeroed();
    let copy = copy_bytes(&page.data);
    page.data.fill(7);
    assert_eq!(copy.len(), PAGE_SIZE);
    assert!(copy.iter().all(|&b| b == 0));
}
