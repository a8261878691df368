//! Pages: the fixed-size unit that the tiers hand to each other.

use vstd::prelude::*;

verus! {

/// Bytes in one page. This is the native block size of an NVMe device, so that
/// one page maps to one device block.
pub const PAGE_SIZE: usize = 4096;

pub type PageId = u64;

/// One chunk of cached data.
pub struct Page {
    pub data: Box<[u8]>,
}

impl View for Page {
    type V = Seq<u8>;

    open spec fn view(&self) -> Seq<u8> {
        self.data@
    }
}

/// The contents of a page on which nothing has been written.
pub open spec fn zeroes() -> Seq<u8> {
    Seq::new(PAGE_SIZE as nat, |i: int| 0u8)
}

/// `<[T]>::copy_from_slice` overwrites the whole destination with the source.
/// It panics where the lengths differ.
pub assume_specification<T: Copy>[ <[T]>::copy_from_slice ](dst: &mut [T], src: &[T])
    requires
        old(dst)@.len() == src@.len(),
    ensures
        final(dst)@ == src@,
;

/// `Vec::into_boxed_slice` keeps the elements and their order.
#[verifier::external_body]
fn into_boxed_slice(bytes: Vec<u8>) -> (boxed: Box<[u8]>)
    ensures
        boxed@ == bytes@,
{
    bytes.into_boxed_slice()
}

/// An independent copy of `bytes`.
pub fn copy_bytes(bytes: &[u8]) -> (copy: Box<[u8]>)
    ensures
        copy@ == bytes@,
{
    into_boxed_slice(vstd::slice::slice_to_vec(bytes))
}

impl Page {
    /// A page of `PAGE_SIZE` zero bytes.
    pub fn zeroed() -> (page: Self)
        ensures
            page@ == zeroes(),
    {
        let page = Page { data: into_boxed_slice(vec![0u8; PAGE_SIZE]) };
        assert(page@ =~= zeroes());
        page
    }

    /// Overwrites the page with `bytes`, which must be of the page's own length.
    pub fn load(&mut self, bytes: &[u8])
        requires
            old(self)@.len() == bytes@.len(),
        ensures
            final(self)@ == bytes@,
    {
        self.data.copy_from_slice(bytes);
    }
}

} // verus!
