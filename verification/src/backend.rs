//! The backend: the slower tier, which stores pages by id.

use crate::page::{copy_bytes, Page, PageId};
use std::collections::HashMap;
use vstd::prelude::*;

verus! {

broadcast use vstd::std_specs::hash::group_hash_axioms;

/// A request that a backend has been asked to serve, and the error that it ended with, if
/// it failed.
pub enum Call<E> {
    Put { id: PageId, bytes: Seq<u8>, failure: Option<E> },
    Get { id: PageId, failure: Option<E> },
    Delete { id: PageId, failure: Option<E> },
}

/// The error in a result.
pub open spec fn failure<E>(r: Result<(), E>) -> Option<E> {
    match r {
        Ok(_) => None,
        Err(e) => Some(e),
    }
}

/// The number of reads among `calls`, failed ones too.
pub open spec fn count_reads<E>(calls: Seq<Call<E>>) -> nat
    decreases calls.len(),
{
    if calls.len() == 0 {
        0
    } else {
        count_reads(calls.drop_last()) + if calls.last() is Get {
            1nat
        } else {
            0
        }
    }
}

/// The number of writes among `calls`, failed ones too.
pub open spec fn count_writes<E>(calls: Seq<Call<E>>) -> nat
    decreases calls.len(),
{
    if calls.len() == 0 {
        0
    } else {
        count_writes(calls.drop_last()) + if calls.last() is Put {
            1nat
        } else {
            0
        }
    }
}

/// Every call counts once, as a read or as a write, whether it failed or not.
pub proof fn law_calls_are_counted_once<E>(calls: Seq<Call<E>>, call: Call<E>, error: E)
    ensures
        count_reads(Seq::<Call<E>>::empty()) == 0,
        count_writes(Seq::<Call<E>>::empty()) == 0,
        count_reads(calls.push(call)) == count_reads(calls) + match call {
            Call::Get { .. } => 1nat,
            _ => 0,
        },
        count_writes(calls.push(call)) == count_writes(calls) + match call {
            Call::Put { .. } => 1nat,
            _ => 0,
        },
        failure(Err(error)) == Some(error),
        failure(Ok::<(), E>(())) == None::<E>,
{
    assert(calls.push(call).drop_last() =~= calls);
}

/// The tier under the cache. Whatever stores pages by id can stand here. Requests take
/// the backend exclusively, so that the log of its calls can grow.
///
/// A backend in ordinary Rust cannot give the specification functions: it is taken to
/// have some `pages` and `calls` with which its operations keep their contracts.
pub trait Backend {
    /// What a request can fail with.
    type Error;

    /// The pages that are stored.
    closed spec fn pages(&self) -> Map<PageId, Seq<u8>> {
        arbitrary()
    }

    /// All requests made so far, in order.
    closed spec fn calls(&self) -> Seq<Call<Self::Error>> {
        arbitrary()
    }

    /// Whether every write succeeds, and every read of a page that is stored.
    open spec fn dependable(&self) -> bool {
        false
    }

    /// Whether `error` is what a read of `id` can fail with.
    open spec fn read_error(&self, id: PageId, error: Self::Error) -> bool {
        true
    }

    /// Whether `error` is what a write of `id` can fail with.
    open spec fn write_error(&self, id: PageId, error: Self::Error) -> bool {
        true
    }

    /// Stores a page. After a failure, nothing is known of this page, and the
    /// others are as they were.
    fn put(&mut self, id: PageId, page: &Page) -> (r: Result<(), Self::Error>)
        ensures
            final(self).calls() == old(self).calls().push(
                Call::Put { id, bytes: page@, failure: failure(r) },
            ),
            final(self).dependable() == old(self).dependable(),
            old(self).dependable() ==> r is Ok,
            r is Ok ==> final(self).pages() == old(self).pages().insert(id, page@),
            r is Err ==> final(self).pages().remove(id) == old(self).pages().remove(id),
            r matches Err(e) ==> old(self).write_error(id, e),
    ;

    /// Reads a page into `out`, which is of the page's length. Only a page that is
    /// stored can be read, and reading changes nothing that is stored.
    fn get(&mut self, id: PageId, out: &mut Page) -> (r: Result<(), Self::Error>)
        requires
            old(self).pages().contains_key(id) ==> old(self).pages()[id].len()
                == old(out)@.len(),
        ensures
            final(self).calls() == old(self).calls().push(Call::Get { id, failure: failure(r) }),
            final(self).pages() == old(self).pages(),
            final(self).dependable() == old(self).dependable(),
            final(out)@.len() == old(out)@.len(),
            old(self).dependable() && old(self).pages().contains_key(id) ==> r is Ok,
            r is Ok ==> {
                &&& old(self).pages().contains_key(id)
                &&& final(out)@ == old(self).pages()[id]
            },
            r matches Err(e) ==> old(self).read_error(id, e),
    ;

    /// Forgets a page. After a failure, nothing is known of this page, and the
    /// others are as they were.
    fn delete(&mut self, id: PageId) -> (r: Result<(), Self::Error>)
        ensures
            final(self).calls() == old(self).calls().push(Call::Delete { id, failure: failure(r) }),
            final(self).dependable() == old(self).dependable(),
            old(self).dependable() ==> r is Ok,
            r is Ok ==> final(self).pages() == old(self).pages().remove(id),
            r is Err ==> final(self).pages().remove(id) == old(self).pages().remove(id),
    ;
}

/// Why a request to the in-memory backend fails.
#[derive(Clone, Copy, Debug, PartialEq, Eq, Structural)]
pub enum DramError {
    /// The page is not stored.
    NotFound,
}

impl DramError {
    pub fn message(&self) -> (text: &'static str)
        ensures
            text@ == "page not found"@,
    {
        match self {
            DramError::NotFound => "page not found",
        }
    }
}

/// The baseline backend: all pages in memory.
pub struct DramBackend {
    map: HashMap<PageId, Box<[u8]>>,
    log: Ghost<Seq<Call<DramError>>>,
}

impl DramBackend {
    /// A backend that stores nothing yet.
    pub fn new() -> (backend: Self)
        ensures
            backend.pages() == Map::<PageId, Seq<u8>>::empty(),
            backend.calls() == Seq::<Call<DramError>>::empty(),
    {
        let backend = DramBackend { map: HashMap::new(), log: Ghost(Seq::empty()) };
        assert(backend.pages() =~= Map::empty());
        backend
    }

    /// Whether `id` can be read into a buffer of `len` bytes without a mismatch of
    /// lengths.
    pub fn fits(&self, id: PageId, len: usize) -> (fits: bool)
        ensures
            fits <==> (self.pages().contains_key(id) ==> self.pages()[id].len() == len),
    {
        match self.map.get(&id) {
            Some(bytes) => {
                assert(self.pages().contains_key(id) && self.pages()[id] == bytes@);
                bytes.len() == len
            },
            None => true,
        }
    }
}

impl Backend for DramBackend {
    type Error = DramError;

    closed spec fn pages(&self) -> Map<PageId, Seq<u8>> {
        self.map@.map_values(|bytes: Box<[u8]>| bytes@)
    }

    closed spec fn calls(&self) -> Seq<Call<DramError>> {
        self.log@
    }

    open spec fn dependable(&self) -> bool {
        true
    }

    open spec fn read_error(&self, id: PageId, error: DramError) -> bool {
        error == DramError::NotFound && !self.pages().contains_key(id)
    }

    open spec fn write_error(&self, id: PageId, error: DramError) -> bool {
        false
    }

    fn put(&mut self, id: PageId, page: &Page) -> (r: Result<(), DramError>)
        ensures
            r is Ok,
    {
        self.map.insert(id, copy_bytes(&page.data));
        assert(self.pages() =~= old(self).pages().insert(id, page@));
        self.log = Ghost(self.log@.push(Call::Put { id, bytes: page@, failure: None }));
        Ok(())
    }

    fn get(&mut self, id: PageId, out: &mut Page) -> (r: Result<(), DramError>)
        ensures
            r == if old(self).pages().contains_key(id) {
                Ok::<(), DramError>(())
            } else {
                Err(DramError::NotFound)
            },
            r is Err ==> final(out)@ == old(out)@,
    {
        let r = match self.map.get(&id) {
            Some(bytes) => {
                assert(self.pages().contains_key(id) && self.pages()[id] == bytes@);
                out.load(bytes);
                Ok(())
            },
            None => Err(DramError::NotFound),
        };
        self.log = Ghost(self.log@.push(Call::Get { id, failure: failure(r) }));
        r
    }

    fn delete(&mut self, id: PageId) -> (r: Result<(), DramError>)
        ensures
            r is Ok,
    {
        self.map.remove(&id);
        assert(self.pages() =~= old(self).pages().remove(id));
        self.log = Ghost(self.log@.push(Call::Delete { id, failure: None }));
        Ok(())
    }
}

} // verus!
