//! A node store that keeps its pages in memory: page `n` (from 1) is the
//! `n`-th page written. Useful wherever a tree need not outlive the process.

use crate::btree::{call_result, BTreeError, CallResult, NodeRead, NodeStore, NodeWrite};
use crate::pager::{PageId, PagerError};
use vstd::prelude::*;

verus! {

pub struct MemStore {
    page_size: usize,
    pages: Vec<Vec<u8>>,
    log: Ghost<Seq<NodeWrite>>,
    read_log: Ghost<Seq<NodeRead>>,
    call_log: Ghost<Seq<CallResult>>,
}

impl MemStore {
    /// An empty store of pages of `page_size` bytes.
    pub fn new(page_size: usize) -> (s: Self)
        ensures
            s.spec_page_size() == page_size,
            s.pages() == Map::<PageId, Seq<u8>>::empty(),
            s.writes() == Seq::<NodeWrite>::empty(),
            s.reads() == Seq::<NodeRead>::empty(),
            s.calls() == Seq::<CallResult>::empty(),
    {
        let s = MemStore {
            page_size,
            pages: Vec::new(),
            log: Ghost(Seq::empty()),
            read_log: Ghost(Seq::empty()),
            call_log: Ghost(Seq::empty()),
        };
        assert(s.pages() =~= Map::<PageId, Seq<u8>>::empty());
        s
    }

    /// Number of pages written so far.
    pub fn page_count(&self) -> (r: usize)
        ensures
            forall|id: PageId| self.pages().contains_key(id) <==> 1 <= id <= r,
    {
        self.pages.len()
    }
}

impl NodeStore for MemStore {
    closed spec fn pages(&self) -> Map<PageId, Seq<u8>> {
        Map::new(|id: PageId| 1 <= id <= self.pages@.len(), |id: PageId| self.pages@[id - 1]@)
    }

    closed spec fn spec_page_size(&self) -> nat {
        self.page_size as nat
    }

    closed spec fn writes(&self) -> Seq<NodeWrite> {
        self.log@
    }

    closed spec fn reads(&self) -> Seq<NodeRead> {
        self.read_log@
    }

    closed spec fn calls(&self) -> Seq<CallResult> {
        self.call_log@
    }

    fn page_size(&self) -> (r: usize) {
        self.page_size
    }

    fn read_page(&mut self, id: PageId, buf: &mut [u8]) -> (r: Result<(), BTreeError>) {
        let n = self.pages.len();
        if id == 0 || id > n as u64 {
            let r: Result<(), BTreeError> = Err(BTreeError::Pager(PagerError::PageOutOfRange(id)));
            self.read_log = Ghost(self.read_log@.push((id, r)));
            self.call_log = Ghost(self.call_log@.push(r));
            return r;
        }
        let len = buf.len();
        let plen = self.pages[(id - 1) as usize].len();
        if plen != len {
            let r: Result<(), BTreeError> = Err(BTreeError::Pager(PagerError::BufferLengthMismatch { expected: plen, actual: len }));
            self.read_log = Ghost(self.read_log@.push((id, r)));
            self.call_log = Ghost(self.call_log@.push(r));
            return r;
        }
        let page = &self.pages[(id - 1) as usize];
        let mut i: usize = 0;
        while i < len
            invariant
                i <= len == buf@.len() == page@.len(),
                forall|j: int| 0 <= j < i ==> buf@[j] == page@[j],
            decreases len - i,
        {
            buf[i] = page[i];
            i += 1;
        }
        assert(buf@ =~= page@);
        let r: Result<(), BTreeError> = Ok(());
        self.read_log = Ghost(self.read_log@.push((id, r)));
        self.call_log = Ghost(self.call_log@.push(r));
        r
    }

    fn write_new_node(&mut self, base: Option<PageId>, buf: &[u8]) -> (r: Result<PageId, BTreeError>) {
        let n = self.pages.len();
        if n as u64 >= u64::MAX - 1 {
            let r: Result<PageId, BTreeError> = Err(BTreeError::Pager(PagerError::PageOutOfRange(n as u64)));
            self.call_log = Ghost(self.call_log@.push(call_result(r)));
            return r;
        }
        let page = vstd::slice::slice_to_vec(buf);
        let ghost old_pages = self.pages();
        self.pages.push(page);
        self.log = Ghost(self.log@.push((base, buf@)));
        let id = (n as u64) + 1;
        self.call_log = Ghost(self.call_log@.push(call_result(Ok::<PageId, BTreeError>(id))));
        proof {
            assert(old_pages.submap_of(self.pages()));
            assert(self.pages() =~= old_pages.insert(id, buf@));
        }
        Ok(id)
    }
}

} // verus!
