//! The pager over a data file held in memory: the same page layout, file
//! header and free list as the file on disk, with the bytes of the file in a
//! `Vec<u8>`. Every decision is [`PagerState`]'s.

use crate::le::{overwrite, put_bytes, zeroed, zeros};
use crate::pager::{
    file_header_image, file_header_page, popped_trunk, preamble_result, pushed_trunk,
    trunk_leaves, trunk_len, trunk_next, trunk_well_formed, new_trunk_image, spec_trunk_capacity,
    valid_page_size, AllocPlan, FreePlan, PageId, PagerError, PagerState, PagerView, TrunkTake,
    FREE_TRUNK_HEAD_OFFSET, PREAMBLE_READ_SIZE,
};
use vstd::bytes::*;
use vstd::prelude::*;

verus! {

broadcast use vstd::seq_lib::group_seq_properties;

/// The error a read past the end of a file reports: calls
/// `std::io::Error::from(std::io::ErrorKind::UnexpectedEof)`. Nothing is
/// claimed of the value.
#[verifier::external_body]
fn unexpected_eof() -> (e: std::io::Error) {
    std::io::Error::from(std::io::ErrorKind::UnexpectedEof)
}

/// The bytes of page `id` in a file of pages of `page_size` bytes.
pub open spec fn page_of(file: Seq<u8>, page_size: u32, id: u64) -> Seq<u8> {
    file.subrange((id - 1) * page_size, id * page_size)
}

/// `file` after setting its length to `len`: cut short, or padded with
/// zeros.
pub open spec fn resized(file: Seq<u8>, len: nat) -> Seq<u8> {
    if len <= file.len() {
        file.take(len as int)
    } else {
        file + zeros((len - file.len()) as nat)
    }
}

proof fn lemma_page_in_file(page_count: u64, page_size: int, page_id: int, file_len: int)
    requires
        1 <= page_id <= page_count,
        page_size >= 0,
        page_count * page_size <= file_len,
    ensures
        (page_id - 1) * page_size + page_size == page_id * page_size,
        page_id * page_size <= file_len,
        0 <= (page_id - 1) * page_size,
{
    assert(page_id * page_size <= page_count * page_size) by (nonlinear_arith)
        requires
            page_id <= page_count,
            page_size >= 0,
    ;
    assert((page_id - 1) * page_size + page_size == page_id * page_size) by (nonlinear_arith);
    assert(0 <= (page_id - 1) * page_size) by (nonlinear_arith)
        requires
            page_id >= 1,
            page_size >= 0,
    ;
}

proof fn lemma_grown_len(page_id: int, page_size: int)
    requires
        page_id >= 1,
        page_size >= 64,
    ensures
        page_id * page_size >= 64,
{
    assert(page_id * page_size >= page_size) by (nonlinear_arith)
        requires
            page_id >= 1,
            page_size >= 0,
    ;
}

/// Page `id` is free or fresh in a file with pager state `s`: it lies just
/// past the last page, or the free list holds it (as the head trunk or one
/// of its leaves).
pub open spec fn free_or_fresh(file: Seq<u8>, s: PagerView, id: u64) -> bool {
    ||| id == s.page_count + 1
    ||| 1 <= s.free_trunk_head <= s.page_count && (id == s.free_trunk_head || trunk_leaves(
        page_of(file, s.page_size, s.free_trunk_head),
    ).contains(id))
}

/// A data file held in memory, with the pager's state.
pub struct MemPager {
    file: Vec<u8>,
    state: PagerState,
}

impl MemPager {
    pub closed spec fn file(&self) -> Seq<u8> {
        self.file@
    }

    pub closed spec fn state(&self) -> PagerView {
        self.state@
    }

    /// The state is consistent, the header fits in the file and every page
    /// up to the page count lies inside it.
    pub closed spec fn wf(&self) -> bool {
        &&& self.state.wf()
        &&& self.file@.len() >= PREAMBLE_READ_SIZE
        &&& self.state@.page_count * self.state@.page_size <= self.file@.len()
    }

    /// A new file: page 1 holds the header, nothing is free.
    pub fn create(page_size: u32) -> (r: Result<MemPager, PagerError>)
        ensures
            valid_page_size(page_size) ==> r is Ok && r->Ok_0.wf() && r->Ok_0.file() == file_header_image(
                page_size,
                0,
            ) && r->Ok_0.state() == (PagerView { page_size, page_count: 1, free_trunk_head: 0 }),
            !valid_page_size(page_size) ==> r == Err::<MemPager, PagerError>(
                PagerError::InvalidPageSize(page_size),
            ),
    {
        match PagerState::create(page_size) {
            Err(e) => Err(e),
            Ok(state) => {
                let file = file_header_page(page_size);
                assert(1 * page_size == page_size);
                Ok(MemPager { file, state })
            },
        }
    }

    /// Opens the data file whose bytes are `file`: page size and free-list
    /// head come from its header, the page count from its length.
    pub fn open(file: Vec<u8>) -> (r: Result<MemPager, PagerError>)
        ensures
            file@.len() < PREAMBLE_READ_SIZE ==> r is Err && r->Err_0 is Io,
            file@.len() >= PREAMBLE_READ_SIZE ==> match preamble_result(file@) {
                Err(e) => r == Err::<MemPager, PagerError>(e),
                Ok((page_size, head)) => r is Ok && r->Ok_0.wf() && r->Ok_0.file() == file@
                    && r->Ok_0.state() == (PagerView {
                    page_size,
                    page_count: (file@.len() / (page_size as nat)) as u64,
                    free_trunk_head: head,
                }),
            },
    {
        let len = file.len();
        if len < PREAMBLE_READ_SIZE {
            return Err(PagerError::Io(unexpected_eof()));
        }
        let state = match PagerState::open(file.as_slice(), len as u64) {
            Err(e) => {
                return Err(e);
            },
            Ok(state) => state,
        };
        proof {
            let ps = state@.page_size;
            assert(state@.page_count * ps <= len) by (nonlinear_arith)
                requires
                    state@.page_count == (len as u64) / (ps as u64),
                    ps > 0,
            ;
        }
        Ok(MemPager { file, state })
    }

    /// The bytes of the whole file.
    pub fn bytes(&self) -> (r: &[u8])
        ensures
            r@ == self.file(),
    {
        self.file.as_slice()
    }

    /// Gives up the pager, keeping the bytes of the file.
    pub fn into_bytes(self) -> (r: Vec<u8>)
        ensures
            r@ == self.file(),
    {
        self.file
    }

    pub fn page_size(&self) -> (r: u32)
        ensures
            r == self.state().page_size,
    {
        self.state.page_size()
    }

    pub fn page_count(&self) -> (r: u64)
        ensures
            r == self.state().page_count,
    {
        self.state.page_count()
    }

    pub fn free_trunk_head(&self) -> (r: PageId)
        ensures
            r == self.state().free_trunk_head,
    {
        self.state.free_trunk_head()
    }

    fn set_len(&mut self, len: u64)
        requires
            len <= usize::MAX,
        ensures
            final(self).file() == resized(old(self).file(), len as nat),
            final(self).state == old(self).state,
    {
        let len = len as usize;
        if len <= self.file.len() {
            self.file.truncate(len);
            assert(self.file@ =~= resized(old(self).file(), len as nat));
        } else {
            let extra = zeroed(len - self.file.len());
            let mut i: usize = 0;
            let ghost start = self.file@;
            while i < extra.len()
                invariant
                    i <= extra@.len(),
                    extra@ == zeros(extra@.len()),
                    self.file@ == start + zeros(i as nat),
                    self.state == old(self).state,
                decreases extra@.len() - i,
            {
                self.file.push(0u8);
                i += 1;
                assert(self.file@ =~= start + zeros(i as nat));
            }
            assert(self.file@ =~= resized(old(self).file(), len as nat));
        }
    }

    /// Reads page `page_id` into `buf`, which must be one page long.
    pub fn read_page(&self, page_id: PageId, buf: &mut [u8]) -> (r: Result<(), PagerError>)
        requires
            self.wf(),
        ensures
            !(1 <= page_id <= self.state().page_count) ==> r == Err::<(), PagerError>(
                PagerError::PageOutOfRange(page_id),
            ),
            1 <= page_id <= self.state().page_count && old(buf)@.len() != self.state().page_size
                ==> r == Err::<(), PagerError>(
                PagerError::BufferLengthMismatch {
                    expected: self.state().page_size as usize,
                    actual: old(buf)@.len() as usize,
                },
            ),
            1 <= page_id <= self.state().page_count && old(buf)@.len() == self.state().page_size
                ==> r is Ok && final(buf)@ == page_of(self.file(), self.state().page_size, page_id),
            r is Err ==> final(buf)@ == old(buf)@,
            final(buf)@.len() == old(buf)@.len(),
    {
        let len = buf.len();
        let off = match self.state.locate_page(page_id, len) {
            Err(e) => {
                return Err(e);
            },
            Ok(off) => off,
        };
        let ps = self.state.page_size() as usize;
        let flen = self.file.len();
        proof {
            lemma_page_in_file(self.state@.page_count, self.state@.page_size as int, page_id as int, flen as int);
        }
        let off = off as usize;
        let mut i: usize = 0;
        while i < ps
            invariant
                i <= ps == buf@.len(),
                off + ps <= flen == self.file@.len(),
                off == (page_id - 1) * ps,
                forall|j: int| 0 <= j < i ==> buf@[j] == self.file@[off + j],
            decreases ps - i,
        {
            buf[i] = self.file[off + i];
            i += 1;
        }
        assert(buf@ =~= page_of(self.file@, self.state@.page_size, page_id));
        Ok(())
    }

    /// Writes `buf`, which must be one page long, over page `page_id`.
    pub fn write_page(&mut self, page_id: PageId, buf: &[u8]) -> (r: Result<(), PagerError>)
        requires
            old(self).wf(),
        ensures
            final(self).wf(),
            final(self).state() == old(self).state(),
            !(1 <= page_id <= old(self).state().page_count) ==> r == Err::<(), PagerError>(
                PagerError::PageOutOfRange(page_id),
            ),
            1 <= page_id <= old(self).state().page_count && buf@.len() != old(self).state().page_size
                ==> r == Err::<(), PagerError>(
                PagerError::BufferLengthMismatch {
                    expected: old(self).state().page_size as usize,
                    actual: buf@.len() as usize,
                },
            ),
            r is Err ==> final(self).file() == old(self).file(),
            1 <= page_id <= old(self).state().page_count && buf@.len() == old(self).state().page_size
                ==> r is Ok && final(self).file() == overwrite(
                old(self).file(),
                (page_id - 1) * old(self).state().page_size,
                buf@,
            ),
    {
        let off = match self.state.locate_page(page_id, buf.len()) {
            Err(e) => {
                return Err(e);
            },
            Ok(off) => off,
        };
        let flen = self.file.len();
        proof {
            lemma_page_in_file(self.state@.page_count, self.state@.page_size as int, page_id as int, flen as int);
        }
        put_bytes(&mut self.file, off as usize, buf);
        Ok(())
    }

    /// Makes page `page_id` exist, growing the file (with zero pages) if it
    /// ends before it.
    pub fn extend_to(&mut self, page_id: PageId) -> (r: Result<(), PagerError>)
        requires
            old(self).wf(),
            page_id * old(self).state().page_size <= u64::MAX,
            page_id * old(self).state().page_size <= usize::MAX,
        ensures
            final(self).wf(),
            page_id == 0 ==> r == Err::<(), PagerError>(PagerError::PageOutOfRange(0))
                && final(self).file() == old(self).file() && final(self).state() == old(self).state(),
            page_id != 0 && page_id <= old(self).state().page_count ==> r is Ok && final(self).file()
                == old(self).file() && final(self).state() == old(self).state(),
            page_id > old(self).state().page_count ==> r is Ok && final(self).file() == resized(
                old(self).file(),
                (page_id * old(self).state().page_size) as nat,
            ) && final(self).state() == (PagerView { page_count: page_id, ..old(self).state() }),
    {
        match self.state.plan_extend(page_id) {
            Err(e) => Err(e),
            Ok(None) => Ok(()),
            Ok(Some(new_len)) => {
                proof {
                    lemma_grown_len(page_id as int, self.state@.page_size as int);
                }
                self.set_len(new_len);
                self.state.note_extended(page_id);
                Ok(())
            },
        }
    }

    fn write_free_trunk_head(&mut self, head: PageId)
        requires
            old(self).wf(),
            old(self).state().free_trunk_head == head,
        ensures
            final(self).wf(),
            final(self).state() == old(self).state(),
            final(self).file() == overwrite(
                old(self).file(),
                FREE_TRUNK_HEAD_OFFSET as int,
                spec_u64_to_le_bytes(head),
            ),
    {
        let v = u64_to_le_bytes(head);
        proof {
            lemma_auto_spec_u64_to_from_le_bytes();
        }
        put_bytes(&mut self.file, FREE_TRUNK_HEAD_OFFSET, v.as_slice());
    }

    /// Hands out a page: the last leaf of the head trunk, or the head trunk
    /// itself once it has no leaves, or else a new page at the end of the
    /// file. Fresh pages read as zeros; reused ones hold whatever they held.
    /// A page handed out is never one in use: it was free or did not exist
    /// (so long as no page was freed twice, which is not detected).
    pub fn allocate_page(&mut self) -> (r: Result<PageId, PagerError>)
        requires
            old(self).wf(),
            old(self).state().free_trunk_head == 0 ==> (old(self).state().page_count + 1)
                * old(self).state().page_size <= u64::MAX,
            old(self).state().free_trunk_head == 0 ==> (old(self).state().page_count + 1)
                * old(self).state().page_size <= usize::MAX,
            old(self).state().free_trunk_head != 0 && old(self).state().free_trunk_head
                <= old(self).state().page_count ==> trunk_well_formed(
                page_of(old(self).file(), old(self).state().page_size, old(self).state().free_trunk_head),
            ),
        ensures
            final(self).wf(),
            r is Ok ==> free_or_fresh(old(self).file(), old(self).state(), r->Ok_0),
            ({
                let s = old(self).state();
                let f = old(self).file();
                let head = s.free_trunk_head;
                let trunk = page_of(f, s.page_size, head);
                &&& head == 0 ==> r == Ok::<PageId, PagerError>((s.page_count + 1) as u64)
                    && final(self).state() == (PagerView { page_count: (s.page_count + 1) as u64, ..s })
                    && final(self).file() == resized(f, ((s.page_count + 1) * s.page_size) as nat)
                &&& head > s.page_count ==> r == Err::<PageId, PagerError>(
                    PagerError::PageOutOfRange(head),
                ) && final(self).state() == s && final(self).file() == f
                &&& 1 <= head <= s.page_count && trunk_len(trunk) > 0 ==> r == Ok::<PageId, PagerError>(
                    trunk_leaves(trunk).last(),
                ) && final(self).state() == s && final(self).file() == overwrite(
                    f,
                    (head - 1) * s.page_size,
                    popped_trunk(trunk),
                )
                &&& 1 <= head <= s.page_count && trunk_len(trunk) == 0 ==> r == Ok::<PageId, PagerError>(
                    head,
                ) && final(self).state() == (PagerView { free_trunk_head: trunk_next(trunk), ..s })
                    && final(self).file() == overwrite(
                    f,
                    FREE_TRUNK_HEAD_OFFSET as int,
                    spec_u64_to_le_bytes(trunk_next(trunk)),
                )
            }),
    {
        match self.state.plan_allocate() {
            AllocPlan::Grow { page_id, new_len } => {
                proof {
                    lemma_grown_len(page_id as int, self.state@.page_size as int);
                }
                self.set_len(new_len);
                self.state.note_extended(page_id);
                Ok(page_id)
            },
            AllocPlan::ReadTrunk { trunk_id } => {
                let ps = self.state.page_size() as usize;
                let mut buf = zeroed(ps);
                match self.read_page(trunk_id, buf.as_mut_slice()) {
                    Err(e) => {
                        return Err(e);
                    },
                    Ok(()) => {},
                }
                match self.state.take_from_trunk(buf.as_slice()) {
                    Some(TrunkTake::Leaf { page_id, trunk }) => {
                        match self.write_page(trunk_id, trunk.as_slice()) {
                            Err(e) => Err(e),
                            Ok(()) => Ok(page_id),
                        }
                    },
                    Some(TrunkTake::Exhausted { page_id, new_head }) => {
                        self.write_free_trunk_head(new_head);
                        Ok(page_id)
                    },
                    None => {
                        assert(false);
                        Ok(0)
                    },
                }
            },
        }
    }

    /// Puts page `page_id` on the free list: as the last leaf of the head
    /// trunk when it has room, else as the new head trunk. Double frees are
    /// not detected.
    pub fn free_page(&mut self, page_id: PageId) -> (r: Result<(), PagerError>)
        requires
            old(self).wf(),
        ensures
            final(self).wf(),
            ({
                let s = old(self).state();
                let f = old(self).file();
                let head = s.free_trunk_head;
                let trunk = page_of(f, s.page_size, head);
                &&& !(1 <= page_id <= s.page_count) ==> r == Err::<(), PagerError>(
                    PagerError::PageOutOfRange(page_id),
                ) && final(self).state() == s && final(self).file() == f
                &&& 1 <= page_id <= s.page_count && head > s.page_count ==> r == Err::<(), PagerError>(
                    PagerError::PageOutOfRange(head),
                ) && final(self).state() == s && final(self).file() == f
                &&& 1 <= page_id <= s.page_count && 1 <= head <= s.page_count && trunk_len(trunk)
                    < spec_trunk_capacity(s.page_size) ==> r is Ok && final(self).state() == s
                    && final(self).file() == overwrite(
                    f,
                    (head - 1) * s.page_size,
                    pushed_trunk(trunk, page_id),
                )
                &&& 1 <= page_id <= s.page_count && (head == 0 || (1 <= head <= s.page_count
                    && trunk_len(trunk) >= spec_trunk_capacity(s.page_size))) ==> r is Ok
                    && final(self).state() == (PagerView { free_trunk_head: page_id, ..s })
                    && final(self).file() == overwrite(
                    overwrite(f, (page_id - 1) * s.page_size, new_trunk_image(s.page_size, head)),
                    FREE_TRUNK_HEAD_OFFSET as int,
                    spec_u64_to_le_bytes(page_id),
                )
            }),
    {
        match self.state.plan_free(page_id) {
            Err(e) => {
                return Err(e);
            },
            Ok(FreePlan::ReadHead { trunk_id }) => {
                let ps = self.state.page_size() as usize;
                let mut buf = zeroed(ps);
                match self.read_page(trunk_id, buf.as_mut_slice()) {
                    Err(e) => {
                        return Err(e);
                    },
                    Ok(()) => {},
                }
                match self.state.push_to_trunk(buf.as_slice(), page_id) {
                    Some(trunk) => {
                        return self.write_page(trunk_id, trunk.as_slice());
                    },
                    None => {},
                }
            },
            Ok(FreePlan::StartTrunk) => {},
        }
        let trunk = self.state.new_trunk_page();
        match self.write_page(page_id, trunk.as_slice()) {
            Err(e) => {
                return Err(e);
            },
            Ok(()) => {},
        }
        self.state.set_free_trunk_head(page_id);
        self.write_free_trunk_head(page_id);
        Ok(())
    }
}

/// A page read back right after it was written holds what was written, and
/// every other page is as it was.
pub proof fn lemma_write_then_read(file: Seq<u8>, page_size: u32, id: u64, buf: Seq<u8>, other: u64)
    requires
        1 <= id,
        1 <= other,
        page_size > 0,
        buf.len() == page_size,
        id * page_size <= file.len(),
        other * page_size <= file.len(),
    ensures
        page_of(overwrite(file, (id - 1) * page_size, buf), page_size, id) == buf,
        other != id ==> page_of(overwrite(file, (id - 1) * page_size, buf), page_size, other)
            == page_of(file, page_size, other),
{
    let p = page_size as int;
    assert((id - 1) * p + p == id * p) by (nonlinear_arith);
    assert((other - 1) * p + p == other * p) by (nonlinear_arith);
    assert(0 <= (id - 1) * p) by (nonlinear_arith)
        requires
            id >= 1,
            p >= 0,
    ;
    assert(0 <= (other - 1) * p) by (nonlinear_arith)
        requires
            other >= 1,
            p >= 0,
    ;
    let f2 = overwrite(file, (id - 1) * p, buf);
    assert(page_of(f2, page_size, id) =~= buf);
    if other < id {
        assert(other * p <= (id - 1) * p) by (nonlinear_arith)
            requires
                other <= id - 1,
                p >= 0,
        ;
        assert(page_of(f2, page_size, other) =~= page_of(file, page_size, other));
    } else if other > id {
        assert(id * p <= (other - 1) * p) by (nonlinear_arith)
            requires
                id <= other - 1,
                p >= 0,
        ;
        assert(page_of(f2, page_size, other) =~= page_of(file, page_size, other));
    }
}

/// Freeing a page onto a head trunk with room and then allocating hands the
/// same page back: after the trunk page is written back, its last leaf is
/// the freed page, and taking it leaves the trunk listing what it did before.
pub proof fn lemma_free_then_allocate_same_page(file: Seq<u8>, page_size: u32, head: u64, page_id: u64)
    requires
        1 <= head,
        page_size > 0,
        head * page_size <= file.len(),
        20 + 8 * (trunk_len(page_of(file, page_size, head)) + 1) <= page_size,
        trunk_len(page_of(file, page_size, head)) < 65535,
    ensures
        ({
            let trunk = page_of(file, page_size, head);
            let freed = overwrite(file, (head - 1) * page_size, pushed_trunk(trunk, page_id));
            let trunk2 = page_of(freed, page_size, head);
            &&& trunk_well_formed(trunk2)
            &&& trunk_len(trunk2) > 0
            &&& trunk_leaves(trunk2).last() == page_id
            &&& trunk_leaves(popped_trunk(trunk2)) == trunk_leaves(trunk)
            &&& trunk_next(popped_trunk(trunk2)) == trunk_next(trunk)
        }),
{
    let p = page_size as int;
    assert((head - 1) * p + p == head * p) by (nonlinear_arith);
    assert(0 <= (head - 1) * p) by (nonlinear_arith)
        requires
            head >= 1,
            p >= 0,
    ;
    let trunk = page_of(file, page_size, head);
    assert(trunk.len() == page_size);
    crate::pager::lemma_free_then_allocate(trunk, page_id);
    crate::pager::lemma_pushed_trunk(trunk, page_id);
    lemma_write_then_read(file, page_size, head, pushed_trunk(trunk, page_id), head);
}

} // verus!
