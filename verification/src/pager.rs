//! Page file format and free-list allocation decisions over
//! `<prefix>.data.bin`: page 1 holds the file header, page `n` starts at
//! byte `(n - 1) * page_size`, and page id 0 is the null page.
//!
//! Every page starts with a common header: `page_type: u8`, a reserved byte
//! and an 8-byte `page_lsn`. The file header (page 1) then holds the magic
//! bytes at 10, the format version at 18, the page size at 22 and the head
//! of the free list at 26. Free pages are kept on a chain of trunk pages:
//! a trunk holds the id of the next trunk at 10, its number of leaves at
//! 18, and the leaf page ids from 20 on, 8 bytes each.
//!
//! [`PagerState`] holds what the pager keeps in memory and makes every
//! decision; the caller performs the reads and writes it asks for.

use crate::le::{
    append_bytes, le16, le32, le64, lemma_le16, lemma_le_lengths, lemma_read_overwrite, overwrite,
    put_bytes, read16, read32, read64, read_u16_at, read_u32_at, read_u64_at, zeroed, zeros,
};
use crate::text::{decimal, decimal_string};
use vstd::bytes::*;
use vstd::prelude::*;
use vstd::string::StringExecFns;

verus! {

broadcast use vstd::seq_lib::group_seq_properties;

pub type PageId = u64;

/// Makes `std::io::Error` known to Verus as an opaque type: errors of the
/// file system are carried through, and nothing about their values is
/// claimed.
#[verifier::external_type_specification]
#[verifier::external_body]
pub struct ExIoError(std::io::Error);

#[derive(Debug)]
pub enum PagerError {
    Io(std::io::Error),
    BadMagic,
    UnsupportedVersion(u32),
    InvalidPageSize(u32),
    PageOutOfRange(PageId),
    BufferLengthMismatch { expected: usize, actual: usize },
}

impl From<std::io::Error> for PagerError {
    fn from(e: std::io::Error) -> (r: Self) {
        PagerError::Io(e)
    }
}

impl vstd::std_specs::convert::FromSpecImpl<std::io::Error> for PagerError {
    open spec fn obeys_from_spec() -> bool {
        true
    }

    open spec fn from_spec(e: std::io::Error) -> Self {
        PagerError::Io(e)
    }
}

/// `m` is the text of error `e`: for an I/O error, `"I/O error: "`
/// followed by the I/O error's own text.
pub open spec fn pager_message_is(e: PagerError, m: Seq<char>) -> bool {
    match e {
        PagerError::Io(_) => exists|t: Seq<char>| m == "I/O error: "@ + t,
        PagerError::BadMagic => m == "not a Basalt data file (bad magic bytes)"@,
        PagerError::UnsupportedVersion(v) => m == "unsupported data file format version "@ + decimal(
            v as nat,
        ),
        PagerError::InvalidPageSize(s) => m == "invalid page size "@ + decimal(s as nat)
            + " (must be a power of two, >= 64)"@,
        PagerError::PageOutOfRange(p) => m == "page "@ + decimal(p as nat)
            + " is out of the allocated range"@,
        PagerError::BufferLengthMismatch { expected, actual } => m == "page buffer length "@
            + decimal(actual as nat) + " does not match page size "@ + decimal(expected as nat),
    }
}

impl PagerError {
    /// A human-readable description of the error.
    pub fn message(&self) -> (r: String)
        ensures
            pager_message_is(*self, r@),
    {
        match self {
            PagerError::Io(e) => {
                let mut s = String::from_str("I/O error: ");
                let t = e.to_string();
                s.append(t.as_str());
                s
            },
            PagerError::BadMagic => String::from_str("not a Basalt data file (bad magic bytes)"),
            PagerError::UnsupportedVersion(v) => {
                let mut s = String::from_str("unsupported data file format version ");
                let d = decimal_string(*v as u64);
                s.append(d.as_str());
                s
            },
            PagerError::InvalidPageSize(size) => {
                let mut s = String::from_str("invalid page size ");
                let d = decimal_string(*size as u64);
                s.append(d.as_str());
                s.append(" (must be a power of two, >= 64)");
                s
            },
            PagerError::PageOutOfRange(p) => {
                let mut s = String::from_str("page ");
                let d = decimal_string(*p);
                s.append(d.as_str());
                s.append(" is out of the allocated range");
                s
            },
            PagerError::BufferLengthMismatch { expected, actual } => {
                let mut s = String::from_str("page buffer length ");
                let d = decimal_string(*actual as u64);
                s.append(d.as_str());
                s.append(" does not match page size ");
                let d = decimal_string(*expected as u64);
                s.append(d.as_str());
                s
            },
        }
    }
}

/// Size of the fixed read that learns the page size before any page-aligned
/// offset can be computed.
pub const PREAMBLE_READ_SIZE: usize = 64;

pub const FORMAT_VERSION: u32 = 1;

/// The preamble's 64 content bytes must fit inside page 1.
pub const MIN_PAGE_SIZE: u32 = 64;

pub const PAGE_TYPE_FILE_HEADER: u8 = 2;

pub const PAGE_TYPE_FREE_TRUNK: u8 = 3;

pub const MAGIC_OFFSET: usize = 10;

pub const VERSION_OFFSET: usize = 18;

pub const PAGE_SIZE_OFFSET: usize = 22;

pub const FREE_TRUNK_HEAD_OFFSET: usize = 26;

pub const TRUNK_NEXT_OFFSET: usize = 10;

pub const TRUNK_NUM_LEAVES_OFFSET: usize = 18;

pub const TRUNK_HEADER_SIZE: usize = 20;

pub const TRUNK_LEAF_SIZE: usize = 8;

/// `b"BSLTPAGE"`.
pub open spec fn page_magic() -> Seq<u8> {
    seq![66u8, 83u8, 76u8, 84u8, 80u8, 65u8, 71u8, 69u8]
}

pub open spec fn is_pow2(n: nat) -> bool
    decreases n,
{
    if n <= 1 {
        n == 1
    } else {
        n % 2 == 0 && is_pow2(n / 2)
    }
}

/// A page size is a power of two of at least [`MIN_PAGE_SIZE`] bytes.
pub open spec fn valid_page_size(page_size: u32) -> bool {
    page_size >= MIN_PAGE_SIZE && is_pow2(page_size as nat)
}

proof fn lemma_is_pow2_of_pow2(k: nat)
    ensures
        is_pow2(vstd::arithmetic::power2::pow2(k)),
    decreases k,
{
    vstd::arithmetic::power2::lemma_pow2_pos(k);
    if k > 0 {
        vstd::arithmetic::power2::lemma_pow2_unfold(k);
        lemma_is_pow2_of_pow2((k - 1) as nat);
        vstd::arithmetic::power2::lemma_pow2_pos((k - 1) as nat);
    } else {
        vstd::arithmetic::power2::lemma2_to64();
    }
}

proof fn lemma_pow2_of_is_pow2(n: nat)
    requires
        is_pow2(n),
    ensures
        exists|k: nat| n == vstd::arithmetic::power2::pow2(k),
    decreases n,
{
    if n <= 1 {
        vstd::arithmetic::power2::lemma2_to64();
        assert(n == vstd::arithmetic::power2::pow2(0));
    } else {
        lemma_pow2_of_is_pow2(n / 2);
        let k = choose|k: nat| n / 2 == vstd::arithmetic::power2::pow2(k);
        vstd::arithmetic::power2::lemma_pow2_unfold(k + 1);
        assert(n == vstd::arithmetic::power2::pow2(k + 1));
    }
}

/// The valid page sizes are exactly the powers of two from 64 up: every
/// `2^k` with `6 <= k <= 31` is one, and every valid size is such a power.
pub proof fn lemma_valid_page_sizes(page_size: u32)
    ensures
        valid_page_size(page_size) <==> exists|k: nat|
            6 <= k <= 31 && page_size == #[trigger] vstd::arithmetic::power2::pow2(k),
{
    vstd::arithmetic::power2::lemma2_to64();
    if valid_page_size(page_size) {
        lemma_pow2_of_is_pow2(page_size as nat);
        let k = choose|k: nat| page_size as nat == vstd::arithmetic::power2::pow2(k);
        if k < 6 {
            vstd::arithmetic::power2::lemma_pow2_strictly_increases(k, 6);
        }
        if k > 31 {
            vstd::arithmetic::power2::lemma_pow2_strictly_increases(32, k);
        }
        assert(6 <= k <= 31);
    }
    if exists|k: nat| 6 <= k <= 31 && page_size == #[trigger] vstd::arithmetic::power2::pow2(k) {
        let k = choose|k: nat| 6 <= k <= 31 && page_size == #[trigger] vstd::arithmetic::power2::pow2(k);
        lemma_is_pow2_of_pow2(k);
        if k > 6 {
            vstd::arithmetic::power2::lemma_pow2_strictly_increases(6, k);
        }
    }
}

/// Page 1 as written for a page size and a free-list head.
pub open spec fn file_header_image(page_size: u32, free_trunk_head: u64) -> Seq<u8> {
    seq![PAGE_TYPE_FILE_HEADER] + zeros(9) + page_magic() + le32(FORMAT_VERSION) + le32(page_size)
        + le64(free_trunk_head) + zeros((page_size - 34) as nat)
}

/// What opening a file whose first bytes are `b` learns from them.
pub open spec fn preamble_result(b: Seq<u8>) -> Result<(u32, u64), PagerError> {
    if b.subrange(10, 18) != page_magic() {
        Err(PagerError::BadMagic)
    } else if read32(b, 18) != FORMAT_VERSION {
        Err(PagerError::UnsupportedVersion(read32(b, 18)))
    } else if !valid_page_size(read32(b, 22)) {
        Err(PagerError::InvalidPageSize(read32(b, 22)))
    } else {
        Ok((read32(b, 22), read64(b, 26)))
    }
}

/// Page id of the trunk that follows trunk page `b` in the free list.
pub open spec fn trunk_next(b: Seq<u8>) -> u64 {
    read64(b, 10)
}

pub open spec fn trunk_len(b: Seq<u8>) -> nat {
    read16(b, 18)
}

/// The leaf page ids listed in trunk page `b`, oldest first.
pub open spec fn trunk_leaves(b: Seq<u8>) -> Seq<u64> {
    Seq::new(trunk_len(b), |i: int| read64(b, 20 + 8 * i))
}

/// The listed leaves lie inside the page.
pub open spec fn trunk_well_formed(b: Seq<u8>) -> bool {
    20 + 8 * trunk_len(b) <= b.len()
}

pub open spec fn spec_trunk_capacity(page_size: u32) -> nat {
    ((page_size - 20) / 8) as nat
}

/// A fresh, empty trunk page whose successor is `next`.
pub open spec fn new_trunk_image(page_size: u32, next: u64) -> Seq<u8> {
    seq![PAGE_TYPE_FREE_TRUNK] + zeros(9) + le64(next) + le16(0) + zeros((page_size - 20) as nat)
}

/// Trunk page `b` with `page_id` appended to its leaves.
/// The count field is 16 bits wide and wraps to 0 past 65535 leaves.
pub open spec fn pushed_trunk(b: Seq<u8>, page_id: u64) -> Seq<u8> {
    let count: nat = if trunk_len(b) < 65535 { trunk_len(b) + 1 } else { 0 };
    overwrite(overwrite(b, 20 + 8 * trunk_len(b) as int, le64(page_id)), 18, le16(count))
}

/// Trunk page `b` with its last leaf taken off.
pub open spec fn popped_trunk(b: Seq<u8>) -> Seq<u8> {
    overwrite(b, 18, le16((trunk_len(b) - 1) as nat))
}

/// What the pager keeps in memory.
pub struct PagerView {
    pub page_size: u32,
    /// Highest valid page id, which is also the number of pages.
    pub page_count: u64,
    /// First trunk of the free list, or 0 when no page is free.
    pub free_trunk_head: PageId,
}

/// The next step of an allocation.
pub enum AllocPlan {
    /// Nothing is free: grow the file to `new_len` bytes, then page
    /// `page_id` is the new page.
    Grow { page_id: PageId, new_len: u64 },
    /// Read the head trunk page and hand it to [`PagerState::take_from_trunk`].
    ReadTrunk { trunk_id: PageId },
}

/// What a trunk page gives an allocation.
pub enum TrunkTake {
    /// Its last leaf is handed out; `trunk` is the trunk page to write back.
    Leaf { page_id: PageId, trunk: Vec<u8> },
    /// It has no leaves left: the trunk page itself is handed out and
    /// `new_head` is the new head of the free list, to be written into the
    /// file header.
    Exhausted { page_id: PageId, new_head: PageId },
}

/// The next step of freeing a page.
pub enum FreePlan {
    /// Read the head trunk page and offer the page to it with
    /// [`PagerState::push_to_trunk`].
    ReadHead { trunk_id: PageId },
    /// No free list yet: write [`PagerState::new_trunk_page`] to the freed
    /// page, then make it the head with [`PagerState::set_free_trunk_head`].
    StartTrunk,
}

/// The pager's in-memory state: page size, page count and free-list head.
pub struct PagerState {
    page_size: u32,
    page_count: u64,
    free_trunk_head: PageId,
}

impl View for PagerState {
    type V = PagerView;

    closed spec fn view(&self) -> PagerView {
        PagerView {
            page_size: self.page_size,
            page_count: self.page_count,
            free_trunk_head: self.free_trunk_head,
        }
    }
}

/// Whether `page_size` is a power of two of at least [`MIN_PAGE_SIZE`].
pub fn is_valid_page_size(page_size: u32) -> (r: bool)
    ensures
        r == valid_page_size(page_size),
{
    if page_size < MIN_PAGE_SIZE {
        return false;
    }
    let mut n = page_size;
    while n > 1 && n % 2 == 0
        invariant
            n >= 1,
            is_pow2(n as nat) == is_pow2(page_size as nat),
        decreases n,
    {
        n = n / 2;
    }
    n == 1
}

fn page_magic_bytes() -> (r: Vec<u8>)
    ensures
        r@ == page_magic(),
{
    let r = vec![66u8, 83u8, 76u8, 84u8, 80u8, 65u8, 71u8, 69u8];
    assert(r@ =~= page_magic());
    r
}

/// Page 1 of a new file of pages of `page_size` bytes: file header, empty
/// free list, zero padding.
pub fn file_header_page(page_size: u32) -> (r: Vec<u8>)
    requires
        valid_page_size(page_size),
    ensures
        r@ == file_header_image(page_size, 0),
        r@.len() == page_size,
{
    proof {
        lemma_le_lengths(FORMAT_VERSION, 0);
        lemma_le_lengths(page_size, 0);
    }
    let mut r: Vec<u8> = Vec::new();
    r.push(PAGE_TYPE_FILE_HEADER);
    let z = zeroed(9);
    append_bytes(&mut r, z.as_slice());
    let m = page_magic_bytes();
    append_bytes(&mut r, m.as_slice());
    let v = u32_to_le_bytes(FORMAT_VERSION);
    append_bytes(&mut r, v.as_slice());
    let v = u32_to_le_bytes(page_size);
    append_bytes(&mut r, v.as_slice());
    let v = u64_to_le_bytes(0);
    append_bytes(&mut r, v.as_slice());
    let z = zeroed((page_size - 34) as usize);
    append_bytes(&mut r, z.as_slice());
    assert(r@ =~= file_header_image(page_size, 0));
    r
}

/// Validates the first bytes of a data file and reads its page size and
/// free-list head.
pub fn parse_preamble(preamble: &[u8]) -> (r: Result<(u32, PageId), PagerError>)
    requires
        preamble@.len() >= PREAMBLE_READ_SIZE,
    ensures
        r == preamble_result(preamble@),
{
    let m = page_magic_bytes();
    let mut i: usize = 0;
    let mut same = true;
    while i < 8
        invariant
            i <= 8,
            preamble@.len() >= 64,
            m@ == page_magic(),
            same == (forall|j: int| 0 <= j < i ==> preamble@[10 + j] == page_magic()[j]),
        decreases 8 - i,
    {
        if preamble[MAGIC_OFFSET + i] != m[i] {
            same = false;
        }
        i += 1;
    }
    proof {
        if same {
            assert(preamble@.subrange(10, 18) =~= page_magic());
        } else {
            let j = choose|j: int| 0 <= j < 8 && preamble@[10 + j] != page_magic()[j];
            assert(preamble@.subrange(10, 18)[j] != page_magic()[j]);
        }
    }
    if !same {
        return Err(PagerError::BadMagic);
    }
    let version = read_u32_at(preamble, VERSION_OFFSET);
    if version != FORMAT_VERSION {
        return Err(PagerError::UnsupportedVersion(version));
    }
    let page_size = read_u32_at(preamble, PAGE_SIZE_OFFSET);
    if !is_valid_page_size(page_size) {
        return Err(PagerError::InvalidPageSize(page_size));
    }
    let head = read_u64_at(preamble, FREE_TRUNK_HEAD_OFFSET);
    Ok((page_size, head))
}

/// A file header written for a valid page size reads back as that page
/// size and free-list head.
pub proof fn lemma_file_header_round_trip(page_size: u32, free_trunk_head: u64)
    requires
        valid_page_size(page_size),
    ensures
        file_header_image(page_size, free_trunk_head).len() == page_size,
        preamble_result(file_header_image(page_size, free_trunk_head)) == Ok::<
            (u32, u64),
            PagerError,
        >((page_size, free_trunk_head)),
{
    lemma_le_lengths(FORMAT_VERSION, free_trunk_head);
    lemma_le_lengths(page_size, free_trunk_head);
    let b = file_header_image(page_size, free_trunk_head);
    assert(b.subrange(10, 18) =~= page_magic());
    assert(b.subrange(18, 22) =~= le32(FORMAT_VERSION));
    assert(b.subrange(22, 26) =~= le32(page_size));
    assert(b.subrange(26, 34) =~= le64(free_trunk_head));
}

/// Taking the last leaf off a trunk page keeps its successor and the other
/// leaves.
pub proof fn lemma_popped_trunk(b: Seq<u8>)
    requires
        trunk_well_formed(b),
        trunk_len(b) > 0,
    ensures
        popped_trunk(b).len() == b.len(),
        trunk_len(popped_trunk(b)) == trunk_len(b) - 1,
        trunk_leaves(popped_trunk(b)) == trunk_leaves(b).drop_last(),
        trunk_next(popped_trunk(b)) == trunk_next(b),
        trunk_well_formed(popped_trunk(b)),
{
    let n = trunk_len(b);
    let t = popped_trunk(b);
    lemma_le16((n - 1) as nat);
    lemma_read_overwrite(b, 18, le16((n - 1) as nat));
    assert(t.subrange(18, 20) == le16((n - 1) as nat));
    assert(t.subrange(10, 18) =~= b.subrange(10, 18));
    assert forall|i: int| 0 <= i < n - 1 implies #[trigger] read64(t, 20 + 8 * i) == read64(
        b,
        20 + 8 * i,
    ) by {
        assert(t.subrange(20 + 8 * i, 20 + 8 * i + 8) =~= b.subrange(20 + 8 * i, 20 + 8 * i + 8));
    }
    assert(trunk_leaves(t) =~= trunk_leaves(b).drop_last());
}

/// Appending a leaf to a trunk page with room keeps its successor and its
/// leaves, and lists the new leaf last.
pub proof fn lemma_pushed_trunk(b: Seq<u8>, page_id: u64)
    requires
        20 + 8 * (trunk_len(b) + 1) <= b.len(),
        trunk_len(b) < 65535,
    ensures
        pushed_trunk(b, page_id).len() == b.len(),
        trunk_len(pushed_trunk(b, page_id)) == trunk_len(b) + 1,
        trunk_leaves(pushed_trunk(b, page_id)) == trunk_leaves(b).push(page_id),
        trunk_next(pushed_trunk(b, page_id)) == trunk_next(b),
        trunk_well_formed(pushed_trunk(b, page_id)),
{
    let n = trunk_len(b);
    let leaf_off: int = 20 + 8 * n as int;
    let t1 = overwrite(b, leaf_off, le64(page_id));
    let t = pushed_trunk(b, page_id);
    lemma_le_lengths(0, page_id);
    lemma_le16(n + 1);
    lemma_read_overwrite(b, leaf_off, le64(page_id));
    lemma_read_overwrite(t1, 18, le16(n + 1));
    assert(t.subrange(18, 20) == le16(n + 1));
    assert(t.subrange(10, 18) =~= b.subrange(10, 18));
    assert(t.subrange(leaf_off, leaf_off + 8) =~= le64(page_id));
    assert forall|i: int| 0 <= i < n implies #[trigger] read64(t, 20 + 8 * i) == read64(
        b,
        20 + 8 * i,
    ) by {
        assert(t.subrange(20 + 8 * i, 20 + 8 * i + 8) =~= b.subrange(20 + 8 * i, 20 + 8 * i + 8));
    }
    assert(trunk_leaves(t) =~= trunk_leaves(b).push(page_id));
}

/// Freeing a page onto a head trunk with room and then allocating hands
/// that same page back, and leaves the trunk listing what it listed before.
pub proof fn lemma_free_then_allocate(b: Seq<u8>, page_id: u64)
    requires
        20 + 8 * (trunk_len(b) + 1) <= b.len(),
        trunk_len(b) < 65535,
    ensures
        trunk_well_formed(pushed_trunk(b, page_id)),
        trunk_len(pushed_trunk(b, page_id)) > 0,
        trunk_leaves(pushed_trunk(b, page_id)).last() == page_id,
        trunk_leaves(popped_trunk(pushed_trunk(b, page_id))) == trunk_leaves(b),
        trunk_next(popped_trunk(pushed_trunk(b, page_id))) == trunk_next(b),
{
    lemma_pushed_trunk(b, page_id);
    lemma_popped_trunk(pushed_trunk(b, page_id));
    assert(trunk_leaves(b).push(page_id).drop_last() =~= trunk_leaves(b));
}

/// A page freed as a new head trunk is empty and points at the old head: the
/// next allocation hands that page itself back and restores the old head.
pub proof fn lemma_new_trunk_then_allocate(page_size: u32, old_head: u64)
    requires
        valid_page_size(page_size),
    ensures
        new_trunk_image(page_size, old_head).len() == page_size,
        trunk_well_formed(new_trunk_image(page_size, old_head)),
        trunk_len(new_trunk_image(page_size, old_head)) == 0,
        trunk_next(new_trunk_image(page_size, old_head)) == old_head,
{
    let b = new_trunk_image(page_size, old_head);
    lemma_le_lengths(0, old_head);
    lemma_le16(0);
    assert(b.subrange(10, 18) =~= le64(old_head));
    assert(b.subrange(18, 20) =~= le16(0));
}

impl PagerState {
    /// A valid page size, and every page's end offset fits in a `u64`.
    pub open spec fn wf(self) -> bool {
        &&& valid_page_size(self@.page_size)
        &&& self@.page_count * self@.page_size <= u64::MAX
    }

    /// The state of a newly created file: only page 1 exists and nothing is
    /// free.
    pub fn create(page_size: u32) -> (r: Result<PagerState, PagerError>)
        ensures
            valid_page_size(page_size) ==> r is Ok && r->Ok_0.wf() && r->Ok_0@ == (PagerView {
                page_size,
                page_count: 1,
                free_trunk_head: 0,
            }),
            !valid_page_size(page_size) ==> r == Err::<PagerState, PagerError>(
                PagerError::InvalidPageSize(page_size),
            ),
    {
        if !is_valid_page_size(page_size) {
            return Err(PagerError::InvalidPageSize(page_size));
        }
        Ok(PagerState { page_size, page_count: 1, free_trunk_head: 0 })
    }

    /// The state of an existing file from its first bytes and its length.
    pub fn open(preamble: &[u8], file_len: u64) -> (r: Result<PagerState, PagerError>)
        requires
            preamble@.len() >= PREAMBLE_READ_SIZE,
        ensures
            match preamble_result(preamble@) {
                Err(e) => r == Err::<PagerState, PagerError>(e),
                Ok((page_size, head)) => r is Ok && r->Ok_0.wf() && r->Ok_0@ == (PagerView {
                    page_size,
                    page_count: file_len / (page_size as u64),
                    free_trunk_head: head,
                }),
            },
    {
        match parse_preamble(preamble) {
            Err(e) => Err(e),
            Ok((page_size, head)) => {
                let page_count = file_len / (page_size as u64);
                assert(page_count * page_size <= file_len) by (nonlinear_arith)
                    requires
                        page_count == file_len / (page_size as u64),
                        page_size > 0,
                ;
                Ok(PagerState { page_size, page_count, free_trunk_head: head })
            },
        }
    }

    pub fn page_size(&self) -> (r: u32)
        ensures
            r == self@.page_size,
    {
        self.page_size
    }

    pub fn page_count(&self) -> (r: u64)
        ensures
            r == self@.page_count,
    {
        self.page_count
    }

    pub fn free_trunk_head(&self) -> (r: PageId)
        ensures
            r == self@.free_trunk_head,
    {
        self.free_trunk_head
    }

    /// How many leaf ids one trunk page holds.
    pub fn trunk_capacity(&self) -> (r: usize)
        requires
            self.wf(),
        ensures
            r == spec_trunk_capacity(self@.page_size),
    {
        (self.page_size as usize - TRUNK_HEADER_SIZE) / TRUNK_LEAF_SIZE
    }

    /// `Ok` when `page_id` names an existing page.
    pub fn check_range(&self, page_id: PageId) -> (r: Result<(), PagerError>)
        ensures
            r is Ok <==> 1 <= page_id <= self@.page_count,
            r is Err ==> r == Err::<(), PagerError>(PagerError::PageOutOfRange(page_id)),
    {
        if page_id == 0 || page_id > self.page_count {
            return Err(PagerError::PageOutOfRange(page_id));
        }
        Ok(())
    }

    /// `Ok` when a buffer of `len` bytes holds exactly one page.
    pub fn check_buffer_len(&self, len: usize) -> (r: Result<(), PagerError>)
        ensures
            r is Ok <==> len == self@.page_size,
            r is Err ==> r == Err::<(), PagerError>(
                PagerError::BufferLengthMismatch { expected: self@.page_size as usize, actual: len },
            ),
    {
        if len != self.page_size as usize {
            return Err(PagerError::BufferLengthMismatch {
                expected: self.page_size as usize,
                actual: len,
            });
        }
        Ok(())
    }

    /// Where page `page_id` starts in the file, for a read or write of a
    /// buffer of `buf_len` bytes; the range check comes first.
    pub fn locate_page(&self, page_id: PageId, buf_len: usize) -> (r: Result<u64, PagerError>)
        requires
            self.wf(),
        ensures
            !(1 <= page_id <= self@.page_count) ==> r == Err::<u64, PagerError>(
                PagerError::PageOutOfRange(page_id),
            ),
            1 <= page_id <= self@.page_count && buf_len != self@.page_size ==> r == Err::<
                u64,
                PagerError,
            >(
                PagerError::BufferLengthMismatch { expected: self@.page_size as usize, actual: buf_len },
            ),
            1 <= page_id <= self@.page_count && buf_len == self@.page_size ==> r is Ok && r->Ok_0
                == (page_id - 1) * self@.page_size,
    {
        self.check_range(page_id)?;
        self.check_buffer_len(buf_len)?;
        assert((page_id - 1) * self.page_size <= self.page_count * self.page_size) by (nonlinear_arith)
            requires
                1 <= page_id <= self.page_count,
        ;
        Ok((page_id - 1) * self.page_size as u64)
    }

    /// How to make page `page_id` exist: `None` when it already does, else
    /// the file length to grow to (then call [`PagerState::note_extended`]).
    pub fn plan_extend(&self, page_id: PageId) -> (r: Result<Option<u64>, PagerError>)
        requires
            self.wf(),
            page_id * self@.page_size <= u64::MAX,
        ensures
            page_id == 0 ==> r == Err::<Option<u64>, PagerError>(PagerError::PageOutOfRange(0)),
            page_id != 0 && page_id <= self@.page_count ==> r == Ok::<Option<u64>, PagerError>(None),
            page_id > self@.page_count ==> r is Ok && r->Ok_0 is Some && r->Ok_0->0 == page_id
                * self@.page_size,
    {
        if page_id == 0 {
            return Err(PagerError::PageOutOfRange(0));
        }
        if page_id <= self.page_count {
            return Ok(None);
        }
        Ok(Some(page_id * self.page_size as u64))
    }

    /// Records that the file now ends after page `page_id`.
    pub fn note_extended(&mut self, page_id: PageId)
        requires
            old(self).wf(),
            page_id * old(self)@.page_size <= u64::MAX,
        ensures
            final(self).wf(),
            final(self)@ == (PagerView { page_count: page_id, ..old(self)@ }),
    {
        self.page_count = page_id;
    }

    /// The first step of an allocation: grow the file when the free list is
    /// empty, else read its head trunk.
    pub fn plan_allocate(&self) -> (r: AllocPlan)
        requires
            self.wf(),
            self@.free_trunk_head == 0 ==> (self@.page_count + 1) * self@.page_size <= u64::MAX,
        ensures
            self@.free_trunk_head == 0 ==> (r matches AllocPlan::Grow { page_id, new_len } && page_id
                == self@.page_count + 1 && new_len == page_id * self@.page_size),
            self@.free_trunk_head != 0 ==> r == (AllocPlan::ReadTrunk {
                trunk_id: self@.free_trunk_head,
            }),
    {
        if self.free_trunk_head == 0 {
            assert(self.page_count + 1 <= (self.page_count + 1) * self.page_size) by (nonlinear_arith)
                requires
                    self.page_size >= 1,
            ;
            let page_id = self.page_count + 1;
            AllocPlan::Grow { page_id, new_len: page_id * self.page_size as u64 }
        } else {
            AllocPlan::ReadTrunk { trunk_id: self.free_trunk_head }
        }
    }

    /// Allocates from the head trunk page `trunk`: its last leaf if it has
    /// one, else the trunk page itself, whose successor becomes the head.
    /// `None` when the trunk lists more leaves than the page holds.
    pub fn take_from_trunk(&mut self, trunk: &[u8]) -> (r: Option<TrunkTake>)
        requires
            old(self).wf(),
            trunk@.len() == old(self)@.page_size,
        ensures
            final(self).wf(),
            !trunk_well_formed(trunk@) ==> r is None && final(self)@ == old(self)@,
            trunk_well_formed(trunk@) && trunk_len(trunk@) > 0 ==> final(self)@ == old(self)@
                && match r {
                Some(TrunkTake::Leaf { page_id, trunk: t }) => {
                    &&& page_id == trunk_leaves(trunk@).last()
                    &&& t@ == popped_trunk(trunk@)
                    &&& t@.len() == trunk@.len()
                    &&& trunk_leaves(t@) == trunk_leaves(trunk@).drop_last()
                    &&& trunk_next(t@) == trunk_next(trunk@)
                },
                _ => false,
            },
            trunk_well_formed(trunk@) && trunk_len(trunk@) == 0 ==> final(self)@ == (PagerView {
                free_trunk_head: trunk_next(trunk@),
                ..old(self)@
            }) && r == Some(
                TrunkTake::Exhausted {
                    page_id: old(self)@.free_trunk_head,
                    new_head: trunk_next(trunk@),
                },
            ),
    {
        let num_leaves = read_u16_at(trunk, TRUNK_NUM_LEAVES_OFFSET);
        let len = trunk.len();
        if num_leaves > (len - TRUNK_HEADER_SIZE) / TRUNK_LEAF_SIZE {
            return None;
        }
        if num_leaves > 0 {
            let leaf_off = TRUNK_HEADER_SIZE + (num_leaves - 1) * TRUNK_LEAF_SIZE;
            let page_id = read_u64_at(trunk, leaf_off);
            let mut t: Vec<u8> = Vec::new();
            append_bytes(&mut t, trunk);
            assert(t@ =~= trunk@);
            let v = u16_to_le_bytes((num_leaves - 1) as u16);
            proof {
                lemma_le16((num_leaves - 1) as nat);
            }
            put_bytes(&mut t, TRUNK_NUM_LEAVES_OFFSET, v.as_slice());
            proof {
                lemma_popped_trunk(trunk@);
            }
            Some(TrunkTake::Leaf { page_id, trunk: t })
        } else {
            let next = read_u64_at(trunk, TRUNK_NEXT_OFFSET);
            let page_id = self.free_trunk_head;
            self.free_trunk_head = next;
            Some(TrunkTake::Exhausted { page_id, new_head: next })
        }
    }

    /// The first step of freeing page `page_id`: the range check, then the
    /// head trunk to offer it to, if there is one.
    pub fn plan_free(&self, page_id: PageId) -> (r: Result<FreePlan, PagerError>)
        ensures
            !(1 <= page_id <= self@.page_count) ==> r == Err::<FreePlan, PagerError>(
                PagerError::PageOutOfRange(page_id),
            ),
            1 <= page_id <= self@.page_count && self@.free_trunk_head != 0 ==> r == Ok::<
                FreePlan,
                PagerError,
            >(FreePlan::ReadHead { trunk_id: self@.free_trunk_head }),
            1 <= page_id <= self@.page_count && self@.free_trunk_head == 0 ==> r == Ok::<
                FreePlan,
                PagerError,
            >(FreePlan::StartTrunk),
    {
        self.check_range(page_id)?;
        if self.free_trunk_head != 0 {
            Ok(FreePlan::ReadHead { trunk_id: self.free_trunk_head })
        } else {
            Ok(FreePlan::StartTrunk)
        }
    }

    /// Appends `page_id` to the head trunk page `trunk` when it has room,
    /// giving the trunk page to write back; `None` when it is full.
    pub fn push_to_trunk(&self, trunk: &[u8], page_id: PageId) -> (r: Option<Vec<u8>>)
        requires
            self.wf(),
            trunk@.len() == self@.page_size,
        ensures
            trunk_len(trunk@) >= spec_trunk_capacity(self@.page_size) ==> r is None,
            trunk_len(trunk@) < spec_trunk_capacity(self@.page_size) ==> match r {
                Some(t) => {
                    &&& t@ == pushed_trunk(trunk@, page_id)
                    &&& t@.len() == trunk@.len()
                    &&& trunk_len(trunk@) < 65535 ==> {
                        &&& trunk_leaves(t@) == trunk_leaves(trunk@).push(page_id)
                        &&& trunk_next(t@) == trunk_next(trunk@)
                        &&& trunk_well_formed(t@)
                    }
                },
                None => false,
            },
    {
        let num_leaves = read_u16_at(trunk, TRUNK_NUM_LEAVES_OFFSET);
        let capacity = self.trunk_capacity();
        if num_leaves >= capacity {
            return None;
        }
        let leaf_off = TRUNK_HEADER_SIZE + num_leaves * TRUNK_LEAF_SIZE;
        let mut t: Vec<u8> = Vec::new();
        append_bytes(&mut t, trunk);
        assert(t@ =~= trunk@);
        let v = u64_to_le_bytes(page_id);
        proof {
            lemma_le_lengths(0, page_id);
        }
        put_bytes(&mut t, leaf_off, v.as_slice());
        let ghost t1 = t@;
        proof {
            assert(capacity * 8 <= self.page_size - 20) by (nonlinear_arith)
                requires
                    capacity == (self.page_size - 20) / 8,
                    self.page_size >= 64,
            ;
        }
        let count: u16 = if num_leaves < 65535 { (num_leaves + 1) as u16 } else { 0 };
        let v = u16_to_le_bytes(count);
        put_bytes(&mut t, TRUNK_NUM_LEAVES_OFFSET, v.as_slice());
        proof {
            let b = trunk@;
            lemma_le16(count as nat);
            lemma_read_overwrite(t1, 18, le16(count as nat));
            assert(t@ == pushed_trunk(b, page_id));
            if num_leaves < 65535 {
                lemma_pushed_trunk(b, page_id);
            }
        }
        Some(t)
    }

    /// A new trunk page, empty, whose successor is the current head.
    pub fn new_trunk_page(&self) -> (r: Vec<u8>)
        requires
            self.wf(),
        ensures
            r@ == new_trunk_image(self@.page_size, self@.free_trunk_head),
            r@.len() == self@.page_size,
            trunk_len(r@) == 0,
            trunk_next(r@) == self@.free_trunk_head,
            trunk_well_formed(r@),
    {
        proof {
            lemma_le_lengths(0, self.free_trunk_head);
            lemma_le16(0);
        }
        let mut r: Vec<u8> = Vec::new();
        r.push(PAGE_TYPE_FREE_TRUNK);
        let z = zeroed(9);
        append_bytes(&mut r, z.as_slice());
        let v = u64_to_le_bytes(self.free_trunk_head);
        append_bytes(&mut r, v.as_slice());
        let v = u16_to_le_bytes(0);
        append_bytes(&mut r, v.as_slice());
        let z = zeroed(self.page_size as usize - TRUNK_HEADER_SIZE);
        append_bytes(&mut r, z.as_slice());
        assert(r@ =~= new_trunk_image(self.page_size, self.free_trunk_head));
        assert(r@.subrange(10, 18) =~= le64(self.free_trunk_head));
        assert(r@.subrange(18, 20) =~= le16(0));
        r
    }

    /// Makes `head` the first trunk of the free list.
    pub fn set_free_trunk_head(&mut self, head: PageId)
        requires
            old(self).wf(),
        ensures
            final(self).wf(),
            final(self)@ == (PagerView { free_trunk_head: head, ..old(self)@ }),
    {
        self.free_trunk_head = head;
    }
}

} // verus!
