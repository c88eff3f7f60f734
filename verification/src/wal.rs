//! Write-ahead-log records: page diffs, their framing and checksums, and the
//! decisions that redo recovery takes on each record.

use crate::crc32c::{crc32c, spec_crc32c};
use crate::le::{
    append_bytes, le16, le32, le64, lemma_le16, lemma_le_lengths, lemma_read_overwrite, overwrite,
    put_bytes, read16, read32, read64, read_u16_at, read_u32_at, read_u64_at, zeroed, zeros, U16_LIMIT,
};
use crate::pager::{pager_message_is, PageId, PagerError};
use crate::text::{decimal, decimal_string};
use vstd::string::StringExecFns;
use vstd::bytes::*;
use vstd::prelude::*;

verus! {

broadcast use vstd::seq_lib::group_seq_properties;

/// A log sequence number: the byte offset of a record in the log file.
pub type Lsn = u64;

/// Size of the log file's preamble; records start right after it.
pub const LOG_PREAMBLE_SIZE: usize = 64;

pub const LOG_FORMAT_VERSION: u32 = 1;

pub const RECORD_PAGE_DIFF: u8 = 0;

pub const RECORD_COMMIT: u8 = 1;

pub const RECORD_CHECKPOINT: u8 = 2;

/// `base_page_id` of a page diff that has no base page: page id 0 is never
/// a physical page, and redo then starts from an all-zero page.
pub const NO_BASE: u64 = 0;

#[derive(Debug)]
pub enum WalError {
    Io(std::io::Error),
    BadMagic,
    UnsupportedVersion(u32),
    Pager(PagerError),
}

impl From<std::io::Error> for WalError {
    fn from(e: std::io::Error) -> (r: Self) {
        WalError::Io(e)
    }
}

impl vstd::std_specs::convert::FromSpecImpl<std::io::Error> for WalError {
    open spec fn obeys_from_spec() -> bool {
        true
    }

    open spec fn from_spec(e: std::io::Error) -> Self {
        WalError::Io(e)
    }
}

impl From<PagerError> for WalError {
    fn from(e: PagerError) -> (r: Self) {
        WalError::Pager(e)
    }
}

impl vstd::std_specs::convert::FromSpecImpl<PagerError> for WalError {
    open spec fn obeys_from_spec() -> bool {
        true
    }

    open spec fn from_spec(e: PagerError) -> Self {
        WalError::Pager(e)
    }
}

/// `m` is the text of error `e`.
pub open spec fn wal_message_is(e: WalError, m: Seq<char>) -> bool {
    match e {
        WalError::Io(_) => exists|t: Seq<char>| m == "I/O error: "@ + t,
        WalError::BadMagic => m == "not a Basalt log file (bad magic bytes)"@,
        WalError::UnsupportedVersion(v) => m == "unsupported log file format version "@ + decimal(
            v as nat,
        ),
        WalError::Pager(e) => pager_message_is(e, m),
    }
}

impl WalError {
    /// A human-readable description of the error.
    pub fn message(&self) -> (r: String)
        ensures
            wal_message_is(*self, r@),
    {
        match self {
            WalError::Io(e) => {
                let mut s = String::from_str("I/O error: ");
                let t = e.to_string();
                s.append(t.as_str());
                s
            },
            WalError::BadMagic => String::from_str("not a Basalt log file (bad magic bytes)"),
            WalError::UnsupportedVersion(v) => {
                let mut s = String::from_str("unsupported log file format version ");
                let d = decimal_string(*v as u64);
                s.append(d.as_str());
                s
            },
            WalError::Pager(e) => e.message(),
        }
    }
}

/// `b"BSLTLOG_"`.
pub open spec fn log_magic() -> Seq<u8> {
    seq![66u8, 83u8, 76u8, 84u8, 76u8, 79u8, 71u8, 95u8]
}

/// The preamble of a new log: magic, format version, zero padding.
pub open spec fn log_preamble_image() -> Seq<u8> {
    log_magic() + le32(LOG_FORMAT_VERSION) + zeros(52)
}

/// What opening a log whose first bytes are `b` concludes.
pub open spec fn log_preamble_result(b: Seq<u8>) -> Result<(), WalError> {
    if b.subrange(0, 8) != log_magic() {
        Err(WalError::BadMagic)
    } else if read32(b, 8) != LOG_FORMAT_VERSION {
        Err(WalError::UnsupportedVersion(read32(b, 8)))
    } else {
        Ok(())
    }
}

/// A record as laid out in the log: payload length, type, payload, and the
/// CRC-32C of type and payload.
pub open spec fn record_image(record_type: u8, payload: Seq<u8>) -> Seq<u8> {
    le32(payload.len() as u32) + seq![record_type] + payload + le32(
        spec_crc32c(seq![record_type] + payload),
    )
}

/// The record that starts at `pos` in `log`: its type, its payload and
/// where the next record starts. `None` when its header, payload or
/// trailer runs past the end of the log, or its checksum does not match:
/// a torn or corrupt tail.
#[verifier::opaque]
pub open spec fn record_at(log: Seq<u8>, pos: int) -> Option<(u8, Seq<u8>, int)> {
    if pos + 5 > log.len() {
        None
    } else {
        let n = read32(log, pos) as int;
        let t = log[pos + 4];
        let end = pos + 5 + n + 4;
        if end > log.len() {
            None
        } else if read32(log, pos + 5 + n) != spec_crc32c(
            seq![t] + log.subrange(pos + 5, pos + 5 + n),
        ) {
            None
        } else {
            Some((t, log.subrange(pos + 5, pos + 5 + n), end))
        }
    }
}

/// A record ends after it starts and within the log.
pub proof fn lemma_record_at_advances(log: Seq<u8>, pos: int)
    ensures
        record_at(log, pos) matches Some((t, p, next)) ==> pos < next <= log.len(),
{
    reveal(record_at);
}

fn log_magic_bytes() -> (r: Vec<u8>)
    ensures
        r@ == log_magic(),
{
    let r = vec![66u8, 83u8, 76u8, 84u8, 76u8, 79u8, 71u8, 95u8];
    assert(r@ =~= log_magic());
    r
}

/// The preamble written at the start of a new log file.
pub fn log_preamble() -> (r: Vec<u8>)
    ensures
        r@ == log_preamble_image(),
        r@.len() == LOG_PREAMBLE_SIZE,
{
    proof {
        lemma_le_lengths(LOG_FORMAT_VERSION, 0);
    }
    let mut r = log_magic_bytes();
    let v = u32_to_le_bytes(LOG_FORMAT_VERSION);
    append_bytes(&mut r, v.as_slice());
    let z = zeroed(52);
    append_bytes(&mut r, z.as_slice());
    r
}

/// Validates the preamble of a log file.
pub fn check_log_preamble(preamble: &[u8]) -> (r: Result<(), WalError>)
    requires
        preamble@.len() >= LOG_PREAMBLE_SIZE,
    ensures
        r == log_preamble_result(preamble@),
{
    let m = log_magic_bytes();
    let mut i: usize = 0;
    let mut same = true;
    while i < 8
        invariant
            i <= 8,
            preamble@.len() >= 64,
            m@ == log_magic(),
            same == (forall|j: int| 0 <= j < i ==> preamble@[j] == log_magic()[j]),
        decreases 8 - i,
    {
        if preamble[i] != m[i] {
            same = false;
        }
        i += 1;
    }
    proof {
        if same {
            assert(preamble@.subrange(0, 8) =~= log_magic());
        } else {
            let j = choose|j: int| 0 <= j < 8 && preamble@[j] != log_magic()[j];
            assert(preamble@.subrange(0, 8)[j] != log_magic()[j]);
        }
    }
    if !same {
        return Err(WalError::BadMagic);
    }
    let version = read_u32_at(preamble, 8);
    if version != LOG_FORMAT_VERSION {
        return Err(WalError::UnsupportedVersion(version));
    }
    Ok(())
}

/// The preamble of a new log passes the check on opening it.
pub proof fn lemma_log_preamble_valid()
    ensures
        log_preamble_result(log_preamble_image()) == Ok::<(), WalError>(()),
{
    lemma_le_lengths(LOG_FORMAT_VERSION, 0);
    assert(log_preamble_image().subrange(0, 8) =~= log_magic());
    assert(log_preamble_image().subrange(8, 12) =~= le32(LOG_FORMAT_VERSION));
}

/// Frames `payload` as a record of type `record_type`.
pub fn frame_record(record_type: u8, payload: &[u8]) -> (r: Vec<u8>)
    requires
        payload@.len() <= u32::MAX,
    ensures
        r@ == record_image(record_type, payload@),
{
    let mut checked: Vec<u8> = Vec::new();
    checked.push(record_type);
    append_bytes(&mut checked, payload);
    let checksum = crc32c(checked.as_slice());
    let mut r = u32_to_le_bytes(payload.len() as u32);
    append_bytes(&mut r, checked.as_slice());
    let v = u32_to_le_bytes(checksum);
    append_bytes(&mut r, v.as_slice());
    assert(checked@ =~= seq![record_type] + payload@);
    assert(r@ =~= record_image(record_type, payload@));
    r
}

/// Reads the record at `pos` of `log`; `None` at a torn or corrupt tail.
pub fn read_record(log: &[u8], pos: usize) -> (r: Option<(u8, Vec<u8>, usize)>)
    ensures
        match record_at(log@, pos as int) {
            None => r is None,
            Some((t, p, next)) => match r {
                Some((t2, p2, next2)) => t2 == t && p2@ == p && next2 == next,
                None => false,
            },
        },
{
    reveal(record_at);
    let len = log.len();
    if pos > len || len - pos < 5 {
        return None;
    }
    let n = read_u32_at(log, pos) as usize;
    let t = log[pos + 4];
    if len - pos - 5 < n || len - pos - 5 - n < 4 {
        return None;
    }
    let start = pos + 5;
    let end = start + n;
    let mut checked: Vec<u8> = Vec::new();
    checked.push(t);
    let mut payload: Vec<u8> = Vec::new();
    let mut k: usize = start;
    while k < end
        invariant
            start <= k <= end <= log@.len(),
            end == start + n,
            payload@ == log@.subrange(start as int, k as int),
        decreases end - k,
    {
        payload.push(log[k]);
        k += 1;
    }
    append_bytes(&mut checked, payload.as_slice());
    let expected = read_u32_at(log, start + n);
    assert(checked@ =~= seq![t] + log@.subrange(start as int, (start + n) as int));
    if crc32c(checked.as_slice()) != expected {
        return None;
    }
    Some((t, payload, start + n + 4))
}

/// A framed record reads back as its type and payload, and the next record
/// starts right after it.
pub proof fn lemma_record_round_trip(prefix: Seq<u8>, record_type: u8, payload: Seq<u8>, rest: Seq<u8>)
    requires
        payload.len() <= u32::MAX,
    ensures
        record_at(prefix + record_image(record_type, payload) + rest, prefix.len() as int) == Some(
            (
                record_type,
                payload,
                (prefix.len() + record_image(record_type, payload).len()) as int,
            ),
        ),
        record_image(record_type, payload).len() == payload.len() + 9,
{
    reveal(record_at);
    lemma_le_lengths(payload.len() as u32, 0);
    lemma_le_lengths(spec_crc32c(seq![record_type] + payload), 0);
    let log = prefix + record_image(record_type, payload) + rest;
    let p = prefix.len() as int;
    let n = payload.len() as int;
    assert(log.subrange(p, p + 4) =~= le32(payload.len() as u32));
    assert(log[p + 4] == record_type);
    assert(log.subrange(p + 5, p + 5 + n) =~= payload);
    assert(log.subrange(p + 5 + n, p + 5 + n + 4) =~= le32(
        spec_crc32c(seq![record_type] + payload),
    ));
}

/// `ranges` is what `diff_ranges(base, new)` returns: nothing when the two
/// buffers are equal, else the single range from the first to the last
/// differing byte, carrying the new bytes there.
pub open spec fn is_diff_of(base: Seq<u8>, new: Seq<u8>, ranges: Seq<(usize, Seq<u8>)>) -> bool {
    if base == new {
        ranges.len() == 0
    } else {
        &&& ranges.len() == 1
        &&& {
            let start = ranges[0].0 as int;
            let end = start + ranges[0].1.len();
            &&& 0 <= start < end <= new.len()
            &&& base[start] != new[start]
            &&& base[end - 1] != new[end - 1]
            &&& forall|j: int| 0 <= j < start ==> base[j] == new[j]
            &&& forall|j: int| end <= j < new.len() ==> base[j] == new[j]
            &&& ranges[0].1 == new.subrange(start, end)
        }
    }
}

/// Diffs two equal-length page buffers by trimming their common prefix and
/// common suffix: at most one changed range, none if they are identical.
pub fn diff_ranges(base: &[u8], new: &[u8]) -> (r: Vec<(usize, Vec<u8>)>)
    requires
        base@.len() == new@.len(),
    ensures
        is_diff_of(base@, new@, r@.map_values(|e: (usize, Vec<u8>)| (e.0, e.1@))),
{
    let len = base.len();
    let mut prefix: usize = 0;
    while prefix < len && base[prefix] == new[prefix]
        invariant
            prefix <= len == base@.len() == new@.len(),
            forall|j: int| 0 <= j < prefix ==> base@[j] == new@[j],
        decreases len - prefix,
    {
        prefix += 1;
    }
    if prefix == len {
        assert(base@ =~= new@);
        return Vec::new();
    }
    let mut suffix: usize = 0;
    while suffix < len - prefix && base[len - 1 - suffix] == new[len - 1 - suffix]
        invariant
            prefix < len == base@.len() == new@.len(),
            suffix <= len - prefix,
            forall|j: int| len - suffix <= j < len ==> base@[j] == new@[j],
        decreases len - prefix - suffix,
    {
        suffix += 1;
    }
    let end = len - suffix;
    let mut changed: Vec<u8> = Vec::new();
    let mut k: usize = prefix;
    while k < end
        invariant
            prefix <= k <= end <= len == new@.len(),
            changed@ == new@.subrange(prefix as int, k as int),
        decreases end - k,
    {
        changed.push(new[k]);
        k += 1;
    }
    let mut out: Vec<(usize, Vec<u8>)> = Vec::new();
    out.push((prefix, changed));
    proof {
        assert(base@ != new@) by {
            assert(base@[prefix as int] != new@[prefix as int]);
        }
        let m = out@.map_values(|e: (usize, Vec<u8>)| (e.0, e.1@));
        assert(m[0] == (prefix, new@.subrange(prefix as int, end as int)));
    }
    out
}

/// One changed range of a page: where it starts and the bytes it holds.
pub open spec fn range_image(r: (nat, Seq<u8>)) -> Seq<u8> {
    le16(r.0) + le16(r.1.len()) + r.1
}

pub open spec fn ranges_image(rs: Seq<(nat, Seq<u8>)>) -> Seq<u8>
    decreases rs.len(),
{
    if rs.len() == 0 {
        Seq::empty()
    } else {
        range_image(rs[0]) + ranges_image(rs.drop_first())
    }
}

pub open spec fn base_field(base: Option<u64>) -> u64 {
    match base {
        Some(b) => b,
        None => NO_BASE,
    }
}

/// The payload of a page-diff record: new page id, base page id (or
/// [`NO_BASE`]), number of ranges, then each range as offset, length and
/// bytes.
pub open spec fn page_diff_image(new_page_id: u64, base: Option<u64>, rs: Seq<(nat, Seq<u8>)>) -> Seq<
    u8,
> {
    le64(new_page_id) + le64(base_field(base)) + le16(rs.len()) + ranges_image(rs)
}

/// `count` ranges read from `b` starting at `pos`; `None` if one runs past
/// the end of `b`.
pub open spec fn parse_ranges(b: Seq<u8>, pos: int, count: nat) -> Option<Seq<(nat, Seq<u8>)>>
    decreases count,
{
    if count == 0 {
        Some(Seq::empty())
    } else if pos < 0 || pos + 4 > b.len() {
        None
    } else {
        let len = read16(b, pos + 2);
        if pos + 4 + len > b.len() {
            None
        } else {
            match parse_ranges(b, pos + 4 + len, (count - 1) as nat) {
                None => None,
                Some(rest) => Some(seq![(read16(b, pos), b.subrange(pos + 4, pos + 4 + len))] + rest),
            }
        }
    }
}

/// A page-diff payload read back: new page id, base page, ranges.
pub open spec fn parse_page_diff(b: Seq<u8>) -> Option<(u64, Option<u64>, Seq<(nat, Seq<u8>)>)> {
    if b.len() < 18 {
        None
    } else {
        match parse_ranges(b, 18, read16(b, 16)) {
            None => None,
            Some(rs) => Some(
                (read64(b, 0), if read64(b, 8) == NO_BASE {
                    None
                } else {
                    Some(read64(b, 8))
                }, rs),
            ),
        }
    }
}

/// `page` with each range written over it in order; `None` if a range does
/// not fit in the page.
pub open spec fn apply_ranges(page: Seq<u8>, rs: Seq<(nat, Seq<u8>)>) -> Option<Seq<u8>>
    decreases rs.len(),
{
    if rs.len() == 0 {
        Some(page)
    } else if rs[0].0 + rs[0].1.len() > page.len() {
        None
    } else {
        apply_ranges(overwrite(page, rs[0].0 as int, rs[0].1), rs.drop_first())
    }
}

pub open spec fn nat_ranges(rs: Seq<(usize, Seq<u8>)>) -> Seq<(nat, Seq<u8>)> {
    rs.map_values(|r: (usize, Seq<u8>)| (r.0 as nat, r.1))
}

/// Ranges whose offsets, lengths and count fit their 16-bit fields.
pub open spec fn ranges_fit(rs: Seq<(nat, Seq<u8>)>) -> bool {
    &&& rs.len() <= U16_LIMIT
    &&& forall|i: int| 0 <= i < rs.len() ==> #[trigger] rs[i].0 <= U16_LIMIT && rs[i].1.len() <= U16_LIMIT
}

/// A decoded page-diff record.
pub struct PageDiff {
    pub new_page_id: PageId,
    pub base: Option<PageId>,
    pub ranges: Vec<(usize, Vec<u8>)>,
}

impl View for PageDiff {
    type V = (u64, Option<u64>, Seq<(nat, Seq<u8>)>);

    open spec fn view(&self) -> (u64, Option<u64>, Seq<(nat, Seq<u8>)>) {
        (
            self.new_page_id,
            self.base,
            nat_ranges(self.ranges@.map_values(|r: (usize, Vec<u8>)| (r.0, r.1@))),
        )
    }
}

pub open spec fn ranges_view(rs: Seq<(usize, Vec<u8>)>) -> Seq<(nat, Seq<u8>)> {
    nat_ranges(rs.map_values(|r: (usize, Vec<u8>)| (r.0, r.1@)))
}

proof fn lemma_ranges_image_push(rs: Seq<(nat, Seq<u8>)>, x: (nat, Seq<u8>))
    ensures
        ranges_image(rs.push(x)) == ranges_image(rs) + range_image(x),
    decreases rs.len(),
{
    if rs.len() == 0 {
        assert(rs.push(x).drop_first() =~= Seq::<(nat, Seq<u8>)>::empty());
        assert(ranges_image(rs.push(x).drop_first()) == Seq::<u8>::empty());
        assert(ranges_image(rs) == Seq::<u8>::empty());
        assert(ranges_image(rs.push(x)) =~= range_image(x));
    } else {
        lemma_ranges_image_push(rs.drop_first(), x);
        assert(rs.push(x).drop_first() =~= rs.drop_first().push(x));
        assert(ranges_image(rs.push(x)) =~= ranges_image(rs) + range_image(x));
    }
}

/// The payload of a page-diff record for the ranges `ranges` (as computed
/// by [`diff_ranges`]).
pub fn encode_page_diff(new_page_id: PageId, base: Option<PageId>, ranges: &Vec<(usize, Vec<u8>)>) -> (r: Vec<
    u8,
>)
    requires
        ranges_fit(ranges_view(ranges@)),
    ensures
        r@ == page_diff_image(new_page_id, base, ranges_view(ranges@)),
{
    let ghost rv = ranges_view(ranges@);
    proof {
        lemma_le_lengths(0, new_page_id);
        lemma_le_lengths(0, base_field(base));
        lemma_le16(ranges@.len());
    }
    let mut r = u64_to_le_bytes(new_page_id);
    let b = match base {
        Some(b) => b,
        None => NO_BASE,
    };
    let v = u64_to_le_bytes(b);
    append_bytes(&mut r, v.as_slice());
    let v = u16_to_le_bytes(ranges.len() as u16);
    append_bytes(&mut r, v.as_slice());
    let ghost head = r@;
    let mut i: usize = 0;
    while i < ranges.len()
        invariant
            i <= ranges@.len(),
            rv == ranges_view(ranges@),
            ranges_fit(rv),
            r@ == head + ranges_image(rv.take(i as int)),
        decreases ranges@.len() - i,
    {
        let off = ranges[i].0;
        let bytes = &ranges[i].1;
        assert(rv[i as int] == (off as nat, bytes@));
        proof {
            lemma_le16(off as nat);
            lemma_le16(bytes@.len());
            lemma_ranges_image_push(rv.take(i as int), rv[i as int]);
            assert(rv.take(i + 1) =~= rv.take(i as int).push(rv[i as int]));
        }
        let v = u16_to_le_bytes(off as u16);
        append_bytes(&mut r, v.as_slice());
        let v = u16_to_le_bytes(bytes.len() as u16);
        append_bytes(&mut r, v.as_slice());
        append_bytes(&mut r, bytes.as_slice());
        i += 1;
        assert(r@ =~= head + ranges_image(rv.take(i as int)));
    }
    assert(rv.take(ranges@.len() as int) =~= rv);
    assert(r@ =~= page_diff_image(new_page_id, base, rv));
    r
}

proof fn lemma_parse_ranges_image(
    prefix: Seq<u8>,
    rs: Seq<(nat, Seq<u8>)>,
    rest: Seq<u8>,
)
    requires
        ranges_fit(rs),
    ensures
        parse_ranges(prefix + ranges_image(rs) + rest, prefix.len() as int, rs.len()) == Some(rs),
    decreases rs.len(),
{
    if rs.len() > 0 {
        let x = rs[0];
        assert(x == rs[0]);
        lemma_le16(x.0);
        lemma_le16(x.1.len());
        let b = prefix + ranges_image(rs) + rest;
        let p = prefix.len() as int;
        let tail = rs.drop_first();
        assert(ranges_fit(tail)) by {
            assert forall|i: int| 0 <= i < tail.len() implies #[trigger] tail[i].0 <= U16_LIMIT
                && tail[i].1.len() <= U16_LIMIT by {
                assert(tail[i] == rs[i + 1]);
            }
        }
        let prefix2 = prefix + range_image(x);
        assert(b =~= prefix2 + ranges_image(tail) + rest);
        lemma_parse_ranges_image(prefix2, tail, rest);
        assert(b.subrange(p, p + 2) =~= le16(x.0));
        assert(b.subrange(p + 2, p + 4) =~= le16(x.1.len()));
        assert(b.subrange(p + 4, p + 4 + x.1.len()) =~= x.1);
        assert(seq![(read16(b, p), b.subrange(p + 4, p + 4 + read16(b, p + 2)))] + tail =~= rs);
    }
}

/// A page-diff payload reads back as the page ids and ranges it was
/// encoded from (a real base page is never page 0).
pub proof fn lemma_page_diff_round_trip(new_page_id: u64, base: Option<u64>, rs: Seq<(nat, Seq<u8>)>)
    requires
        ranges_fit(rs),
        base != Some(NO_BASE),
    ensures
        parse_page_diff(page_diff_image(new_page_id, base, rs)) == Some((new_page_id, base, rs)),
{
    lemma_le_lengths(0, new_page_id);
    lemma_le_lengths(0, base_field(base));
    lemma_le16(rs.len());
    let b = page_diff_image(new_page_id, base, rs);
    let prefix = le64(new_page_id) + le64(base_field(base)) + le16(rs.len());
    assert(b =~= prefix + ranges_image(rs) + Seq::<u8>::empty());
    lemma_parse_ranges_image(prefix, rs, Seq::empty());
    assert(b.subrange(0, 8) =~= le64(new_page_id));
    assert(b.subrange(8, 16) =~= le64(base_field(base)));
    assert(b.subrange(16, 18) =~= le16(rs.len()));
}

/// Decodes a page-diff payload; `None` when it is too short for what its
/// header announces.
pub fn decode_page_diff(payload: &[u8]) -> (r: Option<PageDiff>)
    ensures
        match parse_page_diff(payload@) {
            None => r is None,
            Some(v) => r is Some && r->0@ == v,
        },
{
    let len = payload.len();
    if len < 18 {
        return None;
    }
    let new_page_id = read_u64_at(payload, 0);
    let base_raw = read_u64_at(payload, 8);
    let count = read_u16_at(payload, 16);
    let base = if base_raw == NO_BASE {
        None
    } else {
        Some(base_raw)
    };
    let ghost b = payload@;
    let mut ranges: Vec<(usize, Vec<u8>)> = Vec::new();
    let mut pos: usize = 18;
    let mut i: usize = 0;
    while i < count
        invariant
            b == payload@,
            len == b.len(),
            len >= 18,
            count == read16(b, 16),
            new_page_id == read64(b, 0),
            base == (if read64(b, 8) == NO_BASE {
                None
            } else {
                Some(read64(b, 8))
            }),
            i <= count,
            18 <= pos <= len,
            match parse_ranges(b, pos as int, (count - i) as nat) {
                None => parse_ranges(b, 18, count as nat) is None,
                Some(rest) => parse_ranges(b, 18, count as nat) == Some(ranges_view(ranges@) + rest),
            },
        decreases count - i,
    {
        if len - pos < 4 {
            assert(parse_ranges(b, pos as int, (count - i) as nat) is None);
            return None;
        }
        let off = read_u16_at(payload, pos);
        let n = read_u16_at(payload, pos + 2);
        if len - pos - 4 < n {
            assert(parse_ranges(b, pos as int, (count - i) as nat) is None);
            return None;
        }
        let mut bytes: Vec<u8> = Vec::new();
        let mut k: usize = pos + 4;
        while k < pos + 4 + n
            invariant
                pos + 4 <= k <= pos + 4 + n <= len == payload@.len(),
                bytes@ == payload@.subrange(pos + 4, k as int),
            decreases pos + 4 + n - k,
        {
            bytes.push(payload[k]);
            k += 1;
        }
        let ghost before = ranges@;
        ranges.push((off, bytes));
        proof {
            assert(ranges_view(ranges@) =~= ranges_view(before) + seq![
                (off as nat, b.subrange(pos + 4, pos + 4 + n)),
            ]);
            match parse_ranges(b, pos + 4 + n, (count - i - 1) as nat) {
                None => {},
                Some(rest) => {
                    assert(ranges_view(ranges@) + rest =~= ranges_view(before) + (seq![
                        (off as nat, b.subrange(pos + 4, pos + 4 + n)),
                    ] + rest));
                },
            }
        }
        pos = pos + 4 + n;
        i += 1;
    }
    proof {
        assert(ranges_view(ranges@) + Seq::<(nat, Seq<u8>)>::empty() =~= ranges_view(ranges@));
    }
    Some(PageDiff { new_page_id, base, ranges })
}

/// The page that redo writes for `diff`: `base_page` (the base page's
/// bytes, or zeros when there is none) with each range written over it in
/// order; `None` when a range does not fit in the page.
pub fn redo_page(base_page: &[u8], diff: &PageDiff) -> (r: Option<Vec<u8>>)
    ensures
        match apply_ranges(base_page@, diff@.2) {
            None => r is None,
            Some(p) => r is Some && r->0@ == p,
        },
{
    let ghost rs = diff@.2;
    let mut page: Vec<u8> = Vec::new();
    append_bytes(&mut page, base_page);
    assert(page@ =~= base_page@);
    assert(rs.skip(0) =~= rs);
    let mut i: usize = 0;
    while i < diff.ranges.len()
        invariant
            rs == diff@.2,
            rs.len() == diff.ranges@.len(),
            i <= rs.len(),
            apply_ranges(base_page@, rs) == apply_ranges(page@, rs.skip(i as int)),
        decreases rs.len() - i,
    {
        let off = diff.ranges[i].0;
        let bytes = &diff.ranges[i].1;
        assert(rs[i as int] == (off as nat, bytes@));
        assert(rs.skip(i as int)[0] == rs[i as int]);
        assert(rs.skip(i as int).drop_first() =~= rs.skip(i + 1));
        let len = page.len();
        if off > len || len - off < bytes.len() {
            return None;
        }
        put_bytes(&mut page, off, bytes.as_slice());
        i += 1;
    }
    assert(rs.skip(rs.len() as int) =~= Seq::<(nat, Seq<u8>)>::empty());
    Some(page)
}

/// The ranges [`diff_ranges`] finds, written over the base page, give back
/// the new page.
pub proof fn lemma_apply_diff(base: Seq<u8>, new: Seq<u8>, rs: Seq<(usize, Seq<u8>)>)
    requires
        base.len() == new.len(),
        is_diff_of(base, new, rs),
    ensures
        apply_ranges(base, nat_ranges(rs)) == Some(new),
{
    let nr = nat_ranges(rs);
    if base == new {
        assert(nr.len() == 0);
    } else {
        let start = rs[0].0 as int;
        let bytes = rs[0].1;
        assert(nr[0] == (start as nat, bytes));
        assert(nr.drop_first() =~= Seq::<(nat, Seq<u8>)>::empty());
        assert(overwrite(base, start, bytes) =~= new);
        assert(apply_ranges(new, nr.drop_first()) == Some(new));
    }
}

/// Redo reproduces a logged page: the payload that [`encode_page_diff`]
/// writes for the ranges that [`diff_ranges`] finds between a base page and
/// a new page decodes to the same page ids, and redoing it over the base
/// page gives the new page.
pub proof fn lemma_redo_reproduces_page(
    new_page_id: u64,
    base: Option<u64>,
    base_bytes: Seq<u8>,
    new_bytes: Seq<u8>,
    rs: Seq<(usize, Seq<u8>)>,
)
    requires
        base_bytes.len() == new_bytes.len(),
        new_bytes.len() <= U16_LIMIT,
        is_diff_of(base_bytes, new_bytes, rs),
        base != Some(NO_BASE),
    ensures
        ranges_fit(nat_ranges(rs)),
        parse_page_diff(page_diff_image(new_page_id, base, nat_ranges(rs))) == Some(
            (new_page_id, base, nat_ranges(rs)),
        ),
        apply_ranges(base_bytes, nat_ranges(rs)) == Some(new_bytes),
{
    let nr = nat_ranges(rs);
    assert(ranges_fit(nr)) by {
        assert forall|i: int| 0 <= i < nr.len() implies #[trigger] nr[i].0 <= U16_LIMIT
            && nr[i].1.len() <= U16_LIMIT by {
            assert(nr[i] == (rs[i].0 as nat, rs[i].1));
        }
    }
    lemma_page_diff_round_trip(new_page_id, base, nr);
    lemma_apply_diff(base_bytes, new_bytes, rs);
}

/// The payload of a checkpoint record: the number of dirty-page-table
/// entries, then each entry's page id and recovery LSN.
pub open spec fn dpt_image(dpt: Seq<(u64, u64)>) -> Seq<u8>
    decreases dpt.len(),
{
    if dpt.len() == 0 {
        Seq::empty()
    } else {
        le64(dpt[0].0) + le64(dpt[0].1) + dpt_image(dpt.drop_first())
    }
}

proof fn lemma_dpt_image_push(dpt: Seq<(u64, u64)>, x: (u64, u64))
    ensures
        dpt_image(dpt.push(x)) == dpt_image(dpt) + le64(x.0) + le64(x.1),
    decreases dpt.len(),
{
    if dpt.len() == 0 {
        assert(dpt.push(x).drop_first() =~= Seq::<(u64, u64)>::empty());
        assert(dpt_image(dpt.push(x).drop_first()) == Seq::<u8>::empty());
        assert(dpt_image(dpt) == Seq::<u8>::empty());
        assert(dpt_image(dpt.push(x)) =~= dpt_image(dpt) + le64(x.0) + le64(x.1));
    } else {
        lemma_dpt_image_push(dpt.drop_first(), x);
        assert(dpt.push(x).drop_first() =~= dpt.drop_first().push(x));
        assert(dpt_image(dpt.push(x)) =~= dpt_image(dpt) + le64(x.0) + le64(x.1));
    }
}

/// The page-diff record for `ranges` (as computed by [`diff_ranges`]).
pub fn page_diff_record(new_page_id: PageId, base: Option<PageId>, ranges: &Vec<(usize, Vec<u8>)>) -> (r:
    Vec<u8>)
    requires
        ranges_fit(ranges_view(ranges@)),
        page_diff_image(new_page_id, base, ranges_view(ranges@)).len() <= u32::MAX,
    ensures
        r@ == record_image(
            RECORD_PAGE_DIFF,
            page_diff_image(new_page_id, base, ranges_view(ranges@)),
        ),
{
    let payload = encode_page_diff(new_page_id, base, ranges);
    frame_record(RECORD_PAGE_DIFF, payload.as_slice())
}

/// The commit record that makes `root` the current root.
pub fn commit_record(root: PageId) -> (r: Vec<u8>)
    ensures
        r@ == record_image(RECORD_COMMIT, le64(root)),
{
    let payload = u64_to_le_bytes(root);
    frame_record(RECORD_COMMIT, payload.as_slice())
}

/// The checkpoint record for a snapshot of the dirty-page table. Its count
/// field is 16 bits wide: it holds the number of entries modulo 65536.
pub fn checkpoint_record(dpt: &[(PageId, Lsn)]) -> (r: Vec<u8>)
    requires
        2 + 16 * dpt@.len() <= u32::MAX,
    ensures
        r@ == record_image(
            RECORD_CHECKPOINT,
            spec_u16_to_le_bytes(dpt@.len() as u16) + dpt_image(dpt@),
        ),
{
    proof {
        lemma_auto_spec_u16_to_from_le_bytes();
    }
    let mut payload = u16_to_le_bytes(dpt.len() as u16);
    let ghost head = payload@;
    let mut i: usize = 0;
    while i < dpt.len()
        invariant
            i <= dpt@.len(),
            2 + 16 * dpt@.len() <= u32::MAX,
            head.len() == 2,
            payload@ == head + dpt_image(dpt@.take(i as int)),
            payload@.len() == 2 + 16 * i,
        decreases dpt@.len() - i,
    {
        let (page_id, lsn) = dpt[i];
        proof {
            lemma_le_lengths(0, page_id);
            lemma_le_lengths(0, lsn);
            lemma_dpt_image_push(dpt@.take(i as int), dpt@[i as int]);
            assert(dpt@.take(i + 1) =~= dpt@.take(i as int).push(dpt@[i as int]));
        }
        let v = u64_to_le_bytes(page_id);
        append_bytes(&mut payload, v.as_slice());
        let v = u64_to_le_bytes(lsn);
        append_bytes(&mut payload, v.as_slice());
        i += 1;
        assert(payload@ =~= head + dpt_image(dpt@.take(i as int)));
    }
    assert(dpt@.take(dpt@.len() as int) =~= dpt@);
    frame_record(RECORD_CHECKPOINT, payload.as_slice())
}

/// A decoded page diff: new page id, base page, ranges.
pub type DiffView = (u64, Option<u64>, Seq<(nat, Seq<u8>)>);

/// What redo recovery takes from a stretch of log: the page diffs to redo,
/// in log order; the root of the last commit; and whether the stretch ends
/// at a page diff whose payload does not decode.
pub struct ScanView {
    pub diffs: Seq<DiffView>,
    pub root: Option<u64>,
    pub bad_diff: bool,
}

/// What redo recovery takes from one record of type `t` with payload `p`,
/// given what it takes from the records after it (`after`): a page diff is
/// redone ahead of them, a commit's root counts unless a later commit
/// follows, a checkpoint is passed over. The scan ends at a page diff whose
/// payload does not decode (flagged), at a commit whose payload is not 8
/// bytes and at a record of any other type.
pub open spec fn scan_step(t: u8, p: Seq<u8>, after: ScanView) -> ScanView {
    if t == RECORD_PAGE_DIFF {
        match parse_page_diff(p) {
            None => ScanView { diffs: Seq::empty(), root: None, bad_diff: true },
            Some(d) => ScanView { diffs: seq![d] + after.diffs, ..after },
        }
    } else if t == RECORD_COMMIT && p.len() == 8 {
        ScanView {
            root: if after.root is Some {
                after.root
            } else {
                Some(read64(p, 0))
            },
            ..after
        }
    } else if t == RECORD_CHECKPOINT {
        after
    } else {
        ScanView { diffs: Seq::empty(), root: None, bad_diff: false }
    }
}

/// What redo recovery takes from the records of `log` from `pos` on. The
/// scan ends at the first torn or corrupt record.
pub open spec fn scan_log(log: Seq<u8>, pos: int) -> ScanView
    decreases log.len() - pos,
{
    match record_at(log, pos) {
        None => ScanView { diffs: Seq::empty(), root: None, bad_diff: false },
        Some((t, p, next)) => {
            proof {
                lemma_record_at_advances(log, pos);
            }
            scan_step(t, p, scan_log(log, next))
        },
    }
}

/// A framed record is scanned as one step ahead of the records after it.
pub proof fn lemma_scan_record(prefix: Seq<u8>, record_type: u8, payload: Seq<u8>, rest: Seq<u8>)
    requires
        payload.len() <= u32::MAX,
    ensures
        ({
            let log = prefix + record_image(record_type, payload) + rest;
            scan_log(log, prefix.len() as int) == scan_step(
                record_type,
                payload,
                scan_log(log, prefix.len() + payload.len() + 9int),
            )
        }),
{
    lemma_record_round_trip(prefix, record_type, payload, rest);
}

/// Redo recovery passes over a checkpoint record, whatever dirty-page
/// table it carries (an empty one included): what it takes from the log at
/// the checkpoint is what it takes from the records after it.
pub proof fn lemma_checkpoint_passed_over(prefix: Seq<u8>, payload: Seq<u8>, rest: Seq<u8>)
    requires
        payload.len() <= u32::MAX,
    ensures
        ({
            let log = prefix + record_image(RECORD_CHECKPOINT, payload) + rest;
            scan_log(log, prefix.len() as int) == scan_log(log, prefix.len() + payload.len() + 9int)
        }),
{
    lemma_scan_record(prefix, RECORD_CHECKPOINT, payload, rest);
}

/// What redo recovery does for a whole log.
pub open spec fn recovery_of(log: Seq<u8>) -> ScanView {
    scan_log(log, LOG_PREAMBLE_SIZE as int)
}

/// The work of redo recovery: every page diff to redo, in log order; the
/// root of the last commit (`None` if no transaction ever committed); and
/// whether the log holds a checksummed page diff that does not decode, after
/// which nothing can be redone.
pub struct RecoveryPlan {
    pub diffs: Vec<PageDiff>,
    pub root: Option<PageId>,
    pub bad_diff: bool,
}

pub open spec fn diffs_view(ds: Seq<PageDiff>) -> Seq<DiffView> {
    ds.map_values(|d: PageDiff| d@)
}

/// Scans the records of a whole log file (preamble included) for redo
/// recovery.
pub fn plan_recovery(log: &[u8]) -> (r: RecoveryPlan)
    ensures
        recovery_of(log@) == (ScanView { diffs: diffs_view(r.diffs@), root: r.root, bad_diff: r.bad_diff }),
{
    let mut diffs: Vec<PageDiff> = Vec::new();
    let mut root: Option<PageId> = None;
    let mut bad_diff = false;
    let mut pos: usize = LOG_PREAMBLE_SIZE;
    loop
        invariant_except_break
            !bad_diff,
            recovery_of(log@) == ({
                let rest = scan_log(log@, pos as int);
                ScanView {
                    diffs: diffs_view(diffs@) + rest.diffs,
                    root: if rest.root is Some {
                        rest.root
                    } else {
                        root
                    },
                    bad_diff: rest.bad_diff,
                }
            }),
        ensures
            recovery_of(log@) == (ScanView { diffs: diffs_view(diffs@), root, bad_diff }),
        decreases log@.len() - pos,
    {
        let ghost before = diffs@;
        assert(diffs_view(diffs@) + Seq::<DiffView>::empty() =~= diffs_view(diffs@));
        match read_record(log, pos) {
            None => {
                break;
            },
            Some((t, payload, next)) => {
                proof {
                    lemma_record_at_advances(log@, pos as int);
                }
                if t == RECORD_PAGE_DIFF {
                    match decode_page_diff(payload.as_slice()) {
                        None => {
                            bad_diff = true;
                            break;
                        },
                        Some(d) => {
                            diffs.push(d);
                            proof {
                                let rest = scan_log(log@, next as int);
                                assert(diffs_view(diffs@) =~= diffs_view(before) + seq![d@]);
                                assert(diffs_view(diffs@) + rest.diffs =~= diffs_view(before) + (
                                seq![d@] + rest.diffs));
                            }
                            pos = next;
                        },
                    }
                } else if t == RECORD_COMMIT && payload.len() == 8 {
                    let rest_root = read_u64_at(payload.as_slice(), 0);
                    root = Some(rest_root);
                    pos = next;
                } else if t == RECORD_CHECKPOINT {
                    pos = next;
                } else {
                    break;
                }
            },
        }
    }
    RecoveryPlan { diffs, root, bad_diff }
}

/// A commit record is read back as the recovered root unless a later commit
/// follows it.
pub proof fn lemma_commit_sets_root(prefix: Seq<u8>, root: u64, rest: Seq<u8>)
    ensures
        ({
            let log = prefix + record_image(RECORD_COMMIT, le64(root)) + rest;
            let after = scan_log(log, prefix.len() + 17int);
            scan_log(log, prefix.len() as int) == (ScanView {
                root: if after.root is Some {
                    after.root
                } else {
                    Some(root)
                },
                ..after
            })
        }),
{
    lemma_le_lengths(0, root);
    lemma_scan_record(prefix, RECORD_COMMIT, le64(root), rest);
    assert(read64(le64(root), 0) == root) by {
        assert(le64(root).subrange(0, 8) =~= le64(root));
    }
}


/// A page-diff record is read back as the diff it was written for, ahead of
/// whatever the records after it give.
pub proof fn lemma_page_diff_record_scanned(
    prefix: Seq<u8>,
    new_page_id: u64,
    base: Option<u64>,
    rs: Seq<(nat, Seq<u8>)>,
    rest: Seq<u8>,
)
    requires
        ranges_fit(rs),
        base != Some(NO_BASE),
        page_diff_image(new_page_id, base, rs).len() <= u32::MAX,
    ensures
        ({
            let payload = page_diff_image(new_page_id, base, rs);
            let log = prefix + record_image(RECORD_PAGE_DIFF, payload) + rest;
            let after = scan_log(log, prefix.len() + payload.len() + 9int);
            scan_log(log, prefix.len() as int) == (ScanView {
                diffs: seq![(new_page_id, base, rs)] + after.diffs,
                ..after
            })
        }),
{
    let payload = page_diff_image(new_page_id, base, rs);
    lemma_scan_record(prefix, RECORD_PAGE_DIFF, payload, rest);
    lemma_page_diff_round_trip(new_page_id, base, rs);
}


/// A record cut short by a crash (a torn write at the end of the log) ends
/// the scan there: nothing of it, or after it, is redone.
pub proof fn lemma_torn_tail_ignored(prefix: Seq<u8>, record_type: u8, payload: Seq<u8>, kept: int)
    requires
        payload.len() <= u32::MAX,
        0 <= kept < record_image(record_type, payload).len(),
    ensures
        scan_log(prefix + record_image(record_type, payload).take(kept), prefix.len() as int) == (
        ScanView { diffs: Seq::empty(), root: None, bad_diff: false }),
{
    reveal(record_at);
    lemma_le_lengths(payload.len() as u32, 0);
    lemma_le_lengths(spec_crc32c(seq![record_type] + payload), 0);
    let img = record_image(record_type, payload);
    let log = prefix + img.take(kept);
    assert(log.len() == prefix.len() + kept);
    let p = prefix.len() as int;
    if p + 5 <= log.len() {
        assert(log.subrange(p, p + 4) =~= img.subrange(0, 4));
        assert(img.subrange(0, 4) =~= le32(payload.len() as u32));
    }
}

// ----- redoing a whole log twice -----
/// The bytes redo starts a page diff from: the base page as `pages` holds
/// it, or zeros when there is no base or the base page is absent.
pub open spec fn redo_base(pages: Map<u64, Seq<u8>>, base: Option<u64>, page_size: nat) -> Seq<u8> {
    match base {
        Some(b) => if pages.contains_key(b) {
            pages[b]
        } else {
            Seq::new(page_size, |i: int| 0u8)
        },
        None => Seq::new(page_size, |i: int| 0u8),
    }
}

/// The pages after redoing `diffs` in log order over `pages`: each diff
/// writes its ranges over its base and stores the result at its new page;
/// `None` when a range does not fit.
pub open spec fn redo_all(pages: Map<u64, Seq<u8>>, diffs: Seq<DiffView>, page_size: nat) -> Option<
    Map<u64, Seq<u8>>,
>
    decreases diffs.len(),
{
    if diffs.len() == 0 {
        Some(pages)
    } else {
        match redo_all(pages, diffs.drop_last(), page_size) {
            Some(p1) => match apply_ranges(redo_base(p1, diffs.last().1, page_size), diffs.last().2) {
                Some(np) => Some(p1.insert(diffs.last().0, np)),
                None => None,
            },
            None => None,
        }
    }
}

/// One of the first `k` diffs writes page `t`.
pub open spec fn written_by(diffs: Seq<DiffView>, k: int, t: u64) -> bool {
    exists|j: int| 0 <= j < k && (#[trigger] diffs[j]).0 == t
}

/// No diff reads a page that it or a later diff writes.
pub open spec fn bases_precede_writes(diffs: Seq<DiffView>) -> bool {
    forall|i: int, j: int| 0 <= i <= j < diffs.len() ==> (#[trigger] diffs[i]).1 != Some((#[trigger] diffs[j]).0)
}

proof fn lemma_redo_frame(pages: Map<u64, Seq<u8>>, diffs: Seq<DiffView>, page_size: nat)
    requires
        redo_all(pages, diffs, page_size) is Some,
    ensures
        forall|t: u64| #[trigger] written_by(diffs, diffs.len() as int, t) ==> redo_all(pages, diffs, page_size)->0.contains_key(t),
        forall|t: u64|
            !(#[trigger] written_by(diffs, diffs.len() as int, t)) ==> (redo_all(pages, diffs, page_size)->0.contains_key(t)
                <==> pages.contains_key(t)) && (pages.contains_key(t) ==> redo_all(pages, diffs, page_size)->0[t] == pages[t]),
    decreases diffs.len(),
{
    if diffs.len() > 0 {
        let rest = diffs.drop_last();
        lemma_redo_frame(pages, rest, page_size);
        let n = diffs.len() as int;
        assert forall|t: u64| #[trigger] written_by(diffs, n, t) implies redo_all(pages, diffs, page_size)->0.contains_key(t) by {
            let j = choose|j: int| 0 <= j < n && (#[trigger] diffs[j]).0 == t;
            if j < n - 1 {
                assert(rest[j] == diffs[j]);
                assert(written_by(rest, n - 1, t));
            }
        }
        assert forall|t: u64| !(#[trigger] written_by(diffs, n, t)) implies !written_by(rest, n - 1, t) && diffs.last().0 != t by {
            if written_by(rest, n - 1, t) {
                let j = choose|j: int| 0 <= j < n - 1 && (#[trigger] rest[j]).0 == t;
                assert(diffs[j] == rest[j]);
            }
            if diffs.last().0 == t {
                assert(diffs[n - 1].0 == t);
            }
        }
    }
}

proof fn lemma_redo_prefix(pages: Map<u64, Seq<u8>>, diffs: Seq<DiffView>, page_size: nat, k: int)
    requires
        redo_all(pages, diffs, page_size) is Some,
        0 <= k <= diffs.len(),
    ensures
        redo_all(pages, diffs.take(k), page_size) is Some,
    decreases diffs.len(),
{
    if k == diffs.len() {
        assert(diffs.take(k) =~= diffs);
    } else {
        lemma_redo_prefix(pages, diffs.drop_last(), page_size, k);
        assert(diffs.drop_last().take(k) =~= diffs.take(k));
    }
}

/// Redoing the first `k` diffs over the result of the whole redo agrees
/// with redoing them over the original pages on every page they write, and
/// leaves every other page as the whole redo left it.
proof fn lemma_redo_twice_prefix(pages: Map<u64, Seq<u8>>, diffs: Seq<DiffView>, page_size: nat, k: int)
    requires
        bases_precede_writes(diffs),
        redo_all(pages, diffs, page_size) is Some,
        0 <= k <= diffs.len(),
    ensures
        redo_all(redo_all(pages, diffs, page_size)->0, diffs.take(k), page_size) is Some,
        forall|t: u64| #[trigger] written_by(diffs, k, t) ==> redo_all(redo_all(pages, diffs, page_size)->0, diffs.take(k), page_size)->0.contains_key(t)
            && redo_all(pages, diffs.take(k), page_size)->0.contains_key(t)
            && redo_all(redo_all(pages, diffs, page_size)->0, diffs.take(k), page_size)->0[t]
            == redo_all(pages, diffs.take(k), page_size)->0[t],
        forall|t: u64| !(#[trigger] written_by(diffs, k, t)) ==> (redo_all(redo_all(pages, diffs, page_size)->0, diffs.take(k), page_size)->0.contains_key(t)
            <==> redo_all(pages, diffs, page_size)->0.contains_key(t)) && (redo_all(pages, diffs, page_size)->0.contains_key(t)
            ==> redo_all(redo_all(pages, diffs, page_size)->0, diffs.take(k), page_size)->0[t] == redo_all(pages, diffs, page_size)->0[t]),
    decreases k,
{
    let q = redo_all(pages, diffs, page_size)->0;
    lemma_redo_prefix(pages, diffs, page_size, k);
    if k == 0 {
        assert(diffs.take(0) =~= Seq::<DiffView>::empty());
    } else {
        lemma_redo_twice_prefix(pages, diffs, page_size, k - 1);
        lemma_redo_prefix(pages, diffs, page_size, k - 1);
        let pre = diffs.take(k - 1);
        let cur = diffs.take(k);
        assert(cur.drop_last() =~= pre);
        assert(cur.last() == diffs[k - 1]);
        let pk = redo_all(pages, pre, page_size)->0;
        let qk = redo_all(q, pre, page_size)->0;
        let d = diffs[k - 1];
        lemma_redo_frame(pages, diffs, page_size);
        lemma_redo_frame(pages, pre, page_size);
        assert(pre.len() == k - 1);
        assert forall|t: u64| #[trigger] written_by(pre, k - 1, t) <==> written_by(diffs, k - 1, t) by {
            if written_by(pre, k - 1, t) {
                let j = choose|j: int| 0 <= j < k - 1 && (#[trigger] pre[j]).0 == t;
                assert(diffs[j] == pre[j]);
            }
            if written_by(diffs, k - 1, t) {
                let j = choose|j: int| 0 <= j < k - 1 && (#[trigger] diffs[j]).0 == t;
                assert(diffs[j] == pre[j]);
            }
        }
        assert(redo_base(qk, d.1, page_size) == redo_base(pk, d.1, page_size)) by {
            if let Some(b) = d.1 {
                if !written_by(diffs, k - 1, b) {
                    assert forall|j: int| 0 <= j < diffs.len() implies (#[trigger] diffs[j]).0 != b by {
                        if j >= k - 1 {
                            assert(diffs[k - 1].1 != Some(diffs[j].0));
                        } else {
                            assert(!(0 <= j < k - 1 && diffs[j].0 == b));
                        }
                    }
                    assert(!written_by(diffs, diffs.len() as int, b));
                    assert(!written_by(pre, k - 1, b));
                }
            }
        }
        assert forall|t: u64| #[trigger] written_by(diffs, k, t) <==> (written_by(diffs, k - 1, t) || d.0 == t) by {
            if written_by(diffs, k, t) {
                let j = choose|j: int| 0 <= j < k && (#[trigger] diffs[j]).0 == t;
                if j < k - 1 {
                    assert(written_by(diffs, k - 1, t));
                }
            }
            if written_by(diffs, k - 1, t) {
                let j = choose|j: int| 0 <= j < k - 1 && (#[trigger] diffs[j]).0 == t;
                assert(0 <= j < k);
            }
            if d.0 == t {
                assert(diffs[k - 1].0 == t);
            }
        }
    }
}

/// Redo is idempotent: redoing a log's diffs again over the pages a first
/// redo produced changes nothing, as long as no diff reads a page that it
/// or a later diff writes (copy-on-write writes only fresh pages).
pub proof fn lemma_redo_idempotent(pages: Map<u64, Seq<u8>>, diffs: Seq<DiffView>, page_size: nat)
    requires
        bases_precede_writes(diffs),
        redo_all(pages, diffs, page_size) is Some,
    ensures
        redo_all(redo_all(pages, diffs, page_size)->0, diffs, page_size) == redo_all(pages, diffs, page_size),
{
    let q = redo_all(pages, diffs, page_size)->0;
    let n = diffs.len() as int;
    lemma_redo_twice_prefix(pages, diffs, page_size, n);
    assert(diffs.take(n) =~= diffs);
    let q2 = redo_all(q, diffs, page_size)->0;
    assert(redo_all(pages, diffs.take(n), page_size) == redo_all(pages, diffs, page_size));
    assert(redo_all(q, diffs.take(n), page_size) == redo_all(q, diffs, page_size));
    assert forall|t: u64| #[trigger] q2.contains_key(t) <==> q.contains_key(t) by {
        assert(written_by(diffs, n, t) ==> q2.contains_key(t) && q.contains_key(t));
    }
    assert forall|t: u64| #[trigger] q2.contains_key(t) implies q2[t] == q[t] by {
        assert(written_by(diffs, n, t) ==> q2[t] == q[t]);
    }
    assert(q2 =~= q);
}

} // verus!
