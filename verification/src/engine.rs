//! The bookkeeping that ties pages, log and tree into a snapshot-isolated
//! database: the current generation (bumped by each commit), the table of
//! open read snapshots, pages superseded by commits and awaiting
//! reclamation, and the dirty-page table for the next checkpoint.
//!
//! A page superseded at generation `g` may be freed once every open
//! snapshot is at least as new as `g`: the low-water mark, the oldest open
//! snapshot's generation (the current generation when none is open), has
//! reached `g`.

use crate::btree::{btree_message_is, BTreeError};
use crate::pager::{pager_message_is, PageId, PagerError};
use crate::wal::{wal_message_is, Lsn, WalError};
use std::collections::BTreeMap;
use vstd::prelude::*;

verus! {

broadcast use {vstd::std_specs::btree::group_btree_axioms, vstd::laws_cmp::group_laws_cmp};

#[derive(Debug)]
pub enum DatabaseError {
    Pager(PagerError),
    Wal(WalError),
    BTree(BTreeError),
}

impl From<PagerError> for DatabaseError {
    fn from(e: PagerError) -> (r: Self) {
        DatabaseError::Pager(e)
    }
}

impl vstd::std_specs::convert::FromSpecImpl<PagerError> for DatabaseError {
    open spec fn obeys_from_spec() -> bool {
        true
    }

    open spec fn from_spec(e: PagerError) -> Self {
        DatabaseError::Pager(e)
    }
}

impl From<WalError> for DatabaseError {
    fn from(e: WalError) -> (r: Self) {
        DatabaseError::Wal(e)
    }
}

impl vstd::std_specs::convert::FromSpecImpl<WalError> for DatabaseError {
    open spec fn obeys_from_spec() -> bool {
        true
    }

    open spec fn from_spec(e: WalError) -> Self {
        DatabaseError::Wal(e)
    }
}

impl From<BTreeError> for DatabaseError {
    fn from(e: BTreeError) -> (r: Self) {
        DatabaseError::BTree(e)
    }
}

impl vstd::std_specs::convert::FromSpecImpl<BTreeError> for DatabaseError {
    open spec fn obeys_from_spec() -> bool {
        true
    }

    open spec fn from_spec(e: BTreeError) -> Self {
        DatabaseError::BTree(e)
    }
}

/// `m` is the text of error `e`: that of the error it wraps.
pub open spec fn database_message_is(e: DatabaseError, m: Seq<char>) -> bool {
    match e {
        DatabaseError::Pager(e) => pager_message_is(e, m),
        DatabaseError::Wal(e) => wal_message_is(e, m),
        DatabaseError::BTree(e) => btree_message_is(e, m),
    }
}

impl DatabaseError {
    /// A human-readable description of the error.
    pub fn message(&self) -> (r: String)
        ensures
            database_message_is(*self, r@),
    {
        match self {
            DatabaseError::Pager(e) => e.message(),
            DatabaseError::Wal(e) => e.message(),
            DatabaseError::BTree(e) => e.message(),
        }
    }
}

/// A point-in-time read handle: the generation and root that were current
/// when it was taken. It must be released with
/// [`MvccState::end_read`], or its generation (and every page superseded
/// at or after it) is never reclaimed.
#[derive(Clone, Copy, Debug, PartialEq, Eq, Structural)]
pub struct Snapshot {
    generation: u64,
    root: Option<PageId>,
}

impl View for Snapshot {
    type V = (u64, Option<PageId>);

    closed spec fn view(&self) -> (u64, Option<PageId>) {
        (self.generation, self.root)
    }
}

impl Snapshot {
    pub fn generation(&self) -> (r: u64)
        ensures
            r == self@.0,
    {
        self.generation
    }

    /// The root of the tree as of this snapshot, `None` for an empty database.
    pub fn root(&self) -> (r: Option<PageId>)
        ensures
            r == self@.1,
    {
        self.root
    }
}

/// `g` is the oldest generation with an open snapshot.
pub open spec fn is_min_generation(readers: Map<u64, u32>, g: u64) -> bool {
    &&& readers.contains_key(g)
    &&& forall|k: u64| readers.contains_key(k) ==> g <= k
}

/// The oldest open snapshot's generation, or `current` when none is open.
pub open spec fn low_water_mark_of(readers: Map<u64, u32>, current: u64) -> u64 {
    if exists|g: u64| is_min_generation(readers, g) {
        choose|g: u64| is_min_generation(readers, g)
    } else {
        current
    }
}

/// The reader table after a snapshot is taken at generation `g`.
pub open spec fn readers_after_begin(readers: Map<u64, u32>, g: u64) -> Map<u64, u32> {
    readers.insert(g, (if readers.contains_key(g) { readers[g] + 1 } else { 1 }) as u32)
}

/// The reader table after a snapshot at generation `g` is released.
pub open spec fn readers_after_end(readers: Map<u64, u32>, g: u64) -> Map<u64, u32> {
    if !readers.contains_key(g) {
        readers
    } else if readers[g] <= 1 {
        readers.remove(g)
    } else {
        readers.insert(g, (readers[g] - 1) as u32)
    }
}

/// The pages of `pending` that may be freed at low-water mark `lwm`, in
/// the order they were superseded.
pub open spec fn reclaimable(pending: Seq<(u64, u64)>, lwm: u64) -> Seq<u64> {
    pending.filter_map(|e: (u64, u64)| if e.1 <= lwm { Some(e.0) } else { None })
}

/// The entries of `pending` that must wait past low-water mark `lwm`.
pub open spec fn still_pending(pending: Seq<(u64, u64)>, lwm: u64) -> Seq<(u64, u64)> {
    pending.filter_map(|e: (u64, u64)| if e.1 <= lwm { None } else { Some(e) })
}

/// Page `id` already awaits reclamation in `q`.
pub open spec fn queued(q: Seq<(u64, u64)>, id: u64) -> bool {
    exists|i: int| 0 <= i < q.len() && (#[trigger] q[i]).0 == id
}

/// `q` after queueing the superseded `pages`, in order, at `generation`:
/// a page already queued (a split supersedes its base twice) is queued once.
pub open spec fn enqueue_superseded(q: Seq<(u64, u64)>, pages: Seq<u64>, generation: u64) -> Seq<(u64, u64)>
    decreases pages.len(),
{
    if pages.len() == 0 {
        q
    } else {
        let q1 = enqueue_superseded(q, pages.drop_last(), generation);
        if queued(q1, pages.last()) {
            q1
        } else {
            q1.push((pages.last(), generation))
        }
    }
}

/// No page appears twice in `q`.
pub open spec fn queued_once(q: Seq<(u64, u64)>) -> bool {
    forall|i: int, j: int| 0 <= i < j < q.len() ==> (#[trigger] q[i]).0 != (#[trigger] q[j]).0
}

/// Whether `id` awaits reclamation in `q`.
fn queue_holds(q: &Vec<(PageId, u64)>, id: PageId) -> (r: bool)
    ensures
        r == queued(q@, id),
{
    let mut i: usize = 0;
    while i < q.len()
        invariant
            i <= q@.len(),
            forall|j: int| 0 <= j < i ==> (#[trigger] q@[j]).0 != id,
        decreases q@.len() - i,
    {
        if q[i].0 == id {
            return true;
        }
        i += 1;
    }
    false
}

pub struct MvccView {
    pub current_generation: u64,
    /// Generation of each open snapshot, with how many are open there.
    pub readers: Map<u64, u32>,
    /// Pages superseded by committed transactions, each with the
    /// generation it was superseded at, in commit order.
    pub pending_reclaim: Seq<(u64, u64)>,
    /// Each page written since the last checkpoint, with the LSN of the
    /// record that first dirtied it.
    pub dirty_pages: Map<u64, u64>,
}

proof fn lemma_keys_increasing<V>(s: Seq<(&u64, &V)>)
    requires
        vstd::std_specs::btree::increasing_seq(s.map_values(|kv: (&u64, &V)| *kv.0)),
    ensures
        forall|i: int, j: int| 0 <= i < j < s.len() ==> *s[i].0 < *s[j].0,
{
    let ks = s.map_values(|kv: (&u64, &V)| *kv.0);
    assert forall|i: int, j: int| 0 <= i < j < s.len() implies *s[i].0 < *s[j].0 by {
        assert(ks[i] == *s[i].0);
        assert(ks[j] == *s[j].0);
        assert(vstd::std_specs::cmp::OrdSpec::cmp_spec(&ks[i], &ks[j]) is Less);
    }
}

/// The smallest key of `m`, `None` when `m` is empty.
fn oldest_key(m: &BTreeMap<u64, u32>) -> (r: Option<u64>)
    ensures
        r is None ==> forall|k: u64| !m@.contains_key(k),
        r matches Some(b) ==> is_min_generation(m@, b),
{
    let mut best: Option<u64> = None;
    for k in it: m.keys()
        invariant
            it.seq().unref().to_set() == m@.dom(),
            match best {
                None => it.index() == 0,
                Some(b) => m@.contains_key(b),
            },
            forall|j: int| 0 <= j < it.index() ==> best is Some && best->0 <= *it.seq()[j],
    {
        let kv = *k;
        match best {
            None => {
                best = Some(kv);
            },
            Some(b) => {
                if kv < b {
                    best = Some(kv);
                }
            },
        }
    }
    best
}

/// Generations, open snapshots, pages awaiting reclamation and dirty pages.
pub struct MvccState {
    current_generation: u64,
    reader_table: BTreeMap<u64, u32>,
    pending_reclaim: Vec<(PageId, u64)>,
    dpt: BTreeMap<PageId, Lsn>,
}

impl View for MvccState {
    type V = MvccView;

    closed spec fn view(&self) -> MvccView {
        MvccView {
            current_generation: self.current_generation,
            readers: self.reader_table@,
            pending_reclaim: self.pending_reclaim@,
            dirty_pages: self.dpt@,
        }
    }
}

impl MvccState {
    /// Every generation in the reader table has at least one open snapshot.
    pub open spec fn wf(&self) -> bool {
        forall|g: u64| #[trigger] self@.readers.contains_key(g) ==> self@.readers[g] > 0
    }

    /// Generation 0, no snapshot open, nothing pending, nothing dirty.
    pub fn new() -> (s: Self)
        ensures
            s.wf(),
            s@ == (MvccView {
                current_generation: 0,
                readers: Map::empty(),
                pending_reclaim: Seq::empty(),
                dirty_pages: Map::empty(),
            }),
    {
        MvccState {
            current_generation: 0,
            reader_table: BTreeMap::new(),
            pending_reclaim: Vec::new(),
            dpt: BTreeMap::new(),
        }
    }

    pub fn current_generation(&self) -> (r: u64)
        ensures
            r == self@.current_generation,
    {
        self.current_generation
    }

    /// How many snapshots are open at `generation`.
    pub fn open_snapshots_at(&self, generation: u64) -> (r: u32)
        ensures
            self@.readers.contains_key(generation) ==> r == self@.readers[generation],
            !self@.readers.contains_key(generation) ==> r == 0,
    {
        match self.reader_table.get(&generation) {
            Some(c) => *c,
            None => 0,
        }
    }

    /// Number of pages awaiting reclamation.
    pub fn pending_reclaim_len(&self) -> (r: usize)
        ensures
            r == self@.pending_reclaim.len(),
    {
        self.pending_reclaim.len()
    }

    /// Takes a snapshot of `root` pinned to the current generation.
    pub fn begin_read(&mut self, root: Option<PageId>) -> (s: Snapshot)
        requires
            old(self).wf(),
            old(self)@.readers.contains_key(old(self)@.current_generation) ==> old(
                self,
            )@.readers[old(self)@.current_generation] < u32::MAX,
        ensures
            final(self).wf(),
            s@ == (old(self)@.current_generation, root),
            final(self)@ == (MvccView {
                readers: readers_after_begin(old(self)@.readers, old(self)@.current_generation),
                ..old(self)@
            }),
            final(self)@.readers.contains_key(s@.0),
            final(self)@.readers[s@.0] == (if old(self)@.readers.contains_key(s@.0) {
                old(self)@.readers[s@.0] as int
            } else {
                0
            }) + 1,
            forall|g: u64| g != s@.0 ==> (#[trigger] final(self)@.readers.contains_key(g)
                <==> old(self)@.readers.contains_key(g)) && (old(self)@.readers.contains_key(g)
                ==> final(self)@.readers[g] == old(self)@.readers[g]),
    {
        let generation = self.current_generation;
        let count = match self.reader_table.get(&generation) {
            Some(c) => *c,
            None => 0,
        };
        self.reader_table.insert(generation, count + 1);
        assert(self.reader_table@ =~= readers_after_begin(old(self)@.readers, generation));
        Snapshot { generation, root }
    }

    /// Releases `snapshot`, unpinning its generation.
    pub fn end_read(&mut self, snapshot: Snapshot)
        requires
            old(self).wf(),
        ensures
            final(self).wf(),
            final(self)@ == (MvccView {
                readers: readers_after_end(old(self)@.readers, snapshot@.0),
                ..old(self)@
            }),
    {
        let generation = snapshot.generation;
        match self.reader_table.get(&generation) {
            None => {},
            Some(c) => {
                let count = *c;
                if count <= 1 {
                    self.reader_table.remove(&generation);
                } else {
                    self.reader_table.insert(generation, count - 1);
                }
            },
        }
        assert(self.reader_table@ =~= readers_after_end(old(self)@.readers, generation));
    }

    /// The oldest open snapshot's generation, or the current generation when
    /// no snapshot is open.
    pub fn low_water_mark(&self) -> (r: u64)
        ensures
            r == low_water_mark_of(self@.readers, self@.current_generation),
    {
        match oldest_key(&self.reader_table) {
            None => {
                assert(!exists|g: u64| is_min_generation(self@.readers, g));
                self.current_generation
            },
            Some(b) => {
                proof {
                    let g = choose|g: u64| is_min_generation(self@.readers, g);
                    assert(g <= b && b <= g);
                }
                b
            },
        }
    }

    /// Records that page `page_id` was written by the record at `lsn`; a
    /// page keeps the LSN of the first write since the last checkpoint.
    pub fn note_page_written(&mut self, page_id: PageId, lsn: Lsn)
        requires
            old(self).wf(),
        ensures
            final(self).wf(),
            final(self)@ == (MvccView {
                dirty_pages: if old(self)@.dirty_pages.contains_key(page_id) {
                    old(self)@.dirty_pages
                } else {
                    old(self)@.dirty_pages.insert(page_id, lsn)
                },
                ..old(self)@
            }),
    {
        if !self.dpt.contains_key(&page_id) {
            self.dpt.insert(page_id, lsn);
        }
        assert(self.reader_table@ == old(self)@.readers);
    }

    /// The dirty-page table in ascending page order.
    pub fn dirty_page_table(&self) -> (r: Vec<(PageId, Lsn)>)
        ensures
            r@.len() == self@.dirty_pages.dom().len(),
            forall|i: int, j: int| 0 <= i < j < r@.len() ==> r@[i].0 < r@[j].0,
            forall|i: int|
                0 <= i < r@.len() ==> #[trigger] self@.dirty_pages.contains_key(r@[i].0)
                    && self@.dirty_pages[r@[i].0] == r@[i].1,
    {
        let m = &self.dpt;
        let mut out: Vec<(PageId, Lsn)> = Vec::new();
        let entries = m.iter();
        let ghost s = vstd::std_specs::iter::IteratorSpec::remaining(&entries);
        proof {
            lemma_keys_increasing(s);
            assert forall|i: int| 0 <= i < s.len() implies #[trigger] m@.contains_key(*s[i].0)
                && m@[*s[i].0] == *s[i].1 by {}
        }
        for kv in it: entries
            invariant
                it.seq() == s,
                out@.len() == it.index(),
                forall|i: int| 0 <= i < it.index() ==> #[trigger] out@[i] == (*s[i].0, *s[i].1),
        {
            let (k, v) = kv;
            out.push((*k, *v));
        }
        proof {
            assert forall|i: int| 0 <= i < out@.len() implies #[trigger] m@.contains_key(out@[i].0)
                && m@[out@[i].0] == out@[i].1 by {
                assert(out@[i] == (*s[i].0, *s[i].1));
            }
            assert forall|i: int, j: int| 0 <= i < j < out@.len() implies out@[i].0 < out@[j].0 by {
                assert(out@[i] == (*s[i].0, *s[i].1));
                assert(out@[j] == (*s[j].0, *s[j].1));
            }
        }
        out
    }

    /// Empties the dirty-page table, once a checkpoint made its pages
    /// durable.
    pub fn clear_dirty_pages(&mut self)
        requires
            old(self).wf(),
        ensures
            final(self).wf(),
            final(self)@ == (MvccView { dirty_pages: Map::empty(), ..old(self)@ }),
    {
        self.dpt.clear();
    }

    /// A transaction committed, superseding `superseded`: the generation
    /// advances by one and those pages await reclamation at it, each once.
    pub fn commit(&mut self, superseded: &[PageId])
        requires
            old(self).wf(),
            old(self)@.current_generation < u64::MAX,
        ensures
            final(self).wf(),
            final(self)@ == (MvccView {
                current_generation: (old(self)@.current_generation + 1) as u64,
                pending_reclaim: enqueue_superseded(
                    old(self)@.pending_reclaim,
                    superseded@,
                    (old(self)@.current_generation + 1) as u64,
                ),
                ..old(self)@
            }),
    {
        self.current_generation = self.current_generation + 1;
        let g = self.current_generation;
        let ghost start = self.pending_reclaim@;
        let mut i: usize = 0;
        while i < superseded.len()
            invariant
                i <= superseded@.len(),
                self.pending_reclaim@ == enqueue_superseded(start, superseded@.take(i as int), g),
                self.reader_table@ == old(self)@.readers,
                self.dpt@ == old(self)@.dirty_pages,
                self.current_generation == g,
            decreases superseded@.len() - i,
        {
            assert(superseded@.take(i as int + 1).drop_last() =~= superseded@.take(i as int));
            if !queue_holds(&self.pending_reclaim, superseded[i]) {
                self.pending_reclaim.push((superseded[i], g));
            }
            i += 1;
        }
        assert(superseded@.take(superseded@.len() as int) =~= superseded@);
    }

    /// Takes out every pending page superseded at or before the low-water
    /// mark, to be freed, and keeps the rest pending.
    pub fn take_reclaimable(&mut self) -> (r: Vec<PageId>)
        requires
            old(self).wf(),
        ensures
            final(self).wf(),
            r@ == reclaimable(
                old(self)@.pending_reclaim,
                low_water_mark_of(old(self)@.readers, old(self)@.current_generation),
            ),
            final(self)@ == (MvccView {
                pending_reclaim: still_pending(
                    old(self)@.pending_reclaim,
                    low_water_mark_of(old(self)@.readers, old(self)@.current_generation),
                ),
                ..old(self)@
            }),
    {
        let lwm = self.low_water_mark();
        let mut freed: Vec<PageId> = Vec::new();
        let mut kept: Vec<(PageId, u64)> = Vec::new();
        let ghost pending = self.pending_reclaim@;
        let mut i: usize = 0;
        while i < self.pending_reclaim.len()
            invariant
                pending == self.pending_reclaim@,
                i <= pending.len(),
                freed@ == reclaimable(pending.take(i as int), lwm),
                kept@ == still_pending(pending.take(i as int), lwm),
            decreases pending.len() - i,
        {
            let (page, superseded_at) = self.pending_reclaim[i];
            proof {
                assert(pending.take(i + 1).drop_last() =~= pending.take(i as int));
            }
            if superseded_at <= lwm {
                freed.push(page);
            } else {
                kept.push((page, superseded_at));
            }
            i += 1;
        }
        assert(pending.take(pending.len() as int) =~= pending);
        self.pending_reclaim = kept;
        freed
    }
}

/// A page is handed out for reclamation only when no open snapshot is
/// older than the generation it was superseded at.
pub proof fn lemma_reclaim_respects_snapshots(
    readers: Map<u64, u32>,
    current: u64,
    pending: Seq<(u64, u64)>,
    i: int,
    g: u64,
)
    requires
        0 <= i < pending.len(),
        pending[i].1 <= low_water_mark_of(readers, current),
        readers.contains_key(g),
    ensures
        pending[i].1 <= g,
{
    if !exists|m: u64| is_min_generation(readers, m) {
        assert(false) by {
            lemma_min_generation_exists(readers, g);
        }
    }
}

proof fn lemma_min_generation_exists(readers: Map<u64, u32>, g: u64)
    requires
        readers.contains_key(g),
    ensures
        exists|m: u64| is_min_generation(readers, m),
    decreases g,
{
    if !is_min_generation(readers, g) {
        let k = choose|k: u64| readers.contains_key(k) && !(g <= k);
        lemma_min_generation_exists(readers, k);
    }
}

/// Snapshot isolation: while a snapshot at generation `g` is open, no page
/// that was superseded only after `g` is handed out for reclamation, so the
/// pages the snapshot reads stay as they were.
pub proof fn lemma_snapshot_pages_kept(
    readers: Map<u64, u32>,
    current: u64,
    pending: Seq<(u64, u64)>,
    g: u64,
    id: u64,
)
    requires
        readers.contains_key(g),
        forall|i: int| 0 <= i < pending.len() && (#[trigger] pending[i]).0 == id ==> pending[i].1 > g,
    ensures
        !reclaimable(pending, low_water_mark_of(readers, current)).contains(id),
{
    let lwm = low_water_mark_of(readers, current);
    let f = |e: (u64, u64)| if e.1 <= lwm { Some(e.0) } else { None };
    if reclaimable(pending, lwm).contains(id) {
        pending.lemma_filter_map_contains(f, id);
        let t = choose|t: (u64, u64)| #[trigger] pending.contains(t) && f(t) == Some(id);
        let i = choose|i: int| 0 <= i < pending.len() && pending[i] == t;
        lemma_reclaim_respects_snapshots(readers, current, pending, i, g);
    }
}

/// A commit queues every superseded page and loses none already queued,
/// and a queue that held no page twice still holds none twice.
pub proof fn lemma_commit_queues_once(q: Seq<(u64, u64)>, pages: Seq<u64>, g: u64)
    ensures
        forall|id: u64| #[trigger] queued(enqueue_superseded(q, pages, g), id) <==> (queued(q, id) || pages.contains(id)),
        queued_once(q) ==> queued_once(enqueue_superseded(q, pages, g)),
    decreases pages.len(),
{
    if pages.len() > 0 {
        let rest = pages.drop_last();
        let q1 = enqueue_superseded(q, rest, g);
        lemma_commit_queues_once(q, rest, g);
        let q2 = enqueue_superseded(q, pages, g);
        assert forall|id: u64| #[trigger] queued(q2, id) <==> (queued(q, id) || pages.contains(id)) by {
            if pages.contains(id) {
                let k = choose|k: int| 0 <= k < pages.len() && pages[k] == id;
                if k < pages.len() - 1 {
                    assert(rest[k] == id);
                    assert(queued(q1, id));
                }
            }
            if rest.contains(id) {
                let k = choose|k: int| 0 <= k < rest.len() && rest[k] == id;
                assert(pages[k] == id);
            }
            if queued(q1, id) {
                let k = choose|k: int| 0 <= k < q1.len() && (#[trigger] q1[k]).0 == id;
                assert(q2[k] == q1[k]);
            }
            if !queued(q1, pages.last()) {
                assert(q2[q1.len() as int].0 == pages.last());
                if queued(q2, id) {
                    let k = choose|k: int| 0 <= k < q2.len() && (#[trigger] q2[k]).0 == id;
                    if k < q1.len() {
                        assert(q1[k] == q2[k]);
                    }
                }
            }
        }
        if queued_once(q) && !queued(q1, pages.last()) {
            assert forall|i: int, j: int| 0 <= i < j < q2.len() implies (#[trigger] q2[i]).0 != (#[trigger] q2[j]).0 by {
                if j == q1.len() {
                    assert(q2[i] == q1[i]);
                } else {
                    assert(q2[i] == q1[i] && q2[j] == q1[j]);
                }
            }
        }
    }
}

/// A reclamation pass keeps a queue that held no page twice so.
pub proof fn lemma_reclaim_keeps_queued_once(pending: Seq<(u64, u64)>, lwm: u64)
    requires
        queued_once(pending),
    ensures
        queued_once(still_pending(pending, lwm)),
    decreases pending.len(),
{
    if pending.len() > 0 {
        let rest = pending.drop_last();
        let f = |e: (u64, u64)| if e.1 <= lwm { None } else { Some(e) };
        assert(queued_once(rest)) by {
            assert forall|i: int, j: int| 0 <= i < j < rest.len() implies (#[trigger] rest[i]).0 != (#[trigger] rest[j]).0 by {
                assert(rest[i] == pending[i] && rest[j] == pending[j]);
            }
        }
        lemma_reclaim_keeps_queued_once(rest, lwm);
        let kept = still_pending(rest, lwm);
        let last = pending.last();
        if last.1 > lwm {
            let all = still_pending(pending, lwm);
            assert(all == kept + seq![last]);
            assert forall|i: int, j: int| 0 <= i < j < all.len() implies (#[trigger] all[i]).0 != (#[trigger] all[j]).0 by {
                if j == kept.len() {
                    assert(all[i] == kept[i]);
                    assert(kept.contains(kept[i]));
                    rest.lemma_filter_map_contains(f, kept[i]);
                    let t = choose|t: (u64, u64)| #[trigger] rest.contains(t) && f(t) == Some(kept[i]);
                    let k = choose|k: int| 0 <= k < rest.len() && rest[k] == t;
                    assert(pending[k] == t);
                    assert(pending[pending.len() - 1] == last);
                } else {
                    assert(all[i] == kept[i] && all[j] == kept[j]);
                }
            }
        }
    }
}

/// Taking a snapshot at generation `g` registers it: the reader table then
/// holds `g` with one more open snapshot than before, and every other
/// generation as before. So the low-water mark cannot pass `g` while it is
/// open.
pub proof fn lemma_begin_read_registers(readers: Map<u64, u32>, g: u64, current: u64)
    requires
        readers.contains_key(g) ==> readers[g] < u32::MAX,
    ensures
        readers_after_begin(readers, g).contains_key(g),
        readers_after_begin(readers, g)[g] == (if readers.contains_key(g) { readers[g] as int } else { 0 }) + 1,
        forall|k: u64| k != g ==> (#[trigger] readers_after_begin(readers, g).contains_key(k) <==> readers.contains_key(k))
            && (readers.contains_key(k) ==> readers_after_begin(readers, g)[k] == readers[k]),
        low_water_mark_of(readers_after_begin(readers, g), current) <= g,
{
    let r2 = readers_after_begin(readers, g);
    lemma_min_generation_exists(r2, g);
}

/// The low-water mark is the generation of the oldest open snapshot, or the
/// current generation when none is open.
pub proof fn lemma_low_water_mark(readers: Map<u64, u32>, current: u64)
    ensures
        (exists|g: u64| readers.contains_key(g)) ==> readers.contains_key(low_water_mark_of(readers, current))
            && forall|k: u64| readers.contains_key(k) ==> low_water_mark_of(readers, current) <= k,
        !(exists|g: u64| readers.contains_key(g)) ==> low_water_mark_of(readers, current) == current,
{
    if exists|g: u64| readers.contains_key(g) {
        let g = choose|g: u64| readers.contains_key(g);
        lemma_min_generation_exists(readers, g);
    }
}

/// A reclamation pass hands out every page superseded at or before the
/// low-water mark and keeps every entry superseded after it.
pub proof fn lemma_reclaim_complete(pending: Seq<(u64, u64)>, lwm: u64)
    ensures
        forall|i: int| 0 <= i < pending.len() && (#[trigger] pending[i]).1 <= lwm ==> reclaimable(pending, lwm).contains(
            pending[i].0,
        ),
        forall|i: int| 0 <= i < pending.len() && (#[trigger] pending[i]).1 > lwm ==> still_pending(pending, lwm).contains(
            pending[i],
        ),
    decreases pending.len(),
{
    if pending.len() > 0 {
        let rest = pending.drop_last();
        lemma_reclaim_complete(rest, lwm);
        let n = pending.len() - 1;
        let last = pending[n];
        assert forall|i: int| 0 <= i < pending.len() && (#[trigger] pending[i]).1 <= lwm implies reclaimable(pending, lwm).contains(
            pending[i].0,
        ) by {
            let r = reclaimable(rest, lwm);
            if i < n {
                assert(rest[i] == pending[i]);
                let k = choose|k: int| 0 <= k < r.len() && r[k] == pending[i].0;
                if last.1 <= lwm {
                    assert(reclaimable(pending, lwm) == r + seq![last.0]);
                    assert(reclaimable(pending, lwm)[k] == r[k]);
                } else {
                    assert(reclaimable(pending, lwm) == r);
                }
            } else {
                assert(reclaimable(pending, lwm) == r + seq![last.0]);
                assert(reclaimable(pending, lwm)[r.len() as int] == last.0);
            }
        }
        assert forall|i: int| 0 <= i < pending.len() && (#[trigger] pending[i]).1 > lwm implies still_pending(pending, lwm).contains(
            pending[i],
        ) by {
            let r = still_pending(rest, lwm);
            if i < n {
                assert(rest[i] == pending[i]);
                let k = choose|k: int| 0 <= k < r.len() && r[k] == pending[i];
                if last.1 > lwm {
                    assert(still_pending(pending, lwm) == r + seq![last]);
                    assert(still_pending(pending, lwm)[k] == r[k]);
                } else {
                    assert(still_pending(pending, lwm) == r);
                }
            } else {
                assert(still_pending(pending, lwm) == r + seq![last]);
                assert(still_pending(pending, lwm)[r.len() as int] == last);
            }
        }
    }
}

/// Releasing a snapshot undoes taking it: the reader table is as before.
pub proof fn lemma_begin_then_end_read(readers: Map<u64, u32>, g: u64)
    requires
        forall|k: u64| #[trigger] readers.contains_key(k) ==> readers[k] > 0,
        readers.contains_key(g) ==> readers[g] < u32::MAX,
    ensures
        readers_after_end(readers_after_begin(readers, g), g) == readers,
{
    assert(readers_after_end(readers_after_begin(readers, g), g) =~= readers);
}

/// Every page superseded by commits is eventually either reclaimed or kept
/// pending: a reclamation pass loses none and invents none.
pub proof fn lemma_reclaim_partitions(pending: Seq<(u64, u64)>, lwm: u64)
    ensures
        reclaimable(pending, lwm).len() + still_pending(pending, lwm).len() == pending.len(),
        forall|i: int|
            0 <= i < still_pending(pending, lwm).len() ==> #[trigger] still_pending(pending, lwm)[i].1
                > lwm,
    decreases pending.len(),
{
    if pending.len() > 0 {
        lemma_reclaim_partitions(pending.drop_last(), lwm);
    }
}

} // verus!
