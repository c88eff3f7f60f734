//! Copy-on-write B+-tree over pages of a [`NodeStore`]: a mutation never
//! rewrites a live page, it writes new pages along the path to a new root.
//! Keys and values are byte strings ordered byte-wise.

use crate::node::{
    decode_bytes, leaf_fits, leaf_image, leaf_view, internal_fits, internal_image, internal_view,
    lemma_parse_internal_image, lemma_parse_leaf_image, parse_node, try_encode_internal,
    try_encode_leaf, InternalEntry, LeafEntry, Node, NodeView,
};
use crate::order::{compare_keys, key_le, key_lt, lemma_key_lt_total, KeyOrder};
use crate::pager::{pager_message_is, PageId, PagerError};
use crate::text::{decimal, decimal_string};
use crate::tree_model::{
    above, below, bound_lt, strictly_above, separators_sorted, separators_within, child_specs, find, in_bounds, lemma_child_specs_chain,
    lemma_concat_pick, lemma_find_at, lemma_find_absent, lemma_find_skip_prefix,
    lemma_find_skip_suffix, lemma_absent_between, lemma_subtree_sorted, lemma_tree_contents,
    lemma_below_no_key, lemma_above_no_key, lemma_submap_trans, sorted_keys, ChildSpec, Bound,
    after_start, before_end, in_range, range_of, subtree, tree_contents, Entry,
};
use vstd::prelude::*;
use vstd::string::StringExecFns;

verus! {

#[derive(Debug)]
pub enum BTreeError {
    Pager(PagerError),
    /// A single key/value pair too large to fit in an otherwise-empty page.
    EntryTooLarge { key_len: usize, value_len: usize },
    /// A node's bytes do not parse as a valid leaf or internal node, a node
    /// cannot be split to fit its page, or an underlying store write failed.
    Corrupt(String),
}

impl From<PagerError> for BTreeError {
    fn from(e: PagerError) -> (r: Self) {
        BTreeError::Pager(e)
    }
}

impl vstd::std_specs::convert::FromSpecImpl<PagerError> for BTreeError {
    open spec fn obeys_from_spec() -> bool {
        true
    }

    open spec fn from_spec(e: PagerError) -> Self {
        BTreeError::Pager(e)
    }
}

/// `m` is the text of error `e`.
pub open spec fn btree_message_is(e: BTreeError, m: Seq<char>) -> bool {
    match e {
        BTreeError::Pager(e) => pager_message_is(e, m),
        BTreeError::EntryTooLarge { key_len, value_len } => m == "key ("@ + decimal(key_len as nat)
            + " bytes) + value ("@ + decimal(value_len as nat) + " bytes) too large for one page"@,
        BTreeError::Corrupt(msg) => m == "corrupt b-tree node: "@ + msg@,
    }
}

impl BTreeError {
    /// A human-readable description of the error.
    pub fn message(&self) -> (r: String)
        ensures
            btree_message_is(*self, r@),
    {
        match self {
            BTreeError::Pager(e) => e.message(),
            BTreeError::EntryTooLarge { key_len, value_len } => {
                let mut s = String::from_str("key (");
                let d = decimal_string(*key_len as u64);
                s.append(d.as_str());
                s.append(" bytes) + value (");
                let d = decimal_string(*value_len as u64);
                s.append(d.as_str());
                s.append(" bytes) too large for one page");
                s
            },
            BTreeError::Corrupt(msg) => {
                let mut s = String::from_str("corrupt b-tree node: ");
                s.append(msg.as_str());
                s
            },
        }
    }
}

/// What a B+-tree reads node pages from and writes new node pages through.
///
/// `pages` is the map from page id to page content that the store
/// guarantees: reading a page of it gives that content back, and writing a
/// new node changes it only by adding the new page (a failed write adds
/// none). The store's own failures are reported as `Pager` errors, so the
/// tree's other errors are its own findings. Whether a read or a write
/// succeeds is the store's affair and is not promised here. A store that
/// keeps the default description (no pages, page size 0) holds no
/// well-formed tree, so the tree's contracts promise nothing about it.
pub trait NodeStore {
    closed spec fn pages(&self) -> Map<PageId, Seq<u8>> {
        Map::empty()
    }

    closed spec fn spec_page_size(&self) -> nat {
        0
    }

    /// Every node written so far, in order: the base it was derived from
    /// and its bytes.
    closed spec fn writes(&self) -> Seq<NodeWrite> {
        Seq::empty()
    }

    /// Every page read so far, in order, with what the read returned.
    closed spec fn reads(&self) -> Seq<NodeRead> {
        Seq::empty()
    }

    /// What every read and write so far returned, in order.
    closed spec fn calls(&self) -> Seq<CallResult> {
        Seq::empty()
    }

    fn page_size(&self) -> (r: usize)
        ensures
            r == self.spec_page_size(),
    ;

    /// Reads page `id` into `buf`, which must be `page_size()` bytes.
    fn read_page(&mut self, id: PageId, buf: &mut [u8]) -> (r: Result<(), BTreeError>)
        requires
            old(buf)@.len() == old(self).spec_page_size(),
        ensures
            final(self).pages() == old(self).pages(),
            final(self).spec_page_size() == old(self).spec_page_size(),
            final(self).writes() == old(self).writes(),
            final(self).reads() == old(self).reads().push((id, r)),
            final(self).calls() == old(self).calls().push(r),
            final(buf)@.len() == old(buf)@.len(),
            r is Ok && old(self).pages().contains_key(id) ==> final(buf)@ == old(self).pages()[id],
            r is Err ==> r->Err_0 is Pager,
    ;

    /// Writes `buf` to a freshly allocated page and returns its id. `base`
    /// is the page this content was derived from (`None` for a brand-new
    /// node).
    fn write_new_node(&mut self, base: Option<PageId>, buf: &[u8]) -> (r: Result<PageId, BTreeError>)
        requires
            buf@.len() == old(self).spec_page_size(),
        ensures
            old(self).pages().submap_of(final(self).pages()),
            final(self).spec_page_size() == old(self).spec_page_size(),
            r is Ok ==> !old(self).pages().contains_key(r->Ok_0) && final(self).pages().contains_key(
                r->Ok_0,
            ) && final(self).pages()[r->Ok_0] == buf@,
            r is Ok ==> final(self).pages() == old(self).pages().insert(r->Ok_0, buf@),
            r is Err ==> final(self).pages() == old(self).pages(),
            final(self).calls() == old(self).calls().push(call_result(r)),
            r is Ok ==> final(self).writes() == old(self).writes().push((base, buf@)),
            r is Err ==> final(self).writes() == old(self).writes(),
            r is Err ==> r->Err_0 is Pager,
    ;
}

/// What a store call returned, its value left out.
pub type CallResult = Result<(), BTreeError>;

pub open spec fn call_result<T>(r: Result<T, BTreeError>) -> CallResult {
    match r {
        Ok(_) => Ok(()),
        Err(e) => Err(e),
    }
}

/// Every store call of `cs` succeeded.
pub open spec fn calls_ok(cs: Seq<CallResult>) -> bool {
    forall|i: int| 0 <= i < cs.len() ==> (#[trigger] cs[i]) is Ok
}

/// The store calls `cs` all succeeded but the last, which failed with `e`.
pub open spec fn failed_by_last_call(cs: Seq<CallResult>, e: BTreeError) -> bool {
    &&& cs.len() > 0
    &&& cs.last() == Err::<(), BTreeError>(e)
    &&& calls_ok(cs.drop_last())
}

/// Calls made after a stretch of successful ones keep what they say of
/// success and of the failing call.
proof fn lemma_calls_after_ok(c0: Seq<CallResult>, c1: Seq<CallResult>, c2: Seq<CallResult>)
    requires
        log_extends(c0, c1),
        log_extends(c1, c2),
        calls_ok(log_since(c0, c1)),
    ensures
        log_extends(c0, c2),
        calls_ok(log_since(c1, c2)) ==> calls_ok(log_since(c0, c2)),
        forall|e: BTreeError| #[trigger] failed_by_last_call(log_since(c1, c2), e) ==> failed_by_last_call(log_since(c0, c2), e),
{
    lemma_log_chain(c0, c1, c2);
    let a = log_since(c0, c1);
    let b = log_since(c1, c2);
    assert forall|i: int| 0 <= i < (a + b).len() && calls_ok(b) implies (#[trigger] (a + b)[i]) is Ok by {
        if i < a.len() {
            assert((a + b)[i] == a[i]);
        } else {
            assert((a + b)[i] == b[i - a.len()]);
        }
    }
    assert forall|e: BTreeError| #[trigger] failed_by_last_call(b, e) implies failed_by_last_call(a + b, e) by {
        assert((a + b).drop_last() =~= a + b.drop_last());
        let d = b.drop_last();
        assert forall|i: int| 0 <= i < (a + d).len() implies (#[trigger] (a + d)[i]) is Ok by {
            if i < a.len() {
                assert((a + d)[i] == a[i]);
            } else {
                assert((a + d)[i] == d[i - a.len()]);
            }
        }
    }
}

/// One more store call after a stretch of successful ones.
proof fn lemma_one_call(c0: Seq<CallResult>, c1: Seq<CallResult>, x: CallResult)
    requires
        log_extends(c0, c1),
        calls_ok(log_since(c0, c1)),
    ensures
        log_extends(c0, c1.push(x)),
        x is Ok ==> calls_ok(log_since(c0, c1.push(x))),
        x is Err ==> failed_by_last_call(log_since(c0, c1.push(x)), x->Err_0),
{
    lemma_log_push(c1, x);
    assert(seq![x].drop_last() =~= Seq::<CallResult>::empty());
    lemma_calls_after_ok(c0, c1, c1.push(x));
    if x is Err {
        assert(failed_by_last_call(log_since(c1, c1.push(x)), x->Err_0));
    }
}

/// A page read: the page and what the store answered.
pub type NodeRead = (PageId, Result<(), BTreeError>);

/// `after` goes on from `before`.
pub open spec fn log_extends<A>(before: Seq<A>, after: Seq<A>) -> bool {
    before.len() <= after.len() && after.take(before.len() as int) == before
}

/// The entries of `after` past `before`.
pub open spec fn log_since<A>(before: Seq<A>, after: Seq<A>) -> Seq<A> {
    after.skip(before.len() as int)
}

/// Every read of `rs` succeeded.
pub open spec fn reads_ok(rs: Seq<NodeRead>) -> bool {
    forall|i: int| 0 <= i < rs.len() ==> (#[trigger] rs[i]).1 is Ok
}

/// The reads `rs` all succeeded but the last, which failed with `e`.
pub open spec fn failed_by_last_read(rs: Seq<NodeRead>, e: BTreeError) -> bool {
    &&& rs.len() > 0
    &&& rs.last().1 == Err::<(), BTreeError>(e)
    &&& reads_ok(rs.drop_last())
}

proof fn lemma_log_push<A>(a: Seq<A>, x: A)
    ensures
        log_extends(a, a.push(x)),
        log_since(a, a.push(x)) == seq![x],
{
    assert(a.push(x).take(a.len() as int) =~= a);
    assert(a.push(x).skip(a.len() as int) =~= seq![x]);
}

proof fn lemma_log_same<A>(a: Seq<A>)
    ensures
        log_extends(a, a),
        log_since(a, a) == Seq::<A>::empty(),
{
    assert(a.take(a.len() as int) =~= a);
    assert(a.skip(a.len() as int) =~= Seq::<A>::empty());
}

proof fn lemma_log_chain<A>(a: Seq<A>, b: Seq<A>, c: Seq<A>)
    requires
        log_extends(a, b),
        log_extends(b, c),
    ensures
        log_extends(a, c),
        log_since(a, c) == log_since(a, b) + log_since(b, c),
{
    assert(c.take(a.len() as int) =~= c.take(b.len() as int).take(a.len() as int));
    assert(log_since(a, c) =~= log_since(a, b) + log_since(b, c));
}

proof fn lemma_reads_ok_concat(a: Seq<NodeRead>, b: Seq<NodeRead>)
    requires
        reads_ok(a),
        reads_ok(b),
    ensures
        reads_ok(a + b),
{
    assert forall|i: int| 0 <= i < (a + b).len() implies (#[trigger] (a + b)[i]).1 is Ok by {
        if i < a.len() {
            assert((a + b)[i] == a[i]);
        } else {
            assert((a + b)[i] == b[i - a.len()]);
        }
    }
}

proof fn lemma_reads_fail_concat(a: Seq<NodeRead>, b: Seq<NodeRead>, e: BTreeError)
    requires
        reads_ok(a),
        failed_by_last_read(b, e),
    ensures
        failed_by_last_read(a + b, e),
{
    assert((a + b).drop_last() =~= a + b.drop_last());
    lemma_reads_ok_concat(a, b.drop_last());
}

/// A node write: the page it was derived from (`None` for a brand-new node)
/// and the bytes written.
pub type NodeWrite = (Option<PageId>, Seq<u8>);

/// The writes a store made between two points: `after` goes on from
/// `before`.
pub open spec fn writes_extend(before: Seq<NodeWrite>, after: Seq<NodeWrite>) -> bool {
    before.len() <= after.len() && after.take(before.len() as int) == before
}

/// The writes made after `before`.
pub open spec fn writes_since(before: Seq<NodeWrite>, after: Seq<NodeWrite>) -> Seq<NodeWrite> {
    after.skip(before.len() as int)
}

/// The bases of `ws`, in order.
pub open spec fn bases_of(ws: Seq<NodeWrite>) -> Seq<Option<PageId>> {
    ws.map_values(|w: NodeWrite| w.0)
}

/// `n` copies of base `b`.
pub open spec fn repeat_base(b: Option<PageId>, n: nat) -> Seq<Option<PageId>> {
    Seq::new(n, |i: int| b)
}

/// Every write of `ws` was derived from base `b`.
pub open spec fn all_based(ws: Seq<NodeWrite>, b: Option<PageId>) -> bool {
    forall|i: int| 0 <= i < ws.len() ==> (#[trigger] ws[i]).0 == b
}

proof fn lemma_all_based_concat(a: Seq<NodeWrite>, c: Seq<NodeWrite>, b: Option<PageId>)
    requires
        all_based(a, b),
        all_based(c, b),
    ensures
        all_based(a + c, b),
{
    assert forall|i: int| 0 <= i < (a + c).len() implies (#[trigger] (a + c)[i]).0 == b by {
        if i >= a.len() {
            assert((a + c)[i] == c[i - a.len()]);
        }
    }
}

proof fn lemma_all_based_bases(ws: Seq<NodeWrite>, b: Option<PageId>)
    requires
        all_based(ws, b),
    ensures
        bases_of(ws) == repeat_base(b, ws.len()),
{
    assert(bases_of(ws) =~= repeat_base(b, ws.len()));
}

/// `w` goes on from `w0` with writes all derived from base `b`.
pub open spec fn grows_based(w0: Seq<NodeWrite>, w: Seq<NodeWrite>, b: Option<PageId>) -> bool {
    writes_extend(w0, w) && all_based(writes_since(w0, w), b)
}

proof fn lemma_grows_same(w0: Seq<NodeWrite>, b: Option<PageId>)
    ensures
        grows_based(w0, w0, b),
{
    lemma_writes_same(w0);
}

proof fn lemma_grows_push(w0: Seq<NodeWrite>, w1: Seq<NodeWrite>, x: NodeWrite, b: Option<PageId>)
    requires
        grows_based(w0, w1, b),
        x.0 == b,
    ensures
        grows_based(w0, w1.push(x), b),
{
    assert(w1.push(x).take(w0.len() as int) =~= w1.take(w0.len() as int));
    assert(writes_since(w0, w1.push(x)) =~= writes_since(w0, w1).push(x));
}

proof fn lemma_writes_push(a: Seq<NodeWrite>, w: NodeWrite)
    ensures
        writes_extend(a, a.push(w)),
        writes_since(a, a.push(w)) == seq![w],
{
    assert(a.push(w).take(a.len() as int) =~= a);
    assert(a.push(w).skip(a.len() as int) =~= seq![w]);
}

proof fn lemma_writes_same(a: Seq<NodeWrite>)
    ensures
        writes_extend(a, a),
        writes_since(a, a) == Seq::<NodeWrite>::empty(),
{
    assert(a.take(a.len() as int) =~= a);
    assert(a.skip(a.len() as int) =~= Seq::<NodeWrite>::empty());
}

proof fn lemma_writes_chain(a: Seq<NodeWrite>, b: Seq<NodeWrite>, c: Seq<NodeWrite>)
    requires
        writes_extend(a, b),
        writes_extend(b, c),
    ensures
        writes_extend(a, c),
        writes_since(a, c) == writes_since(a, b) + writes_since(b, c),
{
    assert(c.take(a.len() as int) =~= b.take(b.len() as int).take(a.len() as int));
    assert(c.take(b.len() as int).take(a.len() as int) =~= c.take(a.len() as int));
    assert(writes_since(a, c) =~= writes_since(a, b) + writes_since(b, c)) by {
        assert(b =~= c.take(b.len() as int));
    }
}

proof fn lemma_bases_concat(a: Seq<NodeWrite>, b: Seq<NodeWrite>)
    ensures
        bases_of(a + b) == bases_of(a) + bases_of(b),
{
    assert(bases_of(a + b) =~= bases_of(a) + bases_of(b));
}

/// A handle onto a copy-on-write B+-tree rooted at a page.
pub struct BTree {
    root: PageId,
}

impl BTree {
    pub closed spec fn spec_root(&self) -> PageId {
        self.root
    }

    /// Reconstructs a tree handle from a previously observed root page id.
    pub fn from_root(root: PageId) -> (t: Self)
        ensures
            t.spec_root() == root,
    {
        BTree { root }
    }

    pub fn root(&self) -> (r: PageId)
        ensures
            r == self.spec_root(),
    {
        self.root
    }

    /// Returns the value for `key`, or `None` if absent.
    pub fn lookup<S: NodeStore>(&self, store: &mut S, key: &[u8]) -> (r: Result<Option<Vec<u8>>, BTreeError>)
        requires
            tree_contents(old(store).pages(), self.spec_root(), old(store).spec_page_size()) is Some,
        ensures
            final(store).pages() == old(store).pages(),
            final(store).writes() == old(store).writes(),
            final(store).spec_page_size() == old(store).spec_page_size(),
            r is Err ==> r->Err_0 is Pager,
            log_extends(old(store).reads(), final(store).reads()),
            r is Err ==> failed_by_last_read(log_since(old(store).reads(), final(store).reads()), r->Err_0),
            reads_ok(log_since(old(store).reads(), final(store).reads())) ==> r is Ok,
            r is Ok ==> opt_view(r->Ok_0) == find(
                tree_contents(old(store).pages(), self.spec_root(), old(store).spec_page_size())->0,
                key@,
            ),
    {
        let ghost ps = store.spec_page_size();
        let ghost h = choose|h: nat| #[trigger] subtree(store.pages(), self.root, None, None, h, ps) is Some;
        proof {
            lemma_tree_contents(store.pages(), self.root, h, ps);
        }
        let r = lookup_in(store, self.root, key, Ghost(None), Ghost(None), Ghost(h));
        proof {
            let rs = log_since(old(store).reads(), store.reads());
            if r is Err {
                assert(rs[rs.len() - 1].1 is Err);
            }
        }
        r
    }
}

impl BTree {
    /// Allocates a fresh page holding an empty leaf node and returns a tree
    /// rooted there.
    pub fn create_empty<S: NodeStore>(store: &mut S) -> (r: Result<Self, BTreeError>)
        ensures
            old(store).pages().submap_of(final(store).pages()),
            final(store).spec_page_size() == old(store).spec_page_size(),
            r is Ok ==> tree_contents(final(store).pages(), r->Ok_0.spec_root(), old(store).spec_page_size())
                == Some(Seq::<Entry>::empty()),
            !leaf_fits(Seq::empty(), old(store).spec_page_size()) ==> r is Err && final(store).pages() == old(
                store,
            ).pages() && (r->Err_0 matches BTreeError::Corrupt(m) && m@
                == "page size too small to hold even an empty leaf node"@),
            leaf_fits(Seq::empty(), old(store).spec_page_size()) ==> (r is Err ==> r->Err_0 is Pager),
            r is Ok ==> final(store).writes() == old(store).writes().push(
                (None, leaf_image(Seq::empty(), old(store).spec_page_size())),
            ) && final(store).pages() == old(store).pages().insert(
                r->Ok_0.spec_root(),
                leaf_image(Seq::empty(), old(store).spec_page_size()),
            ),
            r is Err ==> final(store).writes() == old(store).writes(),
            log_extends(old(store).calls(), final(store).calls()),
            r is Err && r->Err_0 is Pager ==> failed_by_last_call(
                log_since(old(store).calls(), final(store).calls()),
                r->Err_0,
            ),
            calls_ok(log_since(old(store).calls(), final(store).calls())) && leaf_fits(
                Seq::empty(),
                old(store).spec_page_size(),
            ) ==> r is Ok,
    {
        let ghost ps = store.spec_page_size();
        let ghost c0 = store.calls();
        proof {
            lemma_log_same(c0);
        }
        let page_size = store.page_size();
        let empty: Vec<LeafEntry> = Vec::new();
        let buf = match try_encode_leaf(empty.as_slice(), page_size) {
            Some(b) => b,
            None => {
                assert(leaf_view(empty@) =~= Seq::<Entry>::empty());
                return Err(corrupt("page size too small to hold even an empty leaf node"));
            },
        };
        proof {
            assert(leaf_view(empty@) =~= Seq::<Entry>::empty());
            lemma_parse_leaf_image(Seq::empty(), page_size as nat);
        }
        let wres = store.write_new_node(None, buf.as_slice());
        proof {
            lemma_one_call(c0, c0, call_result(wres));
        }
        let id = match wres {
            Ok(id) => id,
            Err(e) => {
                return Err(e);
            },
        };
        proof {
            lemma_tree_contents(store.pages(), id, 0, ps);
        }
        Ok(BTree { root: id })
    }

    /// Inserts `key` -> `value`, or overwrites the value if `key` is already
    /// present. Never mutates a live page: writes new pages along the path to
    /// the root and leaves old ones untouched.
    pub fn insert<S: NodeStore>(&mut self, store: &mut S, key: &[u8], value: &[u8]) -> (r: Result<(), BTreeError>)
        requires
            tree_contents(old(store).pages(), old(self).spec_root(), old(store).spec_page_size()) is Some,
        ensures
            old(store).pages().submap_of(final(store).pages()),
            final(store).spec_page_size() == old(store).spec_page_size(),
            r is Ok ==> tree_contents(final(store).pages(), final(self).spec_root(), old(store).spec_page_size())
                == Some(crate::tree_model::insert_entry(
                    tree_contents(old(store).pages(), old(self).spec_root(), old(store).spec_page_size())->0,
                    key@,
                    value@,
                )),
            r is Err ==> final(self).spec_root() == old(self).spec_root(),
            (r is Err && r->Err_0 is EntryTooLarge) <==> !leaf_fits(seq![(key@, value@)], old(store).spec_page_size()),
            r is Err && r->Err_0 is EntryTooLarge ==> r->Err_0 == (BTreeError::EntryTooLarge {
                key_len: key@.len() as usize,
                value_len: value@.len() as usize,
            }),
            !leaf_fits(seq![(key@, value@)], old(store).spec_page_size()) ==> final(store).pages() == old(
                store,
            ).pages() && final(self).spec_root() == old(self).spec_root(),
            r is Ok ==> insert_fits_tree(old(store).pages(), old(self).spec_root(), key@, value@, old(store).spec_page_size()),
            r is Err && r->Err_0 is Corrupt ==> !insert_fits_tree(
                old(store).pages(),
                old(self).spec_root(),
                key@,
                value@,
                old(store).spec_page_size(),
            ),
            leaf_fits(seq![(key@, value@)], old(store).spec_page_size()) && insert_fits_tree(
                old(store).pages(),
                old(self).spec_root(),
                key@,
                value@,
                old(store).spec_page_size(),
            ) ==> (r is Err ==> r->Err_0 is Pager),
            writes_extend(old(store).writes(), final(store).writes()),
            !leaf_fits(seq![(key@, value@)], old(store).spec_page_size()) ==> final(store).writes() == old(
                store,
            ).writes(),
            r is Ok ==> bases_of(writes_since(old(store).writes(), final(store).writes())) == insert_tree_bases(
                old(store).pages(),
                old(self).spec_root(),
                key@,
                value@,
                old(store).spec_page_size(),
            ),
            r is Err ==> based_on_path(
                writes_since(old(store).writes(), final(store).writes()),
                path_nodes(
                    old(store).pages(),
                    old(self).spec_root(),
                    key@,
                    tree_height(old(store).pages(), old(self).spec_root(), old(store).spec_page_size()),
                ),
            ),
            log_extends(old(store).calls(), final(store).calls()),
            r is Err && r->Err_0 is Pager ==> failed_by_last_call(
                log_since(old(store).calls(), final(store).calls()),
                r->Err_0,
            ),
            calls_ok(log_since(old(store).calls(), final(store).calls())) && leaf_fits(
                seq![(key@, value@)],
                old(store).spec_page_size(),
            ) && insert_fits_tree(
                old(store).pages(),
                old(self).spec_root(),
                key@,
                value@,
                old(store).spec_page_size(),
            ) ==> r is Ok,
    {
        let ghost w0 = store.writes();
        let ghost c0 = store.calls();
        proof {
            lemma_writes_same(w0);
            lemma_log_same(c0);
        }
        let ghost ps = store.spec_page_size();
        let ghost p = store.pages();
        let page_size = store.page_size();
        let mut solo: Vec<LeafEntry> = Vec::new();
        solo.push(LeafEntry { key: vstd::slice::slice_to_vec(key), value: vstd::slice::slice_to_vec(value) });
        proof {
            assert(leaf_view(solo@) =~= seq![(key@, value@)]);
        }
        if try_encode_leaf(solo.as_slice(), page_size).is_none() {
            return Err(BTreeError::EntryTooLarge { key_len: key.len(), value_len: value.len() });
        }
        proof {
            assert(seq![(key@, value@)][0] == (key@, value@));
        }
        let ghost h = choose|h: nat| #[trigger] subtree(p, self.root, None, None, h, ps) is Some;
        proof {
            lemma_tree_contents(p, self.root, h, ps);
        }
        let outcome = match insert_into(store, self.root, key, value, Ghost(None), Ghost(None), Ghost(h)) {
            Ok(o) => o,
            Err(e) => {
                return Err(e);
            },
        };
        match outcome {
            InsertOutcome::Fit(new_root) => {
                proof {
                    lemma_tree_contents(store.pages(), new_root, h, ps);
                    assert(insert_bases(p, self.root, key@, value@, None, None, h, ps) + Seq::<Option<PageId>>::empty()
                        =~= insert_bases(p, self.root, key@, value@, None, None, h, ps));
                }
                self.root = new_root;
                Ok(())
            },
            InsertOutcome::Split { left, sep_key, right } => {
                let ghost p1 = store.pages();
                let ghost sep = sep_key@;
                let mut entries: Vec<InternalEntry> = Vec::new();
                entries.push(InternalEntry { key: sep_key, child: right });
                proof {
                    assert(internal_view(entries@) =~= seq![(sep, right)]);
                    lemma_write_shape_same_keys(seq![(sep, 0u64)], seq![(sep, right)], ps);
                }
                let buf = match try_encode_internal(left, entries.as_slice(), page_size) {
                    Some(b) => b,
                    None => {
                        proof {
                            lemma_submap_trans(p, p1, store.pages());
                        }
                        return Err(corrupt("new root overflows its page"));
                    },
                };
                let ghost es = internal_view(entries@);
                proof {
                    assert(es =~= seq![(sep, right)]);
                    lemma_parse_internal_image(left, es, page_size as nat);
                }
                let ghost w1 = store.writes();
                let ghost c1 = store.calls();
                let wres = store.write_new_node(None, buf.as_slice());
                proof {
                    lemma_one_call(c0, c1, call_result(wres));
                }
                let id = match wres {
                    Ok(id) => id,
                    Err(e) => {
                        proof {
                            lemma_submap_trans(p, p1, store.pages());
                        }
                        return Err(e);
                    },
                };
                proof {
                    let p2 = store.pages();
                    lemma_submap_trans(p, p1, p2);
                    let specs = child_specs(left, es, None, None);
                    let ls = (left, None::<Seq<u8>>, Some(sep));
                    let rs = (right, Some(sep), None::<Seq<u8>>);
                    assert(specs =~= seq![ls] + seq![rs]);
                    crate::tree_model::lemma_subtree_frame(p1, p2, left, None, Some(sep), h, ps);
                    crate::tree_model::lemma_subtree_frame(p1, p2, right, Some(sep), None, h, ps);
                    crate::tree_model::lemma_concat_single(p2, ls, h, ps);
                    crate::tree_model::lemma_concat_single(p2, rs, h, ps);
                    crate::tree_model::lemma_concat_add(p2, seq![ls], seq![rs], h, ps);
                    assert(separators_sorted(es));
                    assert(separators_within(es, None, None));
                    assert(subtree(p2, id, None, None, h + 1, ps) is Some);
                    lemma_tree_contents(p2, id, h + 1, ps);
                    lemma_writes_push(w1, (None, buf@));
                    lemma_writes_chain(w0, w1, store.writes());
                    lemma_bases_concat(writes_since(w0, w1), seq![(None::<PageId>, buf@)]);
                    assert(bases_of(seq![(None::<PageId>, buf@)]) =~= seq![None::<PageId>]);
                }
                self.root = id;
                Ok(())
            },
        }
    }
}

pub open spec fn opt_view(o: Option<Vec<u8>>) -> Option<Seq<u8>> {
    match o {
        Some(v) => Some(v@),
        None => None,
    }
}

fn zeroed(n: usize) -> (v: Vec<u8>)
    ensures
        v@.len() == n,
{
    let mut v: Vec<u8> = Vec::new();
    let mut i: usize = 0;
    while i < n
        invariant
            i <= n,
            v@.len() == i,
        decreases n - i,
    {
        v.push(0u8);
        i += 1;
    }
    v
}

fn corrupt(msg: &str) -> (e: BTreeError)
    ensures
        e matches BTreeError::Corrupt(m) && m@ == msg@,
{
    BTreeError::Corrupt(msg.to_owned())
}

/// Reads and decodes the node at page `id`. A page whose type tag is neither
/// leaf nor internal is reported with its tag.
fn decode_node<S: NodeStore>(store: &mut S, id: PageId) -> (r: Result<Node, BTreeError>)
    ensures
        final(store).pages() == old(store).pages(),
        final(store).writes() == old(store).writes(),
        log_extends(old(store).reads(), final(store).reads()),
        log_since(old(store).reads(), final(store).reads()).len() == 1,
        log_since(old(store).reads(), final(store).reads())[0].0 == id,
        log_since(old(store).reads(), final(store).reads())[0].1 is Err ==> r == Err::<Node, BTreeError>(
            log_since(old(store).reads(), final(store).reads())[0].1->Err_0,
        ),
        log_since(old(store).reads(), final(store).reads())[0].1 is Ok ==> (r is Err ==> r->Err_0 is Corrupt),
        log_extends(old(store).calls(), final(store).calls()),
        r is Err && r->Err_0 is Pager ==> failed_by_last_call(log_since(old(store).calls(), final(store).calls()), r->Err_0),
        r is Ok ==> calls_ok(log_since(old(store).calls(), final(store).calls())),
        final(store).spec_page_size() == old(store).spec_page_size(),
        r is Err ==> r->Err_0 is Pager || (r->Err_0 is Corrupt && (old(store).pages().contains_key(
            id,
        ) ==> parse_node(old(store).pages()[id]) is None)),
        r is Err && r->Err_0 is Corrupt && old(store).pages().contains_key(id) && old(
            store,
        ).pages()[id].len() >= 1 && old(store).pages()[id][0] != 0 && old(store).pages()[id][0] != 1
            ==> (r->Err_0 matches BTreeError::Corrupt(m) && m@ == "unknown node type tag "@ + decimal(
            old(store).pages()[id][0] as nat,
        )),
        r is Ok && old(store).pages().contains_key(id) ==> parse_node(old(store).pages()[id]) == Some(
            r->Ok_0@,
        ),
{
    let ghost r0 = store.reads();
    let ghost c0 = store.calls();
    let page_size = store.page_size();
    let mut buf = zeroed(page_size);
    let res = store.read_page(id, buf.as_mut_slice());
    proof {
        lemma_log_push(r0, (id, res));
        lemma_log_push(c0, res);
        assert(seq![res].drop_last() =~= Seq::<CallResult>::empty());
    }
    match res {
        Ok(()) => {},
        Err(e) => {
            return Err(e);
        },
    }
    decode_bytes(buf.as_slice())
}

/// Index of the first leaf entry whose key is not below `key`, and whether
/// that entry holds `key`.
fn search_leaf(entries: &Vec<LeafEntry>, key: &[u8]) -> (r: (usize, bool))
    requires
        sorted_keys(leaf_view(entries@)),
    ensures
        r.0 <= entries@.len(),
        forall|j: int| 0 <= j < r.0 ==> key_lt((#[trigger] entries@[j]).key@, key@),
        r.0 < entries@.len() ==> key_le(key@, entries@[r.0 as int].key@),
        r.1 <==> (r.0 < entries@.len() && entries@[r.0 as int].key@ == key@),
{
    let ghost es = leaf_view(entries@);
    let mut lo: usize = 0;
    let mut hi: usize = entries.len();
    while lo < hi
        invariant
            lo <= hi <= entries@.len(),
            es == leaf_view(entries@),
            sorted_keys(es),
            forall|j: int| 0 <= j < lo ==> key_lt((#[trigger] entries@[j]).key@, key@),
            forall|j: int| hi <= j < entries@.len() ==> key_le(key@, (#[trigger] entries@[j]).key@),
        decreases hi - lo,
    {
        let mid = lo + (hi - lo) / 2;
        match compare_keys(entries[mid].key.as_slice(), key) {
            KeyOrder::Less => {
                proof {
                    assert forall|j: int| 0 <= j <= mid implies key_lt((#[trigger] entries@[j]).key@, key@) by {
                        if j < mid {
                            assert(key_lt(es[j].0, es[mid as int].0));
                            crate::order::lemma_key_lt_trans(entries@[j].key@, entries@[mid as int].key@, key@);
                        }
                    }
                }
                lo = mid + 1;
            },
            _ => {
                proof {
                    assert forall|j: int| mid <= j < entries@.len() implies key_le(key@, (#[trigger] entries@[j]).key@) by {
                        if j > mid {
                            assert(key_lt(es[mid as int].0, es[j].0));
                            crate::order::lemma_key_le_lt_trans(key@, entries@[mid as int].key@, entries@[j].key@);
                        }
                    }
                }
                hi = mid;
            },
        }
    }
    if lo < entries.len() {
        match compare_keys(entries[lo].key.as_slice(), key) {
            KeyOrder::Equal => (lo, true),
            _ => (lo, false),
        }
    } else {
        (lo, false)
    }
}

/// Index of the child that should hold `key`: the number of separators not
/// above it (0 means `leftmost`, `i >= 1` means `entries[i - 1].child`).
fn child_index(entries: &Vec<InternalEntry>, key: &[u8]) -> (idx: usize)
    requires
        crate::tree_model::separators_sorted(internal_view(entries@)),
    ensures
        idx <= entries@.len(),
        forall|j: int| 0 <= j < idx ==> key_le((#[trigger] entries@[j]).key@, key@),
        idx < entries@.len() ==> key_lt(key@, entries@[idx as int].key@),
{
    let ghost es = internal_view(entries@);
    let mut lo: usize = 0;
    let mut hi: usize = entries.len();
    while lo < hi
        invariant
            lo <= hi <= entries@.len(),
            es == internal_view(entries@),
            crate::tree_model::separators_sorted(es),
            forall|j: int| 0 <= j < lo ==> key_le((#[trigger] entries@[j]).key@, key@),
            forall|j: int| hi <= j < entries@.len() ==> key_lt(key@, (#[trigger] entries@[j]).key@),
        decreases hi - lo,
    {
        let mid = lo + (hi - lo) / 2;
        match compare_keys(entries[mid].key.as_slice(), key) {
            KeyOrder::Greater => {
                proof {
                    assert forall|j: int| mid <= j < entries@.len() implies key_lt(key@, (#[trigger] entries@[j]).key@) by {
                        if j > mid {
                            assert(key_lt(es[mid as int].0, es[j].0));
                            crate::order::lemma_key_lt_trans(key@, entries@[mid as int].key@, entries@[j].key@);
                        }
                    }
                }
                hi = mid;
            },
            _ => {
                proof {
                    assert forall|j: int| 0 <= j <= mid implies key_le((#[trigger] entries@[j]).key@, key@) by {
                        if j < mid {
                            assert(key_lt(es[j].0, es[mid as int].0));
                            crate::order::lemma_key_lt_le_trans(entries@[j].key@, entries@[mid as int].key@, key@);
                        }
                    }
                }
                lo = mid + 1;
            },
        }
    }
    lo
}

/// The child of an internal node at index `idx`.
fn child_at(leftmost: PageId, entries: &Vec<InternalEntry>, idx: usize) -> (c: PageId)
    requires
        idx <= entries@.len(),
    ensures
        c == child_specs(leftmost, internal_view(entries@), None, None)[idx as int].0,
{
    if idx == 0 {
        leftmost
    } else {
        entries[idx - 1].child
    }
}

fn lookup_in<S: NodeStore>(
    store: &mut S,
    node_id: PageId,
    key: &[u8],
    Ghost(lo): Ghost<Option<Seq<u8>>>,
    Ghost(hi): Ghost<Option<Seq<u8>>>,
    Ghost(h): Ghost<nat>,
) -> (r: Result<Option<Vec<u8>>, BTreeError>)
    requires
        subtree(old(store).pages(), node_id, lo, hi, h, old(store).spec_page_size()) is Some,
        above(key@, lo),
        below(key@, hi),
    ensures
        final(store).pages() == old(store).pages(),
        final(store).writes() == old(store).writes(),
        final(store).spec_page_size() == old(store).spec_page_size(),
        r is Err ==> r->Err_0 is Pager,
        log_extends(old(store).reads(), final(store).reads()),
        r is Err ==> failed_by_last_read(log_since(old(store).reads(), final(store).reads()), r->Err_0),
        r is Ok ==> reads_ok(log_since(old(store).reads(), final(store).reads())),
        r is Ok ==> opt_view(r->Ok_0) == find(
            subtree(old(store).pages(), node_id, lo, hi, h, old(store).spec_page_size())->0,
            key@,
        ),
    decreases h,
{
    let ghost p = store.pages();
    let ghost ps = store.spec_page_size();
    let ghost r0 = store.reads();
    let node = match decode_node(store, node_id) {
        Ok(n) => n,
        Err(e) => {
            proof {
                let rs = log_since(r0, store.reads());
                assert(rs.drop_last() =~= Seq::<NodeRead>::empty());
            }
            return Err(e);
        },
    };
    let ghost r1 = store.reads();
    assert(reads_ok(log_since(r0, r1)));
    match node {
        Node::Leaf(entries) => {
            let ghost es = leaf_view(entries@);
            let (i, found) = search_leaf(&entries, key);
            if found {
                proof {
                    lemma_find_at(es, i as int);
                }
                Ok(Some(vstd::slice::slice_to_vec(entries[i].value.as_slice())))
            } else {
                proof {
                    assert forall|j: int| i <= j < es.len() implies key_lt(key@, (#[trigger] es[j]).0) by {
                        if j == i {
                            lemma_key_lt_total(key@, es[j].0);
                        } else {
                            assert(key_lt(es[i as int].0, es[j].0));
                            crate::order::lemma_key_le_lt_trans(key@, es[i as int].0, es[j].0);
                        }
                    }
                    lemma_absent_between(es, i as int, key@);
                    lemma_find_absent(es, key@);
                }
                Ok(None)
            }
        },
        Node::Internal { leftmost, entries } => {
            let ghost es = internal_view(entries@);
            let ghost specs = child_specs(leftmost, es, lo, hi);
            let idx = child_index(&entries, key);
            let child = child_at(leftmost, &entries, idx);
            proof {
                lemma_child_specs_chain(leftmost, es, lo, hi);
                lemma_concat_pick(p, specs, (h - 1) as nat, ps, idx as int, key@);
                let a = crate::tree_model::concat_subtrees(p, specs.take(idx as int), (h - 1) as nat, ps)->0;
                let b = crate::tree_model::concat_subtrees(p, specs.skip(idx as int + 1), (h - 1) as nat, ps)->0;
                let c = subtree(p, child, specs[idx as int].1, specs[idx as int].2, (h - 1) as nat, ps)->0;
                lemma_below_no_key(a, key@);
                lemma_above_no_key(b, key@);
                lemma_find_skip_prefix(a, c + b, key@);
                assert(a + c + b =~= a + (c + b));
                lemma_find_skip_suffix(c, b, key@);
            }
            let r = lookup_in(
                store,
                child,
                key,
                Ghost(specs[idx as int].1),
                Ghost(specs[idx as int].2),
                Ghost((h - 1) as nat),
            );
            proof {
                lemma_log_chain(r0, r1, store.reads());
                if r is Err {
                    lemma_reads_fail_concat(log_since(r0, r1), log_since(r1, store.reads()), r->Err_0);
                } else {
                    lemma_reads_ok_concat(log_since(r0, r1), log_since(r1, store.reads()));
                }
            }
            r
        },
    }
}

// ----- choosing where to split an overflowing node -----
/// Sum of the first `i` sizes.
pub open spec fn psum(sizes: Seq<usize>, i: int) -> int
    decreases i,
{
    if i <= 0 || i > sizes.len() {
        0
    } else {
        psum(sizes, i - 1) + sizes[i - 1]
    }
}

/// Entries `lo..hi`, of the given cell sizes, fit one page behind a header
/// of `overhead` bytes with a 4-byte slot each.
pub open spec fn span_fits(sizes: Seq<usize>, overhead: int, page_size: int, lo: int, hi: int) -> bool {
    overhead + (hi - lo) * 4 + (psum(sizes, hi) - psum(sizes, lo)) <= page_size
}

pub open spec fn leaf_split_ok(sizes: Seq<usize>, overhead: int, page_size: int, i: int) -> bool {
    1 <= i < sizes.len() && span_fits(sizes, overhead, page_size, 0, i) && span_fits(
        sizes,
        overhead,
        page_size,
        i,
        sizes.len() as int,
    )
}

pub open spec fn abs_diff(a: int, b: int) -> int {
    if a >= b {
        a - b
    } else {
        b - a
    }
}

/// How far splitting before entry `i` is from halving the total size.
pub open spec fn leaf_split_dist(sizes: Seq<usize>, i: int) -> int {
    abs_diff(psum(sizes, i), psum(sizes, sizes.len() as int) / 2)
}

proof fn lemma_psum_bound(sizes: Seq<usize>, i: int, bound: int)
    requires
        0 <= i <= sizes.len(),
        0 <= bound,
        forall|j: int| 0 <= j < sizes.len() ==> #[trigger] sizes[j] <= bound,
    ensures
        0 <= psum(sizes, i) <= i * bound,
    decreases i,
{
    if i > 0 {
        lemma_psum_bound(sizes, i - 1, bound);
        assert((i - 1) * bound + bound == i * bound) by (nonlinear_arith);
    }
}

proof fn lemma_psum_mono(sizes: Seq<usize>, i: int, j: int)
    requires
        0 <= i <= j <= sizes.len(),
    ensures
        psum(sizes, i) <= psum(sizes, j),
    decreases j - i,
{
    if i < j {
        lemma_psum_mono(sizes, i, j - 1);
    }
}

/// Picks an index in `1..sizes.len()` splitting `sizes` into two halves
/// that each fit `page_size` once `overhead` (node header) and per-entry
/// slots are accounted for, nearest to an even split of the total size and,
/// among equally near ones, the lowest.
fn choose_split_point(sizes: &Vec<usize>, overhead: usize, page_size: usize) -> (r: Option<usize>)
    requires
        sizes@.len() <= 0x10000,
        overhead <= 16,
        forall|j: int| 0 <= j < sizes@.len() ==> #[trigger] sizes@[j] <= 0x20004,
    ensures
        match r {
            Some(i) => leaf_split_ok(sizes@, overhead as int, page_size as int, i as int) && forall|
                j: int,
            |
                #![trigger leaf_split_ok(sizes@, overhead as int, page_size as int, j)]
                leaf_split_ok(sizes@, overhead as int, page_size as int, j) ==> (leaf_split_dist(
                    sizes@,
                    i as int,
                ) < leaf_split_dist(sizes@, j) || (leaf_split_dist(sizes@, i as int)
                    == leaf_split_dist(sizes@, j) && i <= j)),
            None => forall|j: int| !leaf_split_ok(sizes@, overhead as int, page_size as int, j),
        },
{
    let n = sizes.len();
    if n < 2 {
        return None;
    }
    let mut prefix: Vec<u64> = Vec::new();
    prefix.push(0);
    let mut i: usize = 0;
    while i < n
        invariant
            i <= n == sizes@.len() <= 0x10000,
            prefix@.len() == i + 1,
            forall|j: int| 0 <= j <= i ==> #[trigger] prefix@[j] == psum(sizes@, j),
            forall|j: int| 0 <= j < sizes@.len() ==> #[trigger] sizes@[j] <= 0x20004,
        decreases n - i,
    {
        proof {
            lemma_psum_bound(sizes@, i as int + 1, 0x20004);
            assert((i + 1) * 0x20004 <= 0x10000 * 0x20004) by (nonlinear_arith)
                requires i + 1 <= 0x10000;
        }
        let next = prefix[i] + sizes[i] as u64;
        prefix.push(next);
        i += 1;
    }
    let total = prefix[n];
    proof {
        lemma_psum_bound(sizes@, n as int, 0x20004);
        assert(n * 0x20004 <= 0x10000 * 0x20004) by (nonlinear_arith)
            requires n <= 0x10000;
    }
    let target = total / 2;
    let mut best: Option<usize> = None;
    let mut best_dist: u64 = 0;
    let mut i: usize = 1;
    while i < n
        invariant
            1 <= i <= n == sizes@.len(),
            2 <= n,
            prefix@.len() == n + 1,
            forall|j: int| 0 <= j <= n ==> #[trigger] prefix@[j] == psum(sizes@, j),
            total == psum(sizes@, n as int),
            total <= 0x10000 * 0x20004,
            n <= 0x10000,
            target == total / 2,
            overhead <= 16,
            match best {
                Some(b) => 1 <= b < i && leaf_split_ok(sizes@, overhead as int, page_size as int, b as int)
                    && best_dist == leaf_split_dist(sizes@, b as int),
                None => true,
            },
            forall|j: int|
                #![trigger leaf_split_ok(sizes@, overhead as int, page_size as int, j)]
                1 <= j < i && leaf_split_ok(sizes@, overhead as int, page_size as int, j) ==> match best {
                    Some(b) => leaf_split_dist(sizes@, b as int) < leaf_split_dist(sizes@, j) || (
                    leaf_split_dist(sizes@, b as int) == leaf_split_dist(sizes@, j) && b <= j),
                    None => false,
                },
        decreases n - i,
    {
        proof {
            lemma_psum_mono(sizes@, i as int, n as int);
            lemma_psum_mono(sizes@, 0, i as int);
        }
        let left_bytes = prefix[i];
        let right_bytes = total - prefix[i];
        let left_fits = (overhead as u64) + (i as u64) * 4 + left_bytes <= page_size as u64;
        let right_fits = (overhead as u64) + ((n - i) as u64) * 4 + right_bytes <= page_size as u64;
        if left_fits && right_fits {
            let d = if left_bytes >= target {
                left_bytes - target
            } else {
                target - left_bytes
            };
            match best {
                Some(_) => {
                    if d < best_dist {
                        best = Some(i);
                        best_dist = d;
                    }
                },
                None => {
                    best = Some(i);
                    best_dist = d;
                },
            }
        }
        i += 1;
    }
    best
}

/// Cell sizes of leaf entries: two length fields, the key and the value.
pub open spec fn leaf_sizes(es: Seq<Entry>) -> Seq<usize> {
    Seq::new(es.len(), |j: int| (4 + es[j].0.len() + es[j].1.len()) as usize)
}

/// Splitting a leaf before entry `i` leaves two fitting halves, and no other
/// such point is nearer an even split of the bytes (ties go to the lower).
pub open spec fn leaf_split_best(sizes: Seq<usize>, page_size: int, i: int) -> bool {
    &&& leaf_split_ok(sizes, 8, page_size, i)
    &&& forall|j: int|
        #![trigger leaf_split_ok(sizes, 8, page_size, j)]
        leaf_split_ok(sizes, 8, page_size, j) ==> (leaf_split_dist(sizes, i) < leaf_split_dist(sizes, j) || (
        leaf_split_dist(sizes, i) == leaf_split_dist(sizes, j) && i <= j))
}

/// Cell sizes of internal entries: a length field, the key and a child id.
pub open spec fn internal_sizes(es: Seq<(Seq<u8>, PageId)>) -> Seq<usize> {
    Seq::new(es.len(), |j: int| (10 + es[j].0.len()) as usize)
}

/// Promoting entry `k` leaves two fitting halves, and no other such entry
/// is nearer the middle one (ties go to the lower).
pub open spec fn internal_split_best(sizes: Seq<usize>, page_size: int, k: int) -> bool {
    &&& internal_split_ok(sizes, page_size, k)
    &&& forall|j: int|
        #![trigger internal_split_ok(sizes, page_size, j)]
        internal_split_ok(sizes, page_size, j) ==> (internal_split_dist(sizes.len() as int, k)
            < internal_split_dist(sizes.len() as int, j) || (internal_split_dist(sizes.len() as int, k)
            == internal_split_dist(sizes.len() as int, j) && k <= j))
}

proof fn lemma_psum_take(s: Seq<usize>, m: int, i: int)
    requires
        0 <= i <= m <= s.len(),
    ensures
        psum(s.take(m), i) == psum(s, i),
    decreases i,
{
    if i > 0 {
        lemma_psum_take(s, m, i - 1);
    }
}

/// The sizes `lo..hi` sum to the difference of the prefix sums.
proof fn lemma_psum_sub(s: Seq<usize>, lo: int, hi: int)
    requires
        0 <= lo <= hi <= s.len(),
    ensures
        psum(s.subrange(lo, hi), hi - lo) == psum(s, hi) - psum(s, lo),
    decreases hi - lo,
{
    if hi > lo {
        lemma_psum_sub(s, lo, hi - 1);
        let sub = s.subrange(lo, hi);
        assert(sub.take(hi - 1 - lo) =~= s.subrange(lo, hi - 1));
        lemma_psum_take(sub, hi - 1 - lo, hi - 1 - lo);
    }
}

/// Cells of the given sizes concatenate to their total size.
proof fn lemma_concat_len_psum(cells: Seq<Seq<u8>>, sizes: Seq<usize>)
    requires
        cells.len() == sizes.len(),
        forall|j: int| 0 <= j < cells.len() ==> (#[trigger] cells[j]).len() == sizes[j],
    ensures
        crate::node::concat(cells).len() == psum(sizes, sizes.len() as int),
    decreases cells.len(),
{
    if cells.len() > 0 {
        let n = sizes.len() as int;
        lemma_concat_len_psum(cells.drop_last(), sizes.drop_last());
        assert(sizes.drop_last() =~= sizes.take(n - 1));
        lemma_psum_take(sizes, n - 1, n - 1);
    }
}

/// Leaf entries `lo..hi` whose span fits by their sizes fit one page.
proof fn lemma_leaf_span_fits(es: Seq<Entry>, lo: int, hi: int, page_size: nat)
    requires
        0 <= lo <= hi <= es.len(),
        page_size <= crate::le::U16_LIMIT,
        forall|j: int| 0 <= j < es.len() ==> (#[trigger] es[j]).0.len() <= 0xFFFF && es[j].1.len() <= 0xFFFF,
        span_fits(leaf_sizes(es), 8, page_size as int, lo, hi),
    ensures
        leaf_fits(es.subrange(lo, hi), page_size),
{
    vstd::bytes::lemma_auto_spec_u16_to_from_le_bytes();
    let sub = es.subrange(lo, hi);
    let cells = crate::node::leaf_cells(sub);
    let sizes = leaf_sizes(es).subrange(lo, hi);
    assert forall|j: int| 0 <= j < cells.len() implies (#[trigger] cells[j]).len() == sizes[j] by {
        assert(sub[j] == es[lo + j]);
    }
    lemma_concat_len_psum(cells, sizes);
    lemma_psum_sub(leaf_sizes(es), lo, hi);
    assert forall|j: int| #![trigger sub[j]] 0 <= j < sub.len() implies sub[j].0.len() <= crate::le::U16_LIMIT
        && sub[j].1.len() <= crate::le::U16_LIMIT by {
        assert(sub[j] == es[lo + j]);
    }
}

/// Internal entries `lo..hi` whose span fits by their sizes fit one page.
proof fn lemma_internal_span_fits(es: Seq<(Seq<u8>, PageId)>, lo: int, hi: int, page_size: nat)
    requires
        0 <= lo <= hi <= es.len(),
        page_size <= crate::le::U16_LIMIT,
        forall|j: int| 0 <= j < es.len() ==> (#[trigger] es[j]).0.len() <= 0xFFFF,
        internal_span_fits(internal_sizes(es), page_size as int, lo, hi),
    ensures
        internal_fits(es.subrange(lo, hi), page_size),
{
    vstd::bytes::lemma_auto_spec_u16_to_from_le_bytes();
    vstd::bytes::lemma_auto_spec_u64_to_from_le_bytes();
    let sub = es.subrange(lo, hi);
    let cells = crate::node::internal_cells(sub);
    let sizes = internal_sizes(es).subrange(lo, hi);
    assert forall|j: int| 0 <= j < cells.len() implies (#[trigger] cells[j]).len() == sizes[j] by {
        assert(sub[j] == es[lo + j]);
    }
    lemma_concat_len_psum(cells, sizes);
    lemma_psum_sub(internal_sizes(es), lo, hi);
    assert forall|j: int| #![trigger sub[j]] 0 <= j < sub.len() implies sub[j].0.len() <= crate::le::U16_LIMIT by {
        assert(sub[j] == es[lo + j]);
    }
}

proof fn lemma_leaf_best_unique(sizes: Seq<usize>, page_size: int, i: int, j: int)
    requires
        leaf_split_best(sizes, page_size, i),
        leaf_split_best(sizes, page_size, j),
    ensures
        i == j,
{
    assert(leaf_split_ok(sizes, 8, page_size, j));
    assert(leaf_split_ok(sizes, 8, page_size, i));
}

proof fn lemma_internal_best_unique(sizes: Seq<usize>, page_size: int, i: int, j: int)
    requires
        internal_split_best(sizes, page_size, i),
        internal_split_best(sizes, page_size, j),
    ensures
        i == j,
{
    assert(internal_split_ok(sizes, page_size, j));
    assert(internal_split_ok(sizes, page_size, i));
}

/// Splits an overflowing leaf's entries at the best split point; fails
/// exactly when no split point leaves two fitting halves.
fn split_leaf_entries(entries: Vec<LeafEntry>, page_size: usize) -> (r: Result<(Vec<LeafEntry>, Vec<LeafEntry>), BTreeError>)
    requires
        entries@.len() <= 0x10000,
        forall|j: int| 0 <= j < entries@.len() ==> (#[trigger] entries@[j]).key@.len() <= 0xFFFF && entries@[j].value@.len() <= 0xFFFF,
    ensures
        match r {
            Ok((l, rt)) => l@ + rt@ == entries@ && l@.len() >= 1 && rt@.len() >= 1 && leaf_split_best(
                leaf_sizes(leaf_view(entries@)),
                page_size as int,
                l@.len() as int,
            ),
            Err(e) => (e matches BTreeError::Corrupt(m) && m@ == "leaf node cannot be split to fit the page size"@)
                && forall|j: int| !leaf_split_ok(leaf_sizes(leaf_view(entries@)), 8, page_size as int, j),
        },
{
    let ghost want = leaf_sizes(leaf_view(entries@));
    let mut sizes: Vec<usize> = Vec::new();
    let mut i: usize = 0;
    while i < entries.len()
        invariant
            i <= entries@.len() <= 0x10000,
            sizes@.len() == i,
            forall|j: int| 0 <= j < entries@.len() ==> (#[trigger] entries@[j]).key@.len() <= 0xFFFF && entries@[j].value@.len() <= 0xFFFF,
            forall|j: int| 0 <= j < i ==> #[trigger] sizes@[j] <= 0x20004,
            want == leaf_sizes(leaf_view(entries@)),
            forall|j: int| 0 <= j < i ==> #[trigger] sizes@[j] == want[j],
        decreases entries@.len() - i,
    {
        let e = &entries[i];
        sizes.push(2 + e.key.len() + 2 + e.value.len());
        proof {
            assert(leaf_view(entries@)[i as int] == entries@[i as int]@);
        }
        i += 1;
    }
    assert(sizes@ =~= want);
    let mut entries = entries;
    match choose_split_point(&sizes, crate::node::LEAF_HEADER_SIZE, page_size) {
        Some(at) => {
            let ghost all = entries@;
            let right = entries.split_off(at);
            assert(entries@ + right@ =~= all);
            Ok((entries, right))
        },
        None => Err(corrupt("leaf node cannot be split to fit the page size")),
    }
}

/// Internal entries `lo..hi` fit one page.
pub open spec fn internal_span_fits(sizes: Seq<usize>, page_size: int, lo: int, hi: int) -> bool {
    span_fits(sizes, 16, page_size, lo, hi)
}

pub open spec fn internal_split_ok(sizes: Seq<usize>, page_size: int, k: int) -> bool {
    0 <= k < sizes.len() && internal_span_fits(sizes, page_size, 0, k) && internal_span_fits(
        sizes,
        page_size,
        k + 1,
        sizes.len() as int,
    )
}

/// How far promoting entry `k` is from the middle entry.
pub open spec fn internal_split_dist(n: int, k: int) -> int {
    abs_diff(k, n / 2)
}

/// Index of the separator to promote when splitting an internal node with
/// entries of the given cell sizes: both remaining halves must fit, nearest
/// to the middle entry and, among equally near ones, the lowest.
fn choose_promoted(sizes: &Vec<usize>, page_size: usize) -> (r: Option<usize>)
    requires
        sizes@.len() <= 0x10000,
        forall|j: int| 0 <= j < sizes@.len() ==> #[trigger] sizes@[j] <= 0x20004,
    ensures
        match r {
            Some(k) => internal_split_ok(sizes@, page_size as int, k as int) && forall|j: int|
                #![trigger internal_split_ok(sizes@, page_size as int, j)]
                internal_split_ok(sizes@, page_size as int, j) ==> (internal_split_dist(
                    sizes@.len() as int,
                    k as int,
                ) < internal_split_dist(sizes@.len() as int, j) || (internal_split_dist(
                    sizes@.len() as int,
                    k as int,
                ) == internal_split_dist(sizes@.len() as int, j) && k <= j)),
            None => forall|j: int| !internal_split_ok(sizes@, page_size as int, j),
        },
{
    let n = sizes.len();
    let mut prefix: Vec<u64> = Vec::new();
    prefix.push(0);
    let mut i: usize = 0;
    while i < n
        invariant
            i <= n == sizes@.len() <= 0x10000,
            prefix@.len() == i + 1,
            forall|j: int| 0 <= j <= i ==> #[trigger] prefix@[j] == psum(sizes@, j),
            forall|j: int| 0 <= j < sizes@.len() ==> #[trigger] sizes@[j] <= 0x20004,
        decreases n - i,
    {
        proof {
            lemma_psum_bound(sizes@, i as int + 1, 0x20004);
            assert((i + 1) * 0x20004 <= 0x10000 * 0x20004) by (nonlinear_arith)
                requires i + 1 <= 0x10000;
        }
        let next = prefix[i] + sizes[i] as u64;
        prefix.push(next);
        i += 1;
    }
    proof {
        lemma_psum_bound(sizes@, n as int, 0x20004);
        assert(n * 0x20004 <= 0x10000 * 0x20004) by (nonlinear_arith)
            requires n <= 0x10000;
    }
    let half = n / 2;
    let mut best: Option<usize> = None;
    let mut best_dist: usize = 0;
    let mut k: usize = 0;
    while k < n
        invariant
            k <= n == sizes@.len() <= 0x10000,
            half == n / 2,
            psum(sizes@, n as int) <= 0x10000 * 0x20004,
            prefix@.len() == n + 1,
            forall|j: int| 0 <= j <= n ==> #[trigger] prefix@[j] == psum(sizes@, j),
            match best {
                Some(b) => b < k && internal_split_ok(sizes@, page_size as int, b as int)
                    && best_dist == internal_split_dist(n as int, b as int),
                None => true,
            },
            forall|j: int|
                #![trigger internal_split_ok(sizes@, page_size as int, j)]
                0 <= j < k && internal_split_ok(sizes@, page_size as int, j) ==> match best {
                    Some(b) => internal_split_dist(n as int, b as int) < internal_split_dist(n as int, j) || (
                    internal_split_dist(n as int, b as int) == internal_split_dist(n as int, j) && b <= j),
                    None => false,
                },
        decreases n - k,
    {
        proof {
            lemma_psum_mono(sizes@, k as int, n as int);
            lemma_psum_mono(sizes@, 0, k as int);
            lemma_psum_mono(sizes@, k as int + 1, n as int);
            lemma_psum_mono(sizes@, k as int, k as int + 1);
        }
        let left_bytes = prefix[k];
        let right_bytes = prefix[n] - prefix[k + 1];
        let left_fits = 16 + (k as u64) * 4 + left_bytes <= page_size as u64;
        let right_fits = 16 + ((n - k - 1) as u64) * 4 + right_bytes <= page_size as u64;
        if left_fits && right_fits {
            let d = if k >= half {
                k - half
            } else {
                half - k
            };
            match best {
                Some(_) => {
                    if d < best_dist {
                        best = Some(k);
                        best_dist = d;
                    }
                },
                None => {
                    best = Some(k);
                    best_dist = d;
                },
            }
        }
        k += 1;
    }
    best
}

/// Splits an overflowing internal node around a promoted separator: the
/// left half keeps `leftmost` and the entries before it, the right half
/// starts from its child and keeps the entries after it.
#[allow(clippy::type_complexity)]
fn split_internal_entries(leftmost: PageId, entries: Vec<InternalEntry>, page_size: usize) -> (r: Result<
    (PageId, Vec<InternalEntry>, Vec<u8>, PageId, Vec<InternalEntry>),
    BTreeError,
>)
    requires
        entries@.len() <= 0x10000,
        forall|j: int| 0 <= j < entries@.len() ==> (#[trigger] entries@[j]).key@.len() <= 0xFFFF,
    ensures
        match r {
            Ok((l_lm, l_es, sep, r_lm, r_es)) => exists|k: int|
                0 <= k < entries@.len() && l_lm == leftmost && l_es@ == entries@.subrange(0, k)
                    && sep@ == (#[trigger] entries@[k]).key@ && r_lm == entries@[k].child && r_es@
                    == entries@.subrange(k + 1, entries@.len() as int) && internal_split_best(
                    internal_sizes(internal_view(entries@)),
                    page_size as int,
                    k,
                ),
            Err(e) => (e matches BTreeError::Corrupt(m) && m@ == "internal node cannot be split to fit the page size"@)
                && forall|j: int| !internal_split_ok(internal_sizes(internal_view(entries@)), page_size as int, j),
        },
{
    let ghost want = internal_sizes(internal_view(entries@));
    let mut sizes: Vec<usize> = Vec::new();
    let mut i: usize = 0;
    while i < entries.len()
        invariant
            i <= entries@.len() <= 0x10000,
            sizes@.len() == i,
            forall|j: int| 0 <= j < entries@.len() ==> (#[trigger] entries@[j]).key@.len() <= 0xFFFF,
            forall|j: int| 0 <= j < i ==> #[trigger] sizes@[j] <= 0x20004,
            want == internal_sizes(internal_view(entries@)),
            forall|j: int| 0 <= j < i ==> #[trigger] sizes@[j] == want[j],
        decreases entries@.len() - i,
    {
        sizes.push(2 + entries[i].key.len() + 8);
        proof {
            assert(internal_view(entries@)[i as int] == entries@[i as int]@);
        }
        i += 1;
    }
    assert(sizes@ =~= want);
    match choose_promoted(&sizes, page_size) {
        Some(k) => {
            let ghost all = entries@;
            let right_leftmost = entries[k].child;
            let promoted_key = vstd::slice::slice_to_vec(entries[k].key.as_slice());
            let mut left_entries = entries;
            let right_entries = left_entries.split_off(k + 1);
            left_entries.truncate(k);
            assert(left_entries@ =~= all.subrange(0, k as int));
            Ok((leftmost, left_entries, promoted_key, right_leftmost, right_entries))
        },
        None => Err(corrupt("internal node cannot be split to fit the page size")),
    }
}

// ----- writing nodes back, splitting when they overflow -----
/// What a rewrite of a subtree produced: one node, or two halves and the
/// separator between them.
pub enum InsertOutcome {
    Fit(PageId),
    Split { left: PageId, sep_key: Vec<u8>, right: PageId },
}

/// `o` stands for a subtree with interval `[lo, hi)` holding `expected`.
pub open spec fn outcome_holds(
    p: Map<PageId, Seq<u8>>,
    o: InsertOutcome,
    lo: Option<Seq<u8>>,
    hi: Option<Seq<u8>>,
    h: nat,
    ps: nat,
    expected: Seq<Entry>,
) -> bool {
    match o {
        InsertOutcome::Fit(id) => subtree(p, id, lo, hi, h, ps) == Some(expected),
        InsertOutcome::Split { left, sep_key, right } => {
            &&& strictly_above(sep_key@, lo)
            &&& below(sep_key@, hi)
            &&& sep_key@.len() <= 0xFFFF
            &&& subtree(p, left, lo, Some(sep_key@), h, ps) is Some
            &&& subtree(p, right, Some(sep_key@), hi, h, ps) is Some
            &&& subtree(p, left, lo, Some(sep_key@), h, ps)->0 + subtree(
                p,
                right,
                Some(sep_key@),
                hi,
                h,
                ps,
            )->0 == expected
        },
    }
}

/// How many pages an outcome of rewriting a node took: one, or two halves.
pub open spec fn outcome_writes(o: InsertOutcome) -> nat {
    match o {
        InsertOutcome::Fit(_) => 1,
        InsertOutcome::Split { .. } => 2,
    }
}

/// How many pages a node of the given shape is written as.
pub open spec fn shape_writes(s: NodeShape) -> nat {
    match s {
        NodeShape::Fits => 1,
        NodeShape::Splits(_) => 2,
        NodeShape::Overflows => 0,
    }
}

/// How writing back a node's entries turns out: it fits one page, it splits
/// around the given separator key, or it neither fits nor can be split.
pub enum NodeShape {
    Fits,
    Splits(Seq<u8>),
    Overflows,
}

/// The shape an outcome of rewriting a subtree has.
pub open spec fn outcome_shape(o: InsertOutcome) -> NodeShape {
    match o {
        InsertOutcome::Fit(_) => NodeShape::Fits,
        InsertOutcome::Split { sep_key, .. } => NodeShape::Splits(sep_key@),
    }
}

/// Writing back leaf entries `es`: one page if they fit, else two halves
/// split at the best split point, whose right half's first key separates
/// them.
pub open spec fn leaf_write_shape(es: Seq<Entry>, page_size: nat) -> NodeShape {
    if leaf_fits(es, page_size) {
        NodeShape::Fits
    } else if exists|i: int| leaf_split_best(leaf_sizes(es), page_size as int, i) {
        NodeShape::Splits(es[choose|i: int| leaf_split_best(leaf_sizes(es), page_size as int, i)].0)
    } else {
        NodeShape::Overflows
    }
}

/// Writing back internal separators `es`: one page if they fit, else two
/// halves around the best separator to promote.
pub open spec fn internal_write_shape(es: Seq<(Seq<u8>, PageId)>, page_size: nat) -> NodeShape {
    if internal_fits(es, page_size) {
        NodeShape::Fits
    } else if exists|k: int| internal_split_best(internal_sizes(es), page_size as int, k) {
        NodeShape::Splits(es[choose|k: int| internal_split_best(internal_sizes(es), page_size as int, k)].0)
    } else {
        NodeShape::Overflows
    }
}

/// What a parent with separators `es` becomes once its child `idx` was
/// rewritten into `child`: repointing keeps it as it was; a split child adds
/// its separator (child ids do not change a node's size).
pub open spec fn parent_shape(es: Seq<(Seq<u8>, PageId)>, idx: int, child: NodeShape, page_size: nat) -> NodeShape {
    match child {
        NodeShape::Splits(sep) => internal_write_shape(es.insert(idx, (sep, 0u64)), page_size),
        other => other,
    }
}

/// `i` is the child of separators `es` that covers `key`.
pub open spec fn child_slot_ok(es: Seq<(Seq<u8>, PageId)>, key: Seq<u8>, i: int) -> bool {
    &&& 0 <= i <= es.len()
    &&& forall|j: int| 0 <= j < i ==> key_le((#[trigger] es[j]).0, key)
    &&& i < es.len() ==> key_lt(key, es[i].0)
}

pub open spec fn child_slot(es: Seq<(Seq<u8>, PageId)>, key: Seq<u8>) -> int {
    choose|i: int| child_slot_ok(es, key, i)
}

/// How inserting `key` -> `value` into the subtree at `id` (of height at
/// most `h`) turns out, node by node from the leaf up.
pub open spec fn insert_shape(
    p: Map<PageId, Seq<u8>>,
    id: PageId,
    key: Seq<u8>,
    value: Seq<u8>,
    lo: Option<Seq<u8>>,
    hi: Option<Seq<u8>>,
    h: nat,
    page_size: nat,
) -> NodeShape
    decreases h,
{
    match parse_node(p[id]) {
        Some(NodeView::Leaf(es)) => leaf_write_shape(crate::tree_model::insert_entry(es, key, value), page_size),
        Some(NodeView::Internal(leftmost, es)) => {
            if h == 0 {
                NodeShape::Overflows
            } else {
                let i = child_slot(es, key);
                let specs = child_specs(leftmost, es, lo, hi);
                parent_shape(
                    es,
                    i,
                    insert_shape(p, specs[i].0, key, value, specs[i].1, specs[i].2, (h - 1) as nat, page_size),
                    page_size,
                )
            }
        },
        None => NodeShape::Overflows,
    }
}

/// Inserting `key` -> `value` into the tree rooted at `root` needs no node
/// that neither fits nor splits, and a split root's new parent fits.
pub open spec fn insert_fits_tree(p: Map<PageId, Seq<u8>>, root: PageId, key: Seq<u8>, value: Seq<u8>, page_size: nat) -> bool {
    match insert_shape(
        p,
        root,
        key,
        value,
        None,
        None,
        choose|h: nat| #[trigger] subtree(p, root, None, None, h, page_size) is Some,
        page_size,
    ) {
        NodeShape::Fits => true,
        NodeShape::Splits(sep) => internal_fits(seq![(sep, 0u64)], page_size),
        NodeShape::Overflows => false,
    }
}

/// A height at which the tree rooted at `root` is well formed.
pub open spec fn tree_height(p: Map<PageId, Seq<u8>>, root: PageId, page_size: nat) -> nat {
    choose|h: nat| #[trigger] subtree(p, root, None, None, h, page_size) is Some
}

/// `page` holds a leaf node.
pub open spec fn node_is_leaf(page: Seq<u8>) -> bool {
    parse_node(page) matches Some(NodeView::Leaf(_))
}

/// The nodes on the path from `id` down to the leaf that covers `key`, in a
/// subtree of height at most `h`, leaf first.
pub open spec fn path_nodes(p: Map<PageId, Seq<u8>>, id: PageId, key: Seq<u8>, h: nat) -> Seq<PageId>
    decreases h,
{
    match parse_node(p[id]) {
        Some(NodeView::Internal(leftmost, es)) => {
            if h == 0 {
                seq![id]
            } else {
                path_nodes(p, slot_child(leftmost, es, child_slot(es, key)), key, (h - 1) as nat).push(id)
            }
        },
        _ => seq![id],
    }
}

/// Every write of `ws` rewrites one of the `path` nodes: its base is that
/// node's page.
pub open spec fn based_on_path(ws: Seq<NodeWrite>, path: Seq<PageId>) -> bool {
    forall|i: int| 0 <= i < ws.len() ==> (#[trigger] ws[i]).0 is Some && path.contains(ws[i].0->0)
}

/// The bases of the pages that inserting `key` -> `value` into the subtree
/// at `id` writes, in order: each node on the path, from the leaf up, is
/// rewritten from its own page, as one page or as two halves.
pub open spec fn insert_bases(
    p: Map<PageId, Seq<u8>>,
    id: PageId,
    key: Seq<u8>,
    value: Seq<u8>,
    lo: Option<Seq<u8>>,
    hi: Option<Seq<u8>>,
    h: nat,
    page_size: nat,
) -> Seq<Option<PageId>>
    decreases h,
{
    let here = repeat_base(Some(id), shape_writes(insert_shape(p, id, key, value, lo, hi, h, page_size)));
    match parse_node(p[id]) {
        Some(NodeView::Leaf(_)) => here,
        Some(NodeView::Internal(leftmost, es)) => {
            if h == 0 {
                Seq::empty()
            } else {
                let i = child_slot(es, key);
                let specs = child_specs(leftmost, es, lo, hi);
                insert_bases(p, specs[i].0, key, value, specs[i].1, specs[i].2, (h - 1) as nat, page_size) + here
            }
        },
        None => Seq::empty(),
    }
}

/// The bases of the pages that inserting into the tree at `root` writes: those
/// of the path, then no base for a new root when the old root split.
pub open spec fn insert_tree_bases(p: Map<PageId, Seq<u8>>, root: PageId, key: Seq<u8>, value: Seq<u8>, page_size: nat) -> Seq<
    Option<PageId>,
> {
    let h = choose|h: nat| #[trigger] subtree(p, root, None, None, h, page_size) is Some;
    insert_bases(p, root, key, value, None, None, h, page_size) + match insert_shape(
        p,
        root,
        key,
        value,
        None,
        None,
        h,
        page_size,
    ) {
        NodeShape::Splits(_) => seq![None::<PageId>],
        _ => Seq::empty(),
    }
}

proof fn lemma_path_based_concat(a: Seq<NodeWrite>, c: Seq<NodeWrite>, path: Seq<PageId>)
    requires
        based_on_path(a, path),
        based_on_path(c, path),
    ensures
        based_on_path(a + c, path),
{
    assert forall|i: int| 0 <= i < (a + c).len() implies (#[trigger] (a + c)[i]).0 is Some && path.contains((a + c)[i].0->0) by {
        if i >= a.len() {
            assert((a + c)[i] == c[i - a.len()]);
        } else {
            assert((a + c)[i] == a[i]);
        }
    }
}

proof fn lemma_path_based_widen(a: Seq<NodeWrite>, path: Seq<PageId>, id: PageId)
    requires
        based_on_path(a, path),
    ensures
        based_on_path(a, path.push(id)),
{
    assert forall|i: int| 0 <= i < a.len() implies (#[trigger] a[i]).0 is Some && path.push(id).contains(a[i].0->0) by {
        let k = choose|k: int| 0 <= k < path.len() && path[k] == a[i].0->0;
        assert(path.push(id)[k] == path[k]);
    }
}

proof fn lemma_path_based_node(a: Seq<NodeWrite>, path: Seq<PageId>, id: PageId)
    requires
        all_based(a, Some(id)),
        path.contains(id),
    ensures
        based_on_path(a, path),
{
}

proof fn lemma_child_slot(es: Seq<(Seq<u8>, PageId)>, key: Seq<u8>, i: int)
    requires
        child_slot_ok(es, key, i),
    ensures
        child_slot(es, key) == i,
{
    let c = child_slot(es, key);
    assert(child_slot_ok(es, key, c));
    if c < i {
        assert(key_le(es[c].0, key));
        crate::order::lemma_key_le_lt_trans(es[c].0, key, es[c].0);
        crate::order::lemma_key_lt_irreflexive(es[c].0);
    } else if i < c {
        assert(key_le(es[i].0, key));
        crate::order::lemma_key_le_lt_trans(es[i].0, key, es[i].0);
        crate::order::lemma_key_lt_irreflexive(es[i].0);
    }
}

/// Nodes whose separators have the same keys have the same write shape.
proof fn lemma_write_shape_same_keys(a: Seq<(Seq<u8>, PageId)>, b: Seq<(Seq<u8>, PageId)>, page_size: nat)
    requires
        a.len() == b.len(),
        forall|j: int| 0 <= j < a.len() ==> (#[trigger] b[j]).0 == a[j].0,
    ensures
        internal_write_shape(a, page_size) == internal_write_shape(b, page_size),
        internal_fits(a, page_size) == internal_fits(b, page_size),
{
    if internal_fits(a, page_size) {
        crate::node::lemma_internal_fits_same_keys(a, b, page_size);
    }
    if internal_fits(b, page_size) {
        crate::node::lemma_internal_fits_same_keys(b, a, page_size);
    }
    assert(internal_sizes(a) =~= internal_sizes(b));
    if exists|k: int| internal_split_best(internal_sizes(a), page_size as int, k) {
        let k = choose|k: int| internal_split_best(internal_sizes(a), page_size as int, k);
        assert(internal_split_ok(internal_sizes(a), page_size as int, k));
        assert(b[k].0 == a[k].0);
    }
}

pub open spec fn leaf_fields_small(es: Seq<LeafEntry>) -> bool {
    forall|j: int| 0 <= j < es.len() ==> (#[trigger] es[j]).key@.len() <= 0xFFFF && es[j].value@.len() <= 0xFFFF
}

pub open spec fn internal_keys_small(es: Seq<InternalEntry>) -> bool {
    forall|j: int| 0 <= j < es.len() ==> (#[trigger] es[j]).key@.len() <= 0xFFFF
}

/// Writes a fitting leaf image to a new page; the page then holds that leaf.
fn write_leaf_node<S: NodeStore>(store: &mut S, base: PageId, entries: &Vec<LeafEntry>, Ghost(lo): Ghost<Option<Seq<u8>>>, Ghost(hi): Ghost<Option<Seq<u8>>>, Ghost(h): Ghost<nat>) -> (r: Result<PageId, BTreeError>)
    requires
        sorted_keys(leaf_view(entries@)),
        in_bounds(leaf_view(entries@), lo, hi),
    ensures
        old(store).pages().submap_of(final(store).pages()),
        final(store).spec_page_size() == old(store).spec_page_size(),
        r is Err ==> r->Err_0 is Pager || (r->Err_0 is Corrupt && !leaf_fits(leaf_view(entries@), old(store).spec_page_size())),
        r is Ok ==> subtree(final(store).pages(), r->Ok_0, lo, hi, h, old(store).spec_page_size()) == Some(leaf_view(entries@)),
        r is Ok ==> final(store).writes() == old(store).writes().push(
            (Some(base), leaf_image(leaf_view(entries@), old(store).spec_page_size())),
        ),
        r is Err ==> final(store).writes() == old(store).writes(),
        log_extends(old(store).calls(), final(store).calls()),
        r is Err && r->Err_0 is Pager ==> failed_by_last_call(log_since(old(store).calls(), final(store).calls()), r->Err_0),
        r is Ok ==> calls_ok(log_since(old(store).calls(), final(store).calls())),
{
    let ghost c0 = store.calls();
    let page_size = store.page_size();
    let buf = match try_encode_leaf(entries.as_slice(), page_size) {
        Some(b) => b,
        None => {
            proof {
                lemma_log_same(c0);
            }
            return Err(corrupt("leaf node overflows its page"));
        },
    };
    proof {
        lemma_parse_leaf_image(leaf_view(entries@), page_size as nat);
    }
    let r = store.write_new_node(Some(base), buf.as_slice());
    proof {
        lemma_log_push(c0, call_result(r));
        assert(seq![call_result(r)].drop_last() =~= Seq::<CallResult>::empty());
    }
    r
}

/// Writes a fitting internal node image to a new page.
fn write_internal_node<S: NodeStore>(store: &mut S, base: Option<PageId>, leftmost: PageId, entries: &Vec<InternalEntry>) -> (r: Result<PageId, BTreeError>)
    ensures
        old(store).pages().submap_of(final(store).pages()),
        final(store).spec_page_size() == old(store).spec_page_size(),
        r is Err ==> r->Err_0 is Pager || (r->Err_0 is Corrupt && !internal_fits(internal_view(entries@), old(store).spec_page_size())),
        r is Ok ==> final(store).pages().contains_key(r->Ok_0) && !old(store).pages().contains_key(r->Ok_0)
            && parse_node(final(store).pages()[r->Ok_0]) == Some(NodeView::Internal(leftmost, internal_view(entries@)))
            && internal_fits(internal_view(entries@), old(store).spec_page_size()),
        r is Ok ==> final(store).writes() == old(store).writes().push(
            (base, internal_image(leftmost, internal_view(entries@), old(store).spec_page_size())),
        ),
        r is Err ==> final(store).writes() == old(store).writes(),
        log_extends(old(store).calls(), final(store).calls()),
        r is Err && r->Err_0 is Pager ==> failed_by_last_call(log_since(old(store).calls(), final(store).calls()), r->Err_0),
        r is Ok ==> calls_ok(log_since(old(store).calls(), final(store).calls())),
{
    let ghost c0 = store.calls();
    let page_size = store.page_size();
    let buf = match try_encode_internal(leftmost, entries.as_slice(), page_size) {
        Some(b) => b,
        None => {
            proof {
                lemma_log_same(c0);
            }
            return Err(corrupt("internal node overflows its page"));
        },
    };
    proof {
        lemma_parse_internal_image(leftmost, internal_view(entries@), page_size as nat);
    }
    let r = store.write_new_node(base, buf.as_slice());
    proof {
        lemma_log_push(c0, call_result(r));
        assert(seq![call_result(r)].drop_last() =~= Seq::<CallResult>::empty());
    }
    r
}

proof fn lemma_leaf_halves(es: Seq<Entry>, i: int, lo: Option<Seq<u8>>, hi: Option<Seq<u8>>)
    requires
        sorted_keys(es),
        in_bounds(es, lo, hi),
        1 <= i < es.len(),
    ensures
        sorted_keys(es.take(i)),
        sorted_keys(es.skip(i)),
        in_bounds(es.take(i), lo, Some(es[i].0)),
        in_bounds(es.skip(i), Some(es[i].0), hi),
        strictly_above(es[i].0, lo),
        below(es[i].0, hi),
        es.take(i) + es.skip(i) == es,
{
    let l = es.take(i);
    let r = es.skip(i);
    assert(l + r =~= es);
    assert(sorted_keys(l)) by {
        assert forall|x: int, y: int| 0 <= x < y < l.len() implies key_lt(#[trigger] l[x].0, #[trigger] l[y].0) by {
            assert(key_lt(es[x].0, es[y].0));
        }
    }
    assert(sorted_keys(r)) by {
        assert forall|x: int, y: int| 0 <= x < y < r.len() implies key_lt(#[trigger] r[x].0, #[trigger] r[y].0) by {
            assert(key_lt(es[x + i].0, es[y + i].0));
        }
    }
    assert forall|x: int| 0 <= x < l.len() implies above(#[trigger] l[x].0, lo) && below(l[x].0, Some(es[i].0)) by {
        assert(key_lt(es[x].0, es[i].0));
        assert(above(es[x].0, lo));
    }
    assert forall|x: int| 0 <= x < r.len() implies above(#[trigger] r[x].0, Some(es[i].0)) && below(r[x].0, hi) by {
        if x > 0 {
            assert(key_lt(es[i].0, es[x + i].0));
        }
        assert(below(es[x + i].0, hi));
    }
    assert(above(es[0].0, lo));
    assert(key_lt(es[0].0, es[i].0));
    if lo is Some {
        crate::order::lemma_key_le_lt_trans(lo->0, es[0].0, es[i].0);
    }
    assert(below(es[i].0, hi));
}

/// Writes leaf entries back as one page when they fit, else as two halves
/// split at the best split point; fails, writing nothing, when no split
/// point leaves two fitting halves.
fn write_leaf_or_split<S: NodeStore>(
    store: &mut S,
    base: PageId,
    entries: Vec<LeafEntry>,
    Ghost(lo): Ghost<Option<Seq<u8>>>,
    Ghost(hi): Ghost<Option<Seq<u8>>>,
    Ghost(h): Ghost<nat>,
) -> (r: Result<InsertOutcome, BTreeError>)
    requires
        sorted_keys(leaf_view(entries@)),
        in_bounds(leaf_view(entries@), lo, hi),
        1 <= entries@.len() <= 0x10000,
        leaf_fields_small(entries@),
        old(store).spec_page_size() <= crate::le::U16_LIMIT,
    ensures
        old(store).pages().submap_of(final(store).pages()),
        final(store).spec_page_size() == old(store).spec_page_size(),
        r is Err ==> r->Err_0 is Pager || (r->Err_0 is Corrupt && leaf_write_shape(
            leaf_view(entries@),
            old(store).spec_page_size(),
        ) is Overflows),
        leaf_write_shape(leaf_view(entries@), old(store).spec_page_size()) is Overflows ==> r is Err
            && final(store).pages() == old(store).pages(),
        r is Ok ==> outcome_shape(r->Ok_0) == leaf_write_shape(leaf_view(entries@), old(store).spec_page_size()),
        r is Ok ==> outcome_holds(final(store).pages(), r->Ok_0, lo, hi, h, old(store).spec_page_size(), leaf_view(entries@)),
        r matches Ok(InsertOutcome::Split { left, sep_key, right }) ==> subtree(
            final(store).pages(),
            left,
            lo,
            Some(sep_key@),
            h,
            old(store).spec_page_size(),
        )->0.len() >= 1 && subtree(final(store).pages(), right, Some(sep_key@), hi, h, old(store).spec_page_size())->0.len()
            >= 1,
        grows_based(old(store).writes(), final(store).writes(), Some(base)),
        r is Ok ==> final(store).writes().len() == old(store).writes().len() + outcome_writes(r->Ok_0),
        log_extends(old(store).calls(), final(store).calls()),
        r is Err && r->Err_0 is Pager ==> failed_by_last_call(log_since(old(store).calls(), final(store).calls()), r->Err_0),
        r is Ok ==> calls_ok(log_since(old(store).calls(), final(store).calls())),
{
    let ghost w0 = store.writes();
    let ghost c0 = store.calls();
    proof {
        lemma_grows_same(w0, Some(base));
        lemma_log_same(c0);
    }
    let ghost ps = store.spec_page_size();
    let ghost es = leaf_view(entries@);
    let page_size = store.page_size();
    if let Some(buf) = try_encode_leaf(entries.as_slice(), page_size) {
        proof {
            lemma_parse_leaf_image(es, page_size as nat);
        }
        let id = match store.write_new_node(Some(base), buf.as_slice()) {
            Ok(id) => id,
            Err(e) => {
                proof {
                    lemma_log_push(c0, store.calls().last());
                    assert(c0.push(store.calls().last()) == store.calls());
                    assert(seq![store.calls().last()].drop_last() =~= Seq::<CallResult>::empty());
                }
                return Err(e);
            },
        };
        proof {
            lemma_log_push(c0, store.calls().last());
            assert(c0.push(store.calls().last()) == store.calls());
        }
        proof {
            lemma_grows_push(w0, w0, (Some(base), buf@), Some(base));
        }
        return Ok(InsertOutcome::Fit(id));
    }
    let ghost sizes = leaf_sizes(es);
    assert(leaf_view(entries@) == es);
    let (left, right) = match split_leaf_entries(entries, page_size) {
        Ok(halves) => halves,
        Err(e) => {
            proof {
                if exists|j: int| leaf_split_best(sizes, ps as int, j) {
                    let j = choose|j: int| leaf_split_best(sizes, ps as int, j);
                    assert(leaf_split_ok(sizes, 8, ps as int, j));
                }
            }
            return Err(e);
        },
    };
    let ghost i = left@.len() as int;
    proof {
        assert(leaf_view(left@) =~= es.take(i));
        assert(leaf_view(right@) =~= es.skip(i));
        lemma_leaf_halves(es, i, lo, hi);
        lemma_leaf_best_unique(sizes, ps as int, i, choose|j: int| leaf_split_best(sizes, ps as int, j));
        assert forall|j: int| 0 <= j < es.len() implies (#[trigger] es[j]).0.len() <= 0xFFFF && es[j].1.len()
            <= 0xFFFF by {
            assert(es[j] == entries@[j]@);
        }
        lemma_leaf_span_fits(es, 0, i, ps);
        lemma_leaf_span_fits(es, i, es.len() as int, ps);
        assert(es.subrange(0, i) =~= es.take(i));
        assert(es.subrange(i, es.len() as int) =~= es.skip(i));
    }
    let sep_key = vstd::slice::slice_to_vec(right[0].key.as_slice());
    let ghost p0 = store.pages();
    let left_id = match write_leaf_node(store, base, &left, Ghost(lo), Ghost(Some(sep_key@)), Ghost(h)) {
        Ok(id) => id,
        Err(e) => {
            return Err(e);
        },
    };
    let ghost p1 = store.pages();
    let ghost w1 = store.writes();
    let ghost c1 = store.calls();
    proof {
        lemma_grows_push(w0, w0, w1.last(), Some(base));
        assert(w0.push(w1.last()) == w1);
    }
    let right_id = match write_leaf_node(store, base, &right, Ghost(Some(sep_key@)), Ghost(hi), Ghost(h)) {
        Ok(id) => id,
        Err(e) => {
            proof {
                lemma_submap_trans(p0, p1, store.pages());
                lemma_calls_after_ok(c0, c1, store.calls());
            }
            return Err(e);
        },
    };
    proof {
        lemma_calls_after_ok(c0, c1, store.calls());
    }
    proof {
        lemma_grows_push(w0, w1, store.writes().last(), Some(base));
        assert(w1.push(store.writes().last()) == store.writes());
        lemma_submap_trans(p0, p1, store.pages());
        crate::tree_model::lemma_subtree_frame(p1, store.pages(), left_id, lo, Some(sep_key@), h, ps);
        assert(sep_key@.len() <= 0xFFFF) by {
            assert(right@[0].key@.len() <= 0xFFFF);
        }
    }
    Ok(InsertOutcome::Split { left: left_id, sep_key, right: right_id })
}

proof fn lemma_internal_halves(
    leftmost: PageId,
    es: Seq<(Seq<u8>, PageId)>,
    lo: Option<Seq<u8>>,
    hi: Option<Seq<u8>>,
    k: int,
)
    requires
        separators_sorted(es),
        separators_within(es, lo, hi),
        bound_lt(lo, hi),
        0 <= k < es.len(),
    ensures
        child_specs(leftmost, es.take(k), lo, Some(es[k].0)) == child_specs(leftmost, es, lo, hi).take(k + 1),
        child_specs(es[k].1, es.skip(k + 1), Some(es[k].0), hi) == child_specs(leftmost, es, lo, hi).skip(k + 1),
        separators_sorted(es.take(k)),
        separators_within(es.take(k), lo, Some(es[k].0)),
        bound_lt(lo, Some(es[k].0)),
        separators_sorted(es.skip(k + 1)),
        separators_within(es.skip(k + 1), Some(es[k].0), hi),
        bound_lt(Some(es[k].0), hi),
        strictly_above(es[k].0, lo),
        below(es[k].0, hi),
{
    let specs = child_specs(leftmost, es, lo, hi);
    let sep = es[k].0;
    let l = es.take(k);
    let r = es.skip(k + 1);
    assert(child_specs(leftmost, l, lo, Some(sep)) =~= specs.take(k + 1));
    assert(child_specs(es[k].1, r, Some(sep), hi) =~= specs.skip(k + 1));
    assert(separators_sorted(l)) by {
        assert forall|x: int, y: int| 0 <= x < y < l.len() implies key_lt(#[trigger] l[x].0, #[trigger] l[y].0) by {
            assert(key_lt(es[x].0, es[y].0));
        }
    }
    assert(separators_sorted(r)) by {
        assert forall|x: int, y: int| 0 <= x < y < r.len() implies key_lt(#[trigger] r[x].0, #[trigger] r[y].0) by {
            assert(key_lt(es[x + k + 1].0, es[y + k + 1].0));
        }
    }
    assert forall|x: int| 0 <= x < l.len() implies strictly_above(#[trigger] l[x].0, lo) && below(l[x].0, Some(sep)) by {
        assert(key_lt(es[x].0, es[k].0));
        assert(strictly_above(es[x].0, lo));
    }
    assert forall|x: int| 0 <= x < r.len() implies strictly_above(#[trigger] r[x].0, Some(sep)) && below(r[x].0, hi) by {
        assert(key_lt(es[k].0, es[x + k + 1].0));
        assert(below(es[x + k + 1].0, hi));
    }
    assert(strictly_above(es[k].0, lo) && below(es[k].0, hi));
}

/// Writes internal separators back as one page when they fit, else as two
/// halves around the best separator to promote; fails, writing nothing,
/// when no separator leaves two fitting halves.
fn write_internal_or_split<S: NodeStore>(
    store: &mut S,
    base: PageId,
    leftmost: PageId,
    entries: Vec<InternalEntry>,
    Ghost(lo): Ghost<Option<Seq<u8>>>,
    Ghost(hi): Ghost<Option<Seq<u8>>>,
    Ghost(h): Ghost<nat>,
) -> (r: Result<InsertOutcome, BTreeError>)
    requires
        h >= 1,
        separators_sorted(internal_view(entries@)),
        separators_within(internal_view(entries@), lo, hi),
        bound_lt(lo, hi),
        entries@.len() <= 0x10000,
        internal_keys_small(entries@),
        crate::tree_model::concat_subtrees(
            old(store).pages(),
            child_specs(leftmost, internal_view(entries@), lo, hi),
            (h - 1) as nat,
            old(store).spec_page_size(),
        ) is Some,
        old(store).spec_page_size() <= crate::le::U16_LIMIT,
    ensures
        old(store).pages().submap_of(final(store).pages()),
        final(store).spec_page_size() == old(store).spec_page_size(),
        r is Err ==> r->Err_0 is Pager || (r->Err_0 is Corrupt && internal_write_shape(
            internal_view(entries@),
            old(store).spec_page_size(),
        ) is Overflows),
        internal_write_shape(internal_view(entries@), old(store).spec_page_size()) is Overflows ==> r is Err
            && final(store).pages() == old(store).pages(),
        r is Ok ==> outcome_shape(r->Ok_0) == internal_write_shape(internal_view(entries@), old(store).spec_page_size()),
        r is Ok ==> outcome_holds(
            final(store).pages(),
            r->Ok_0,
            lo,
            hi,
            h,
            old(store).spec_page_size(),
            crate::tree_model::concat_subtrees(
                old(store).pages(),
                child_specs(leftmost, internal_view(entries@), lo, hi),
                (h - 1) as nat,
                old(store).spec_page_size(),
            )->0,
        ),
        grows_based(old(store).writes(), final(store).writes(), Some(base)),
        r is Ok ==> final(store).writes().len() == old(store).writes().len() + outcome_writes(r->Ok_0),
        log_extends(old(store).calls(), final(store).calls()),
        r is Err && r->Err_0 is Pager ==> failed_by_last_call(log_since(old(store).calls(), final(store).calls()), r->Err_0),
        r is Ok ==> calls_ok(log_since(old(store).calls(), final(store).calls())),
{
    let ghost w0 = store.writes();
    let ghost c0 = store.calls();
    proof {
        lemma_grows_same(w0, Some(base));
        lemma_log_same(c0);
    }
    let ghost ps = store.spec_page_size();
    let ghost p0 = store.pages();
    let ghost es = internal_view(entries@);
    let ghost specs = child_specs(leftmost, es, lo, hi);
    let ghost hc = (h - 1) as nat;
    let page_size = store.page_size();
    if let Some(buf) = try_encode_internal(leftmost, entries.as_slice(), page_size) {
        proof {
            lemma_parse_internal_image(leftmost, es, page_size as nat);
        }
        let id = match store.write_new_node(Some(base), buf.as_slice()) {
            Ok(id) => id,
            Err(e) => {
                proof {
                    lemma_log_push(c0, store.calls().last());
                    assert(c0.push(store.calls().last()) == store.calls());
                    assert(seq![store.calls().last()].drop_last() =~= Seq::<CallResult>::empty());
                }
                return Err(e);
            },
        };
        proof {
            lemma_log_push(c0, store.calls().last());
            assert(c0.push(store.calls().last()) == store.calls());
        }
        proof {
            crate::tree_model::lemma_concat_frame(p0, store.pages(), specs, hc, ps);
            lemma_grows_push(w0, w0, (Some(base), buf@), Some(base));
        }
        return Ok(InsertOutcome::Fit(id));
    }
    let ghost sizes = internal_sizes(es);
    let (l_leftmost, l_entries, sep_key, r_leftmost, r_entries) = match split_internal_entries(
        leftmost,
        entries,
        page_size,
    ) {
        Ok(parts) => parts,
        Err(e) => {
            proof {
                if exists|j: int| internal_split_best(sizes, ps as int, j) {
                    let j = choose|j: int| internal_split_best(sizes, ps as int, j);
                    assert(internal_split_ok(sizes, ps as int, j));
                }
            }
            return Err(e);
        },
    };
    let ghost k = choose|k: int|
        0 <= k < es.len() && l_leftmost == leftmost && l_entries@ == entries@.subrange(0, k)
            && sep_key@ == (#[trigger] entries@[k]).key@ && r_leftmost == entries@[k].child
            && r_entries@ == entries@.subrange(k + 1, entries@.len() as int);
    proof {
        assert(internal_view(l_entries@) =~= es.take(k));
        assert(internal_view(r_entries@) =~= es.skip(k + 1));
        assert(sep_key@ == es[k].0);
        assert(r_leftmost == es[k].1);
        lemma_internal_halves(leftmost, es, lo, hi, k);
        lemma_internal_best_unique(sizes, ps as int, k, choose|j: int| internal_split_best(sizes, ps as int, j));
        assert forall|j: int| 0 <= j < es.len() implies (#[trigger] es[j]).0.len() <= 0xFFFF by {
            assert(es[j] == entries@[j]@);
        }
        lemma_internal_span_fits(es, 0, k, ps);
        lemma_internal_span_fits(es, k + 1, es.len() as int, ps);
        assert(es.subrange(0, k) =~= es.take(k));
        assert(es.subrange(k + 1, es.len() as int) =~= es.skip(k + 1));
        assert(specs.take(k + 1) + specs.skip(k + 1) =~= specs);
        crate::tree_model::lemma_concat_add(p0, specs.take(k + 1), specs.skip(k + 1), hc, ps);
        assert(sep_key@.len() <= 0xFFFF) by {
            assert(entries@[k].key@.len() <= 0xFFFF);
        }
    }
    let left_id = match write_internal_node(store, Some(base), l_leftmost, &l_entries) {
        Ok(id) => id,
        Err(e) => {
            return Err(e);
        },
    };
    let ghost p1 = store.pages();
    let ghost w1 = store.writes();
    let ghost c1 = store.calls();
    proof {
        lemma_grows_push(w0, w0, w1.last(), Some(base));
        assert(w0.push(w1.last()) == w1);
    }
    let right_id = match write_internal_node(store, Some(base), r_leftmost, &r_entries) {
        Ok(id) => id,
        Err(e) => {
            proof {
                lemma_submap_trans(p0, p1, store.pages());
                lemma_calls_after_ok(c0, c1, store.calls());
            }
            return Err(e);
        },
    };
    proof {
        lemma_calls_after_ok(c0, c1, store.calls());
    }
    proof {
        let p2 = store.pages();
        lemma_grows_push(w0, w1, store.writes().last(), Some(base));
        assert(w1.push(store.writes().last()) == store.writes());
        lemma_submap_trans(p0, p1, p2);
        crate::tree_model::lemma_concat_frame(p0, p2, specs.take(k + 1), hc, ps);
        crate::tree_model::lemma_concat_frame(p0, p2, specs.skip(k + 1), hc, ps);
    }
    Ok(InsertOutcome::Split { left: left_id, sep_key, right: right_id })
}

// ----- insertion -----
/// The leftmost child after child `idx` is replaced by `c`.
pub open spec fn repoint_leftmost(leftmost: PageId, idx: int, c: PageId) -> PageId {
    if idx == 0 {
        c
    } else {
        leftmost
    }
}

/// The separators after child `idx` is replaced by `c`.
pub open spec fn repoint_entries(es: Seq<(Seq<u8>, PageId)>, idx: int, c: PageId) -> Seq<(Seq<u8>, PageId)> {
    if idx == 0 {
        es
    } else {
        es.update(idx - 1, (es[idx - 1].0, c))
    }
}

proof fn lemma_specs_repoint(
    leftmost: PageId,
    es: Seq<(Seq<u8>, PageId)>,
    lo: Option<Seq<u8>>,
    hi: Option<Seq<u8>>,
    idx: int,
    c: PageId,
)
    requires
        0 <= idx <= es.len(),
    ensures
        ({
            let specs = child_specs(leftmost, es, lo, hi);
            child_specs(repoint_leftmost(leftmost, idx, c), repoint_entries(es, idx, c), lo, hi)
                == specs.take(idx) + seq![(c, specs[idx].1, specs[idx].2)] + specs.skip(idx + 1)
        }),
{
    let specs = child_specs(leftmost, es, lo, hi);
    assert(child_specs(repoint_leftmost(leftmost, idx, c), repoint_entries(es, idx, c), lo, hi)
        =~= specs.take(idx) + seq![(c, specs[idx].1, specs[idx].2)] + specs.skip(idx + 1));
}

proof fn lemma_specs_split(
    leftmost: PageId,
    es: Seq<(Seq<u8>, PageId)>,
    lo: Option<Seq<u8>>,
    hi: Option<Seq<u8>>,
    idx: int,
    left: PageId,
    sep: Seq<u8>,
    right: PageId,
)
    requires
        0 <= idx <= es.len(),
    ensures
        ({
            let specs = child_specs(leftmost, es, lo, hi);
            child_specs(
                repoint_leftmost(leftmost, idx, left),
                repoint_entries(es, idx, left).insert(idx, (sep, right)),
                lo,
                hi,
            ) == specs.take(idx) + seq![(left, specs[idx].1, Some(sep)), (right, Some(sep), specs[idx].2)]
                + specs.skip(idx + 1)
        }),
{
    let specs = child_specs(leftmost, es, lo, hi);
    assert(child_specs(
        repoint_leftmost(leftmost, idx, left),
        repoint_entries(es, idx, left).insert(idx, (sep, right)),
        lo,
        hi,
    ) =~= specs.take(idx) + seq![(left, specs[idx].1, Some(sep)), (right, Some(sep), specs[idx].2)]
        + specs.skip(idx + 1));
}

/// Replacing the children in the middle of a node by ones holding `mid`.
proof fn lemma_concat_replace(
    p: Map<PageId, Seq<u8>>,
    p1: Map<PageId, Seq<u8>>,
    before: Seq<ChildSpec>,
    mid: Seq<ChildSpec>,
    after: Seq<ChildSpec>,
    hc: nat,
    ps: nat,
    mid_entries: Seq<Entry>,
)
    requires
        p.submap_of(p1),
        crate::tree_model::concat_subtrees(p, before, hc, ps) is Some,
        crate::tree_model::concat_subtrees(p, after, hc, ps) is Some,
        crate::tree_model::concat_subtrees(p1, mid, hc, ps) == Some(mid_entries),
    ensures
        crate::tree_model::concat_subtrees(p1, before + mid + after, hc, ps) == Some(
            crate::tree_model::concat_subtrees(p, before, hc, ps)->0 + mid_entries
                + crate::tree_model::concat_subtrees(p, after, hc, ps)->0,
        ),
{
    crate::tree_model::lemma_concat_frame(p, p1, before, hc, ps);
    crate::tree_model::lemma_concat_frame(p, p1, after, hc, ps);
    crate::tree_model::lemma_concat_add(p1, before + mid, after, hc, ps);
    crate::tree_model::lemma_concat_add(p1, before, mid, hc, ps);
}

proof fn lemma_insert_decompose(a: Seq<Entry>, c: Seq<Entry>, b: Seq<Entry>, k: Seq<u8>, v: Seq<u8>)
    requires
        crate::tree_model::all_below(a, k),
        crate::tree_model::all_above(b, k),
    ensures
        crate::tree_model::insert_entry(a + c + b, k, v) == a + crate::tree_model::insert_entry(c, k, v) + b,
{
    assert(a + c + b =~= a + (c + b));
    crate::tree_model::lemma_insert_prefix(a, c + b, k, v);
    crate::tree_model::lemma_insert_suffix(c, b, k, v);
    assert(a + (crate::tree_model::insert_entry(c, k, v) + b) =~= a + crate::tree_model::insert_entry(c, k, v) + b);
}

proof fn lemma_same_keys(es: Seq<(Seq<u8>, PageId)>, es2: Seq<(Seq<u8>, PageId)>, lo: Option<Seq<u8>>, hi: Option<Seq<u8>>)
    requires
        es.len() == es2.len(),
        forall|j: int| 0 <= j < es.len() ==> (#[trigger] es2[j]).0 == es[j].0,
        separators_sorted(es),
        separators_within(es, lo, hi),
    ensures
        separators_sorted(es2),
        separators_within(es2, lo, hi),
{
    assert forall|x: int, y: int| 0 <= x < y < es2.len() implies key_lt(#[trigger] es2[x].0, #[trigger] es2[y].0) by {
        assert(key_lt(es[x].0, es[y].0));
    }
    assert forall|x: int| 0 <= x < es2.len() implies strictly_above(#[trigger] es2[x].0, lo) && below(es2[x].0, hi) by {
        assert(strictly_above(es[x].0, lo) && below(es[x].0, hi));
    }
}

/// A separator strictly inside the interval of child `idx` can be inserted
/// at position `idx`.
proof fn lemma_insert_separator(
    es: Seq<(Seq<u8>, PageId)>,
    idx: int,
    e: (Seq<u8>, PageId),
    lo: Option<Seq<u8>>,
    hi: Option<Seq<u8>>,
    clo: Option<Seq<u8>>,
    chi: Option<Seq<u8>>,
)
    requires
        0 <= idx <= es.len(),
        separators_sorted(es),
        separators_within(es, lo, hi),
        clo == (if idx == 0 { lo } else { Some(es[idx - 1].0) }),
        chi == (if idx == es.len() { hi } else { Some(es[idx].0) }),
        strictly_above(e.0, clo),
        below(e.0, chi),
    ensures
        separators_sorted(es.insert(idx, e)),
        separators_within(es.insert(idx, e), lo, hi),
{
    let es3 = es.insert(idx, e);
    let n = es.len();
    if idx > 0 {
        assert(key_lt(es[idx - 1].0, e.0));
    }
    if idx < n {
        assert(key_lt(e.0, es[idx].0));
    }
    assert forall|x: int, y: int| 0 <= x < y < es3.len() implies key_lt(#[trigger] es3[x].0, #[trigger] es3[y].0) by {
        if y < idx {
            assert(key_lt(es[x].0, es[y].0));
        } else if y == idx {
            if x < idx - 1 {
                assert(key_lt(es[x].0, es[idx - 1].0));
                crate::order::lemma_key_lt_trans(es[x].0, es[idx - 1].0, e.0);
            }
        } else if x == idx {
            if y - 1 > idx {
                assert(key_lt(es[idx].0, es[y - 1].0));
                crate::order::lemma_key_lt_trans(e.0, es[idx].0, es[y - 1].0);
            }
        } else if x < idx {
            assert(key_lt(es[x].0, es[y - 1].0));
        } else {
            assert(key_lt(es[x - 1].0, es[y - 1].0));
        }
    }
    assert forall|x: int| 0 <= x < es3.len() implies strictly_above(#[trigger] es3[x].0, lo) && below(es3[x].0, hi) by {
        if x < idx {
            assert(es3[x] == es[x]);
        } else if x > idx {
            assert(es3[x] == es[x - 1]);
        } else {
            if idx > 0 {
                assert(strictly_above(es[idx - 1].0, lo));
                if lo is Some {
                    crate::order::lemma_key_lt_trans(lo->0, es[idx - 1].0, e.0);
                }
            }
            if idx < n {
                assert(below(es[idx].0, hi));
                if hi is Some {
                    crate::order::lemma_key_lt_trans(e.0, es[idx].0, hi->0);
                }
            }
        }
    }
}

/// Inserts into (or overwrites in) a leaf's entries and writes them back.
fn insert_into_leaf<S: NodeStore>(
    store: &mut S,
    node_id: PageId,
    entries: Vec<LeafEntry>,
    key: &[u8],
    value: &[u8],
    Ghost(lo): Ghost<Option<Seq<u8>>>,
    Ghost(hi): Ghost<Option<Seq<u8>>>,
    Ghost(h): Ghost<nat>,
) -> (r: Result<InsertOutcome, BTreeError>)
    requires
        sorted_keys(leaf_view(entries@)),
        in_bounds(leaf_view(entries@), lo, hi),
        leaf_fits(leaf_view(entries@), old(store).spec_page_size()),
        above(key@, lo),
        below(key@, hi),
        key@.len() <= 0xFFFF,
        value@.len() <= 0xFFFF,
    ensures
        old(store).pages().submap_of(final(store).pages()),
        final(store).spec_page_size() == old(store).spec_page_size(),
        r is Err ==> r->Err_0 is Pager || (r->Err_0 is Corrupt && leaf_write_shape(
            crate::tree_model::insert_entry(leaf_view(entries@), key@, value@),
            old(store).spec_page_size(),
        ) is Overflows),
        r is Ok ==> outcome_shape(r->Ok_0) == leaf_write_shape(
            crate::tree_model::insert_entry(leaf_view(entries@), key@, value@),
            old(store).spec_page_size(),
        ),
        r is Ok ==> outcome_holds(
            final(store).pages(),
            r->Ok_0,
            lo,
            hi,
            h,
            old(store).spec_page_size(),
            crate::tree_model::insert_entry(leaf_view(entries@), key@, value@),
        ),
        grows_based(old(store).writes(), final(store).writes(), Some(node_id)),
        r is Ok ==> final(store).writes().len() == old(store).writes().len() + outcome_writes(r->Ok_0),
        r matches Ok(InsertOutcome::Split { left, sep_key, right }) ==> subtree(
            final(store).pages(),
            left,
            lo,
            Some(sep_key@),
            h,
            old(store).spec_page_size(),
        )->0.len() >= 1 && subtree(final(store).pages(), right, Some(sep_key@), hi, h, old(store).spec_page_size())->0.len()
            >= 1,
        log_extends(old(store).calls(), final(store).calls()),
        r is Err && r->Err_0 is Pager ==> failed_by_last_call(log_since(old(store).calls(), final(store).calls()), r->Err_0),
        r is Ok ==> calls_ok(log_since(old(store).calls(), final(store).calls())),
{
    let ghost es = leaf_view(entries@);
    proof {
        assert(crate::node::leaf_cells(es).len() == es.len());
    }
    let mut entries = entries;
    let (i, found) = search_leaf(&entries, key);
    proof {
        crate::tree_model::lemma_insert_at(es, i as int, key@, value@);
    }
    let e = LeafEntry { key: vstd::slice::slice_to_vec(key), value: vstd::slice::slice_to_vec(value) };
    if found {
        entries.set(i, e);
        assert(leaf_view(entries@) =~= es.update(i as int, (key@, value@)));
    } else {
        entries.insert(i, e);
        assert(leaf_view(entries@) =~= es.insert(i as int, (key@, value@)));
    }
    proof {
        let ne = leaf_view(entries@);
        assert(ne == crate::tree_model::insert_entry(es, key@, value@));
        assert(in_bounds(ne, lo, hi)) by {
            assert forall|j: int| 0 <= j < ne.len() implies above(#[trigger] ne[j].0, lo) && below(ne[j].0, hi) by {
                if found {
                    if j != i {
                        assert(ne[j] == es[j]);
                    }
                } else if j < i {
                    assert(ne[j] == es[j]);
                } else if j > i {
                    assert(ne[j] == es[j - 1]);
                }
            }
        }
        assert(leaf_fields_small(entries@)) by {
            assert forall|j: int| 0 <= j < entries@.len() implies (#[trigger] entries@[j]).key@.len() <= 0xFFFF && entries@[j].value@.len() <= 0xFFFF by {
                assert(entries@[j]@ == ne[j]);
                if found {
                    if j != i {
                        assert(ne[j] == es[j]);
                    }
                } else if j < i {
                    assert(ne[j] == es[j]);
                } else if j > i {
                    assert(ne[j] == es[j - 1]);
                }
            }
        }
    }
    write_leaf_or_split(store, node_id, entries, Ghost(lo), Ghost(hi), Ghost(h))
}

/// Rewrites an internal node after its child `idx` was rewritten into
/// `outcome`.
fn finish_internal<S: NodeStore>(
    store: &mut S,
    node_id: PageId,
    leftmost: PageId,
    entries: Vec<InternalEntry>,
    idx: usize,
    outcome: InsertOutcome,
    Ghost(p): Ghost<Map<PageId, Seq<u8>>>,
    Ghost(lo): Ghost<Option<Seq<u8>>>,
    Ghost(hi): Ghost<Option<Seq<u8>>>,
    Ghost(h): Ghost<nat>,
    Ghost(new_c): Ghost<Seq<Entry>>,
) -> (r: Result<InsertOutcome, BTreeError>)
    requires
        h >= 1,
        p.submap_of(old(store).pages()),
        separators_sorted(internal_view(entries@)),
        separators_within(internal_view(entries@), lo, hi),
        bound_lt(lo, hi),
        internal_fits(internal_view(entries@), old(store).spec_page_size()),
        idx <= entries@.len(),
        crate::tree_model::concat_subtrees(
            p,
            child_specs(leftmost, internal_view(entries@), lo, hi).take(idx as int),
            (h - 1) as nat,
            old(store).spec_page_size(),
        ) is Some,
        crate::tree_model::concat_subtrees(
            p,
            child_specs(leftmost, internal_view(entries@), lo, hi).skip(idx + 1),
            (h - 1) as nat,
            old(store).spec_page_size(),
        ) is Some,
        outcome_holds(
            old(store).pages(),
            outcome,
            child_specs(leftmost, internal_view(entries@), lo, hi)[idx as int].1,
            child_specs(leftmost, internal_view(entries@), lo, hi)[idx as int].2,
            (h - 1) as nat,
            old(store).spec_page_size(),
            new_c,
        ),
    ensures
        p.submap_of(final(store).pages()),
        final(store).spec_page_size() == old(store).spec_page_size(),
        r is Err ==> r->Err_0 is Pager || (r->Err_0 is Corrupt && parent_shape(
            internal_view(entries@),
            idx as int,
            outcome_shape(outcome),
            old(store).spec_page_size(),
        ) is Overflows),
        r is Ok ==> outcome_shape(r->Ok_0) == parent_shape(
            internal_view(entries@),
            idx as int,
            outcome_shape(outcome),
            old(store).spec_page_size(),
        ),
        r is Ok ==> outcome_holds(
            final(store).pages(),
            r->Ok_0,
            lo,
            hi,
            h,
            old(store).spec_page_size(),
            crate::tree_model::concat_subtrees(
                p,
                child_specs(leftmost, internal_view(entries@), lo, hi).take(idx as int),
                (h - 1) as nat,
                old(store).spec_page_size(),
            )->0 + new_c + crate::tree_model::concat_subtrees(
                p,
                child_specs(leftmost, internal_view(entries@), lo, hi).skip(idx + 1),
                (h - 1) as nat,
                old(store).spec_page_size(),
            )->0,
        ),
        grows_based(old(store).writes(), final(store).writes(), Some(node_id)),
        r is Ok ==> final(store).writes().len() == old(store).writes().len() + outcome_writes(r->Ok_0),
        log_extends(old(store).calls(), final(store).calls()),
        r is Err && r->Err_0 is Pager ==> failed_by_last_call(log_since(old(store).calls(), final(store).calls()), r->Err_0),
        r is Ok ==> calls_ok(log_since(old(store).calls(), final(store).calls())),
{
    let ghost p1 = store.pages();
    let ghost ps = store.spec_page_size();
    let ghost es = internal_view(entries@);
    let ghost specs = child_specs(leftmost, es, lo, hi);
    let ghost hc = (h - 1) as nat;
    let ghost clo = specs[idx as int].1;
    let ghost chi = specs[idx as int].2;
    let ghost lm0 = leftmost;
    proof {
        assert(crate::node::internal_cells(es).len() == es.len());
        assert(internal_keys_small(entries@)) by {
            assert forall|j: int| 0 <= j < entries@.len() implies (#[trigger] entries@[j]).key@.len() <= 0xFFFF by {
                assert(entries@[j]@ == es[j]);
            }
        }
    }
    let mut leftmost = leftmost;
    let mut entries = entries;
    let left_child = match &outcome {
        InsertOutcome::Fit(c) => *c,
        InsertOutcome::Split { left, sep_key, right } => *left,
    };
    if idx == 0 {
        leftmost = left_child;
    } else {
        let k = vstd::slice::slice_to_vec(entries[idx - 1].key.as_slice());
        entries.set(idx - 1, InternalEntry { key: k, child: left_child });
    }
    let ghost es2 = repoint_entries(es, idx as int, left_child);
    proof {
        assert(internal_view(entries@) =~= es2);
        assert(leftmost == repoint_leftmost(lm0, idx as int, left_child));
        lemma_same_keys(es, es2, lo, hi);
        assert(internal_keys_small(entries@)) by {
            assert forall|j: int| 0 <= j < entries@.len() implies (#[trigger] entries@[j]).key@.len() <= 0xFFFF by {
                assert(entries@[j].key@ == es2[j].0);
                assert(es2[j].0 == es[j].0);
            }
        }
    }
    match outcome {
        InsertOutcome::Fit(new_child) => {
            proof {
                let mid = seq![(new_child, clo, chi)];
                lemma_specs_repoint(lm0, es, lo, hi, idx as int, new_child);
                crate::tree_model::lemma_concat_single(p1, (new_child, clo, chi), hc, ps);
                lemma_concat_replace(p, p1, specs.take(idx as int), mid, specs.skip(idx as int + 1), hc, ps, new_c);
                lemma_write_shape_same_keys(es, es2, ps);
            }
            let r = write_internal_or_split(store, node_id, leftmost, entries, Ghost(lo), Ghost(hi), Ghost(h));
            proof {
                lemma_submap_trans(p, p1, store.pages());
            }
            r
        },
        InsertOutcome::Split { left, sep_key, right } => {
            let ghost sep = sep_key@;
            entries.insert(idx, InternalEntry { key: sep_key, child: right });
            let ghost es3 = es2.insert(idx as int, (sep, right));
            proof {
                assert(internal_view(entries@) =~= es3);
                lemma_specs_split(lm0, es, lo, hi, idx as int, left, sep, right);
                lemma_insert_separator(es2, idx as int, (sep, right), lo, hi, clo, chi);
                let ls = (left, clo, Some(sep));
                let rs = (right, Some(sep), chi);
                crate::tree_model::lemma_concat_single(p1, ls, hc, ps);
                crate::tree_model::lemma_concat_single(p1, rs, hc, ps);
                crate::tree_model::lemma_concat_add(p1, seq![ls], seq![rs], hc, ps);
                assert(seq![ls] + seq![rs] =~= seq![ls, rs]);
                lemma_concat_replace(p, p1, specs.take(idx as int), seq![ls, rs], specs.skip(idx as int + 1), hc, ps, new_c);
                let plain = es.insert(idx as int, (sep, 0u64));
                assert forall|j: int| 0 <= j < plain.len() implies (#[trigger] es3[j]).0 == plain[j].0 by {
                    if j < idx {
                        assert(es3[j].0 == es2[j].0);
                    } else if j > idx {
                        assert(es3[j].0 == es2[j - 1].0);
                    }
                }
                lemma_write_shape_same_keys(plain, es3, ps);
                assert(internal_keys_small(entries@)) by {
                    assert forall|j: int| 0 <= j < entries@.len() implies (#[trigger] entries@[j]).key@.len() <= 0xFFFF by {
                        assert(entries@[j].key@ == es3[j].0);
                        if j < idx {
                            assert(es3[j].0 == es[j].0);
                        } else if j > idx {
                            assert(es3[j].0 == es[j - 1].0);
                        }
                    }
                }
            }
            let r = write_internal_or_split(store, node_id, leftmost, entries, Ghost(lo), Ghost(hi), Ghost(h));
            proof {
                lemma_submap_trans(p, p1, store.pages());
            }
            r
        },
    }
}

/// Inserts `key` -> `value` into the subtree at `node_id`, rewriting the path
/// to the leaf; what comes back, and when the tree's own error comes, is
/// [`insert_shape`] of the pages read.
fn insert_into<S: NodeStore>(
    store: &mut S,
    node_id: PageId,
    key: &[u8],
    value: &[u8],
    Ghost(lo): Ghost<Option<Seq<u8>>>,
    Ghost(hi): Ghost<Option<Seq<u8>>>,
    Ghost(h): Ghost<nat>,
) -> (r: Result<InsertOutcome, BTreeError>)
    requires
        subtree(old(store).pages(), node_id, lo, hi, h, old(store).spec_page_size()) is Some,
        above(key@, lo),
        below(key@, hi),
        key@.len() <= 0xFFFF,
        value@.len() <= 0xFFFF,
    ensures
        old(store).pages().submap_of(final(store).pages()),
        final(store).spec_page_size() == old(store).spec_page_size(),
        r is Err ==> r->Err_0 is Pager || (r->Err_0 is Corrupt && insert_shape(
            old(store).pages(),
            node_id,
            key@,
            value@,
            lo,
            hi,
            h,
            old(store).spec_page_size(),
        ) is Overflows),
        r is Ok ==> outcome_shape(r->Ok_0) == insert_shape(
            old(store).pages(),
            node_id,
            key@,
            value@,
            lo,
            hi,
            h,
            old(store).spec_page_size(),
        ),
        r is Ok ==> outcome_holds(
            final(store).pages(),
            r->Ok_0,
            lo,
            hi,
            h,
            old(store).spec_page_size(),
            crate::tree_model::insert_entry(
                subtree(old(store).pages(), node_id, lo, hi, h, old(store).spec_page_size())->0,
                key@,
                value@,
            ),
        ),
        writes_extend(old(store).writes(), final(store).writes()),
        based_on_path(
            writes_since(old(store).writes(), final(store).writes()),
            path_nodes(old(store).pages(), node_id, key@, h),
        ),
        r is Ok ==> bases_of(writes_since(old(store).writes(), final(store).writes())) == insert_bases(
            old(store).pages(),
            node_id,
            key@,
            value@,
            lo,
            hi,
            h,
            old(store).spec_page_size(),
        ),
        r matches Ok(InsertOutcome::Split { left, sep_key, right }) ==> (node_is_leaf(old(store).pages()[node_id])
            ==> subtree(final(store).pages(), left, lo, Some(sep_key@), h, old(store).spec_page_size())->0.len() >= 1
            && subtree(final(store).pages(), right, Some(sep_key@), hi, h, old(store).spec_page_size())->0.len() >= 1),
        log_extends(old(store).calls(), final(store).calls()),
        r is Err && r->Err_0 is Pager ==> failed_by_last_call(log_since(old(store).calls(), final(store).calls()), r->Err_0),
        r is Ok ==> calls_ok(log_since(old(store).calls(), final(store).calls())),
    decreases h,
{
    let ghost p = store.pages();
    let ghost ps = store.spec_page_size();
    let ghost w0 = store.writes();
    let ghost c0 = store.calls();
    let node = match decode_node(store, node_id) {
        Ok(n) => n,
        Err(e) => {
            proof {
                lemma_writes_same(w0);
            }
            return Err(e);
        },
    };
    let ghost c1 = store.calls();
    match node {
        Node::Leaf(entries) => {
            let r = insert_into_leaf(store, node_id, entries, key, value, Ghost(lo), Ghost(hi), Ghost(h));
            proof {
                lemma_calls_after_ok(c0, c1, store.calls());
                let ws = writes_since(w0, store.writes());
                assert(path_nodes(p, node_id, key@, h) == seq![node_id]);
                assert(seq![node_id][0] == node_id);
                lemma_path_based_node(ws, seq![node_id], node_id);
                if r is Ok {
                    lemma_all_based_bases(ws, Some(node_id));
                    assert(outcome_writes(r->Ok_0) == shape_writes(outcome_shape(r->Ok_0)));
                }
            }
            r
        },
        Node::Internal { leftmost, entries } => {
            let ghost es = internal_view(entries@);
            let ghost specs = child_specs(leftmost, es, lo, hi);
            let ghost hc = (h - 1) as nat;
            let idx = child_index(&entries, key);
            let child = child_at(leftmost, &entries, idx);
            let ghost clo = specs[idx as int].1;
            let ghost chi = specs[idx as int].2;
            proof {
                lemma_child_specs_chain(leftmost, es, lo, hi);
                lemma_concat_pick(p, specs, hc, ps, idx as int, key@);
                assert(child_slot_ok(es, key@, idx as int)) by {
                    assert forall|j: int| 0 <= j < idx implies key_le((#[trigger] es[j]).0, key@) by {
                        assert(es[j].0 == entries@[j].key@);
                    }
                    if idx < es.len() {
                        assert(es[idx as int].0 == entries@[idx as int].key@);
                    }
                }
                lemma_child_slot(es, key@, idx as int);
                if idx > 0 {
                    assert(es[idx - 1].1 == entries@[idx - 1].child);
                }
                assert(slot_child(leftmost, es, idx as int) == child);
            }
            let ghost a = crate::tree_model::concat_subtrees(p, specs.take(idx as int), hc, ps)->0;
            let ghost c = subtree(p, child, clo, chi, hc, ps)->0;
            let ghost b = crate::tree_model::concat_subtrees(p, specs.skip(idx as int + 1), hc, ps)->0;
            let ghost path = path_nodes(p, node_id, key@, h);
            let ghost cpath = path_nodes(p, child, key@, hc);
            assert(path == cpath.push(node_id));
            let outcome = match insert_into(store, child, key, value, Ghost(clo), Ghost(chi), Ghost(hc)) {
                Ok(o) => o,
                Err(e) => {
                    proof {
                        lemma_path_based_widen(writes_since(w0, store.writes()), cpath, node_id);
                        lemma_calls_after_ok(c0, c1, store.calls());
                    }
                    return Err(e);
                },
            };
            let ghost w1 = store.writes();
            let ghost c2 = store.calls();
            proof {
                lemma_calls_after_ok(c0, c1, c2);
                lemma_insert_decompose(a, c, b, key@, value@);
                lemma_path_based_widen(writes_since(w0, w1), cpath, node_id);
            }
            let r = finish_internal(
                store,
                node_id,
                leftmost,
                entries,
                idx,
                outcome,
                Ghost(p),
                Ghost(lo),
                Ghost(hi),
                Ghost(h),
                Ghost(crate::tree_model::insert_entry(c, key@, value@)),
            );
            proof {
                lemma_calls_after_ok(c0, c2, store.calls());
                let w2 = store.writes();
                let top = writes_since(w1, w2);
                lemma_writes_chain(w0, w1, w2);
                assert(path[path.len() - 1] == node_id);
                lemma_path_based_node(top, path, node_id);
                lemma_path_based_concat(writes_since(w0, w1), top, path);
                if r is Ok {
                    lemma_bases_concat(writes_since(w0, w1), top);
                    lemma_all_based_bases(top, Some(node_id));
                    assert(outcome_writes(r->Ok_0) == shape_writes(outcome_shape(r->Ok_0)));
                }
            }
            r
        },
    }
}



// ----- deletion -----
/// The child of an internal node (leftmost child `leftmost`, separators
/// `es`) at slot `i`.
pub open spec fn slot_child(leftmost: PageId, es: Seq<(Seq<u8>, PageId)>, i: int) -> PageId {
    if i == 0 {
        leftmost
    } else {
        es[i - 1].1
    }
}

/// The writes `ws` rewrite the nodes of `path`, one each and in order, each
/// from its own page and without a merge.
pub open spec fn rewrites_path(ws: Seq<NodeWrite>, p: Map<PageId, Seq<u8>>, path: Seq<PageId>) -> bool {
    &&& ws.len() == path.len()
    &&& forall|i: int| 0 <= i < ws.len() ==> (#[trigger] ws[i]).0 == Some(path[i]) && rewritten_without_merge(
        p[path[i]],
        ws[i].1,
    )
}

/// `new_page` rewrites `old_page` after a removal with no merge: a leaf
/// has one entry fewer, an internal node as many separators as before.
pub open spec fn rewritten_without_merge(old_page: Seq<u8>, new_page: Seq<u8>) -> bool {
    match parse_node(old_page) {
        Some(NodeView::Leaf(es)) => parse_node(new_page) matches Some(NodeView::Leaf(es2)) && es2.len() + 1
            == es.len(),
        Some(NodeView::Internal(_, es)) => parse_node(new_page) matches Some(NodeView::Internal(_, es2))
            && es2.len() == es.len(),
        None => true,
    }
}

proof fn lemma_remove_decompose(a: Seq<Entry>, c: Seq<Entry>, b: Seq<Entry>, k: Seq<u8>)
    requires
        crate::tree_model::no_key(a, k),
        crate::tree_model::no_key(b, k),
    ensures
        crate::tree_model::remove_entry(a + c + b, k) == a + crate::tree_model::remove_entry(c, k) + b,
{
    assert(a + c + b =~= a + (c + b));
    crate::tree_model::lemma_remove_prefix(a, c + b, k);
    crate::tree_model::lemma_remove_suffix(c, b, k);
    assert(a + (crate::tree_model::remove_entry(c, k) + b) =~= a + crate::tree_model::remove_entry(c, k) + b);
}

/// Removes `key` from the subtree at `node_id`: `None` if it is absent
/// (nothing written), else the page of the rewritten subtree. Removing an
/// entry, or repointing one child, always re-encodes within the page, so the
/// only failures are the store's.
#[verifier::rlimit(40)]
fn delete_from<S: NodeStore>(
    store: &mut S,
    node_id: PageId,
    key: &[u8],
    Ghost(lo): Ghost<Option<Seq<u8>>>,
    Ghost(hi): Ghost<Option<Seq<u8>>>,
    Ghost(h): Ghost<nat>,
) -> (r: Result<Option<PageId>, BTreeError>)
    requires
        subtree(old(store).pages(), node_id, lo, hi, h, old(store).spec_page_size()) is Some,
        above(key@, lo),
        below(key@, hi),
    ensures
        old(store).pages().submap_of(final(store).pages()),
        final(store).spec_page_size() == old(store).spec_page_size(),
        r is Err ==> r->Err_0 is Pager,
        find(subtree(old(store).pages(), node_id, lo, hi, h, old(store).spec_page_size())->0, key@) is None
            ==> final(store).pages() == old(store).pages() && final(store).writes() == old(store).writes() && (r is Ok
            ==> r->Ok_0 is None),
        writes_extend(old(store).writes(), final(store).writes()),
        based_on_path(
            writes_since(old(store).writes(), final(store).writes()),
            path_nodes(old(store).pages(), node_id, key@, h),
        ),
        r is Ok && r->Ok_0 is Some ==> rewrites_path(
            writes_since(old(store).writes(), final(store).writes()),
            old(store).pages(),
            path_nodes(old(store).pages(), node_id, key@, h),
        ),
        r is Ok && r->Ok_0 is None ==> find(
            subtree(old(store).pages(), node_id, lo, hi, h, old(store).spec_page_size())->0,
            key@,
        ) is None,
        r matches Ok(Some(n)) ==> rewritten_without_merge(old(store).pages()[node_id], final(store).pages()[n]),
        r is Ok && r->Ok_0 is Some && old(store).pages().dom().finite() ==> final(store).pages().dom().finite()
            && final(store).pages().dom().len() == old(store).pages().dom().len() + path_nodes(
            old(store).pages(),
            node_id,
            key@,
            h,
        ).len(),
        r is Ok && r->Ok_0 is Some ==> find(
            subtree(old(store).pages(), node_id, lo, hi, h, old(store).spec_page_size())->0,
            key@,
        ) is Some && subtree(final(store).pages(), r->Ok_0->0, lo, hi, h, old(store).spec_page_size())
            == Some(crate::tree_model::remove_entry(
            subtree(old(store).pages(), node_id, lo, hi, h, old(store).spec_page_size())->0,
            key@,
        )),
        log_extends(old(store).calls(), final(store).calls()),
        r is Err && r->Err_0 is Pager ==> failed_by_last_call(log_since(old(store).calls(), final(store).calls()), r->Err_0),
        r is Ok ==> calls_ok(log_since(old(store).calls(), final(store).calls())),
    decreases h,
{
    let ghost p = store.pages();
    let ghost w0 = store.writes();
    let ghost c0 = store.calls();
    proof {
        lemma_writes_same(w0);
    }
    let ghost ps = store.spec_page_size();
    let page_size = store.page_size();
    let node = match decode_node(store, node_id) {
        Ok(n) => n,
        Err(e) => {
            return Err(e);
        },
    };
    let ghost c1 = store.calls();
    match node {
        Node::Leaf(entries) => {
            let ghost es = leaf_view(entries@);
            let (i, found) = search_leaf(&entries, key);
            if !found {
                proof {
                    assert forall|j: int| i <= j < es.len() implies key_lt(key@, (#[trigger] es[j]).0) by {
                        if j == i {
                            lemma_key_lt_total(key@, es[j].0);
                        } else {
                            assert(key_lt(es[i as int].0, es[j].0));
                            crate::order::lemma_key_le_lt_trans(key@, es[i as int].0, es[j].0);
                        }
                    }
                    lemma_absent_between(es, i as int, key@);
                    lemma_find_absent(es, key@);
                }
                return Ok(None);
            }
            let mut entries = entries;
            entries.remove(i);
            proof {
                lemma_find_at(es, i as int);
                crate::tree_model::lemma_remove_at(es, i as int);
                crate::node::lemma_leaf_fits_remove(es, i as int, ps);
                assert(leaf_view(entries@) =~= es.remove(i as int));
                let r = es.remove(i as int);
                assert(sorted_keys(r)) by {
                    assert forall|x: int, y: int| 0 <= x < y < r.len() implies key_lt(#[trigger] r[x].0, #[trigger] r[y].0) by {
                        if y < i {
                            assert(key_lt(es[x].0, es[y].0));
                        } else if x < i {
                            assert(key_lt(es[x].0, es[y + 1].0));
                        } else {
                            assert(key_lt(es[x + 1].0, es[y + 1].0));
                        }
                    }
                }
                assert(in_bounds(r, lo, hi)) by {
                    assert forall|x: int| 0 <= x < r.len() implies above(#[trigger] r[x].0, lo) && below(r[x].0, hi) by {
                        if x < i {
                            assert(r[x] == es[x]);
                        } else {
                            assert(r[x] == es[x + 1]);
                        }
                    }
                }
            }
            let buf = match try_encode_leaf(entries.as_slice(), page_size) {
                Some(b) => b,
                None => {
                    assert(false);
                    return Err(corrupt("removing an entry made a leaf node overflow"));
                },
            };
            proof {
                lemma_parse_leaf_image(leaf_view(entries@), page_size as nat);
            }
            let ghost cb = store.calls();
            let wres = store.write_new_node(Some(node_id), buf.as_slice());
            proof {
                lemma_one_call(c0, cb, call_result(wres));
            }
            match wres {
                Ok(id) => {
                    proof {
                        lemma_writes_push(w0, (Some(node_id), buf@));
                        assert(path_nodes(p, node_id, key@, h) == seq![node_id]);
                        assert(seq![node_id][0] == node_id);
                        if p.dom().finite() {
                            vstd::map::axiom_map_insert_domain(p, id, buf@);
                            vstd::set::axiom_set_insert_len(p.dom(), id);
                            vstd::set::axiom_set_insert_finite(p.dom(), id);
                        }
                    }
                    Ok(Some(id))
                },
                Err(e) => Err(e),
            }
        },
        Node::Internal { leftmost, entries } => {
            let ghost es = internal_view(entries@);
            let ghost specs = child_specs(leftmost, es, lo, hi);
            let ghost hc = (h - 1) as nat;
            let idx = child_index(&entries, key);
            let child = child_at(leftmost, &entries, idx);
            let ghost clo = specs[idx as int].1;
            let ghost chi = specs[idx as int].2;
            proof {
                lemma_child_specs_chain(leftmost, es, lo, hi);
                lemma_concat_pick(p, specs, hc, ps, idx as int, key@);
                assert(child_slot_ok(es, key@, idx as int)) by {
                    assert forall|j: int| 0 <= j < idx implies key_le((#[trigger] es[j]).0, key@) by {
                        assert(es[j].0 == entries@[j].key@);
                    }
                    if idx < es.len() {
                        assert(es[idx as int].0 == entries@[idx as int].key@);
                    }
                }
                lemma_child_slot(es, key@, idx as int);
                if idx > 0 {
                    assert(es[idx - 1].1 == entries@[idx - 1].child);
                }
                assert(slot_child(leftmost, es, idx as int) == child);
            }
            let ghost path = path_nodes(p, node_id, key@, h);
            let ghost cpath = path_nodes(p, child, key@, hc);
            assert(path == cpath.push(node_id));
            let ghost a = crate::tree_model::concat_subtrees(p, specs.take(idx as int), hc, ps)->0;
            let ghost c = subtree(p, child, clo, chi, hc, ps)->0;
            let ghost b = crate::tree_model::concat_subtrees(p, specs.skip(idx as int + 1), hc, ps)->0;
            proof {
                lemma_below_no_key(a, key@);
                lemma_above_no_key(b, key@);
                lemma_find_skip_prefix(a, c + b, key@);
                assert(a + c + b =~= a + (c + b));
                lemma_find_skip_suffix(c, b, key@);
                lemma_remove_decompose(a, c, b, key@);
            }
            let new_child = match delete_from(store, child, key, Ghost(clo), Ghost(chi), Ghost(hc)) {
                Ok(Some(nc)) => nc,
                Ok(None) => {
                    proof {
                        lemma_calls_after_ok(c0, c1, store.calls());
                    }
                    return Ok(None);
                },
                Err(e) => {
                    proof {
                        lemma_path_based_widen(writes_since(w0, store.writes()), cpath, node_id);
                        lemma_calls_after_ok(c0, c1, store.calls());
                    }
                    return Err(e);
                },
            };
            proof {
                lemma_calls_after_ok(c0, c1, store.calls());
            }
            let ghost p1 = store.pages();
            let ghost w1 = store.writes();
            proof {
                lemma_path_based_widen(writes_since(w0, w1), cpath, node_id);
            }
            let ghost lm0 = leftmost;
            let mut leftmost = leftmost;
            let mut entries = entries;
            if idx == 0 {
                leftmost = new_child;
            } else {
                let k = vstd::slice::slice_to_vec(entries[idx - 1].key.as_slice());
                entries.set(idx - 1, InternalEntry { key: k, child: new_child });
            }
            let ghost es2 = repoint_entries(es, idx as int, new_child);
            proof {
                assert(internal_view(entries@) =~= es2);
                assert(leftmost == repoint_leftmost(lm0, idx as int, new_child));
                lemma_same_keys(es, es2, lo, hi);
                crate::node::lemma_internal_fits_same_keys(es, es2, ps);
                lemma_specs_repoint(lm0, es, lo, hi, idx as int, new_child);
                crate::tree_model::lemma_concat_single(p1, (new_child, clo, chi), hc, ps);
                lemma_concat_replace(
                    p,
                    p1,
                    specs.take(idx as int),
                    seq![(new_child, clo, chi)],
                    specs.skip(idx as int + 1),
                    hc,
                    ps,
                    crate::tree_model::remove_entry(c, key@),
                );
            }
            let buf = match try_encode_internal(leftmost, entries.as_slice(), page_size) {
                Some(b) => b,
                None => {
                    assert(false);
                    return Err(corrupt("repointing one child made an internal node overflow"));
                },
            };
            proof {
                lemma_parse_internal_image(leftmost, es2, page_size as nat);
            }
            let ghost cb = store.calls();
            let wres = store.write_new_node(Some(node_id), buf.as_slice());
            proof {
                lemma_one_call(c0, cb, call_result(wres));
            }
            match wres {
                Ok(id) => {
                    proof {
                        let p2 = store.pages();
                        let x = (Some(node_id), buf@);
                        lemma_writes_push(w1, x);
                        lemma_writes_chain(w0, w1, store.writes());
                        let c1 = writes_since(w0, w1);
                        let all = writes_since(w0, store.writes());
                        assert(all == c1 + seq![x]);
                        assert(path[path.len() - 1] == node_id);
                        assert forall|k: int| 0 <= k < all.len() implies (#[trigger] all[k]).0 is Some && path.contains(all[k].0->0) by {
                            if k < c1.len() {
                                assert(all[k] == c1[k]);
                            } else {
                                assert(all[k] == x);
                            }
                        }
                        if p.dom().finite() {
                            vstd::map::axiom_map_insert_domain(p1, id, buf@);
                            vstd::set::axiom_set_insert_len(p1.dom(), id);
                            vstd::set::axiom_set_insert_finite(p1.dom(), id);
                        }
                        lemma_submap_trans(p, p1, p2);
                        crate::tree_model::lemma_concat_frame(
                            p1,
                            p2,
                            child_specs(leftmost, es2, lo, hi),
                            hc,
                            ps,
                        );
                        assert(rewritten_without_merge(p[node_id], buf@));
                        assert forall|k: int| 0 <= k < all.len() implies (#[trigger] all[k]).0 == Some(path[k])
                            && rewritten_without_merge(p[path[k]], all[k].1) by {
                            if k < c1.len() {
                                assert(all[k] == c1[k]);
                                assert(path[k] == cpath[k]);
                            } else {
                                assert(all[k] == x);
                            }
                        }
                    }
                    Ok(Some(id))
                },
                Err(e) => {
                    proof {
                        lemma_submap_trans(p, p1, store.pages());
                    }
                    Err(e)
                },
            }
        },
    }
}

impl BTree {
    /// Removes `key` if present and returns whether it was; deleting an
    /// absent key is a no-op, not an error. Never rebalances or merges
    /// underfull nodes.
    pub fn delete<S: NodeStore>(&mut self, store: &mut S, key: &[u8]) -> (r: Result<bool, BTreeError>)
        requires
            tree_contents(old(store).pages(), old(self).spec_root(), old(store).spec_page_size()) is Some,
        ensures
            old(store).pages().submap_of(final(store).pages()),
            final(store).spec_page_size() == old(store).spec_page_size(),
            r is Ok ==> r->Ok_0 == find(
                tree_contents(old(store).pages(), old(self).spec_root(), old(store).spec_page_size())->0,
                key@,
            ) is Some,
            r is Ok ==> tree_contents(final(store).pages(), final(self).spec_root(), old(store).spec_page_size())
                == Some(crate::tree_model::remove_entry(
                    tree_contents(old(store).pages(), old(self).spec_root(), old(store).spec_page_size())->0,
                    key@,
                )),
            r is Ok && !r->Ok_0 ==> final(self).spec_root() == old(self).spec_root(),
            r is Err ==> final(self).spec_root() == old(self).spec_root(),
            r is Err ==> r->Err_0 is Pager,
            r is Ok && r->Ok_0 ==> rewritten_without_merge(
                old(store).pages()[old(self).spec_root()],
                final(store).pages()[final(self).spec_root()],
            ),
            r is Ok && r->Ok_0 && old(store).pages().dom().finite() ==> final(store).pages().dom().finite()
                && final(store).pages().dom().len() == old(store).pages().dom().len() + path_nodes(
                old(store).pages(),
                old(self).spec_root(),
                key@,
                tree_height(old(store).pages(), old(self).spec_root(), old(store).spec_page_size()),
            ).len(),
            writes_extend(old(store).writes(), final(store).writes()),
            r is Ok && r->Ok_0 ==> rewrites_path(
                writes_since(old(store).writes(), final(store).writes()),
                old(store).pages(),
                path_nodes(
                    old(store).pages(),
                    old(self).spec_root(),
                    key@,
                    tree_height(old(store).pages(), old(self).spec_root(), old(store).spec_page_size()),
                ),
            ),
            r is Err ==> based_on_path(
                writes_since(old(store).writes(), final(store).writes()),
                path_nodes(
                    old(store).pages(),
                    old(self).spec_root(),
                    key@,
                    tree_height(old(store).pages(), old(self).spec_root(), old(store).spec_page_size()),
                ),
            ),
            find(tree_contents(old(store).pages(), old(self).spec_root(), old(store).spec_page_size())->0, key@)
                is None ==> final(store).pages() == old(store).pages() && final(store).writes() == old(store).writes()
                && final(self).spec_root() == old(
                self,
            ).spec_root() && (r is Ok ==> !r->Ok_0),
            log_extends(old(store).calls(), final(store).calls()),
            r is Err && r->Err_0 is Pager ==> failed_by_last_call(
                log_since(old(store).calls(), final(store).calls()),
                r->Err_0,
            ),
            calls_ok(log_since(old(store).calls(), final(store).calls())) ==> r is Ok,
    {
        let ghost ps = store.spec_page_size();
        let ghost p = store.pages();
        let ghost h = choose|h: nat| #[trigger] subtree(p, self.root, None, None, h, ps) is Some;
        proof {
            lemma_tree_contents(p, self.root, h, ps);
        }
        match delete_from(store, self.root, key, Ghost(None), Ghost(None), Ghost(h)) {
            Ok(Some(new_root)) => {
                proof {
                    lemma_tree_contents(store.pages(), new_root, h, ps);
                }
                self.root = new_root;
                Ok(true)
            },
            Ok(None) => {
                proof {
                    let old_es = subtree(p, self.root, None, None, h, ps)->0;
                    crate::tree_model::lemma_subtree_frame(p, store.pages(), self.root, None, None, h, ps);
                    lemma_tree_contents(store.pages(), self.root, h, ps);
                    assert(crate::tree_model::no_key(old_es, key@)) by {
                        assert forall|i: int| 0 <= i < old_es.len() implies (#[trigger] old_es[i]).0 != key@ by {
                            lemma_subtree_sorted(p, self.root, None, None, h, ps);
                            if old_es[i].0 == key@ {
                                lemma_find_at(old_es, i);
                            }
                        }
                    }
                    crate::tree_model::lemma_remove_absent(old_es, key@);
                }
                Ok(false)
            },
            Err(e) => Err(e),
        }
    }
}

// ----- range scans -----
pub open spec fn bound_view(b: Bound<&[u8]>) -> Bound<Seq<u8>> {
    match b {
        Bound::Included(s) => Bound::Included(s@),
        Bound::Excluded(s) => Bound::Excluded(s@),
        Bound::Unbounded => Bound::Unbounded,
    }
}

pub open spec fn entries_view(v: Seq<(Vec<u8>, Vec<u8>)>) -> Seq<Entry> {
    v.map_values(|e: (Vec<u8>, Vec<u8>)| (e.0@, e.1@))
}

fn key_before_start(key: &[u8], start: Bound<&[u8]>) -> (r: bool)
    ensures
        r == !after_start(key@, bound_view(start)),
{
    proof {
        if let Bound::Included(s) = start {
            lemma_key_lt_total(key@, s@);
        }
        if let Bound::Excluded(s) = start {
            lemma_key_lt_total(key@, s@);
        }
    }
    match start {
        Bound::Unbounded => false,
        Bound::Included(s) => matches!(compare_keys(key, s), KeyOrder::Less),
        Bound::Excluded(s) => !matches!(compare_keys(key, s), KeyOrder::Greater),
    }
}

fn key_after_end(key: &[u8], end: Bound<&[u8]>) -> (r: bool)
    ensures
        r == !before_end(key@, bound_view(end)),
{
    proof {
        if let Bound::Included(e) = end {
            lemma_key_lt_total(key@, e@);
        }
        if let Bound::Excluded(e) = end {
            lemma_key_lt_total(key@, e@);
        }
    }
    match end {
        Bound::Unbounded => false,
        Bound::Included(e) => matches!(compare_keys(key, e), KeyOrder::Greater),
        Bound::Excluded(e) => !matches!(compare_keys(key, e), KeyOrder::Less),
    }
}

/// True if every key below `upper_exclusive` is before `start`.
fn range_before_start(upper_exclusive: &[u8], start: Bound<&[u8]>) -> (r: bool)
    ensures
        r == match bound_view(start) {
            Bound::Unbounded => false,
            Bound::Included(s) => key_le(upper_exclusive@, s),
            Bound::Excluded(s) => key_le(upper_exclusive@, s),
        },
        r ==> forall|k: Seq<u8>| key_lt(k, upper_exclusive@) ==> !#[trigger] after_start(k, bound_view(start)),
{
    match start {
        Bound::Unbounded => false,
        Bound::Included(s) | Bound::Excluded(s) => {
            let r = !matches!(compare_keys(upper_exclusive, s), KeyOrder::Greater);
            proof {
                if r {
                    assert forall|k: Seq<u8>| key_lt(k, upper_exclusive@) implies !#[trigger] after_start(k, bound_view(start)) by {
                        lemma_key_lt_total(upper_exclusive@, s@);
                        crate::order::lemma_key_lt_le_trans(k, upper_exclusive@, s@);
                        lemma_key_lt_total(k, s@);
                    }
                }
            }
            r
        },
    }
}

/// True if every key from `lower_inclusive` up is after `end`.
fn range_after_end(lower_inclusive: &[u8], end: Bound<&[u8]>) -> (r: bool)
    ensures
        r == match bound_view(end) {
            Bound::Unbounded => false,
            Bound::Included(e) => key_lt(e, lower_inclusive@),
            Bound::Excluded(e) => key_le(e, lower_inclusive@),
        },
        r ==> forall|k: Seq<u8>| key_le(lower_inclusive@, k) ==> !#[trigger] before_end(k, bound_view(end)),
{
    match end {
        Bound::Unbounded => false,
        Bound::Included(e) => {
            let r = matches!(compare_keys(lower_inclusive, e), KeyOrder::Greater);
            proof {
                if r {
                    assert forall|k: Seq<u8>| key_le(lower_inclusive@, k) implies !#[trigger] before_end(k, bound_view(end)) by {
                        crate::order::lemma_key_lt_le_trans(e@, lower_inclusive@, k);
                        lemma_key_lt_total(e@, k);
                    }
                }
            }
            r
        },
        Bound::Excluded(e) => {
            let r = !matches!(compare_keys(lower_inclusive, e), KeyOrder::Less);
            proof {
                if r {
                    assert forall|k: Seq<u8>| key_le(lower_inclusive@, k) implies !#[trigger] before_end(k, bound_view(end)) by {
                        lemma_key_lt_total(lower_inclusive@, e@);
                        if e@ != lower_inclusive@ {
                            crate::order::lemma_key_lt_le_trans(e@, lower_inclusive@, k);
                        }
                        lemma_key_lt_total(e@, k);
                    }
                }
            }
            r
        },
    }
}

fn collect_range<S: NodeStore>(
    store: &mut S,
    node_id: PageId,
    start: Bound<&[u8]>,
    end: Bound<&[u8]>,
    out: &mut Vec<(Vec<u8>, Vec<u8>)>,
    Ghost(lo): Ghost<Option<Seq<u8>>>,
    Ghost(hi): Ghost<Option<Seq<u8>>>,
    Ghost(h): Ghost<nat>,
) -> (r: Result<(), BTreeError>)
    requires
        subtree(old(store).pages(), node_id, lo, hi, h, old(store).spec_page_size()) is Some,
    ensures
        final(store).pages() == old(store).pages(),
        final(store).writes() == old(store).writes(),
        final(store).spec_page_size() == old(store).spec_page_size(),
        r is Err ==> r->Err_0 is Pager,
        log_extends(old(store).reads(), final(store).reads()),
        r is Err ==> failed_by_last_read(log_since(old(store).reads(), final(store).reads()), r->Err_0),
        r is Ok ==> reads_ok(log_since(old(store).reads(), final(store).reads())),
        r is Ok ==> entries_view(final(out)@) == entries_view(old(out)@) + range_of(
            subtree(old(store).pages(), node_id, lo, hi, h, old(store).spec_page_size())->0,
            bound_view(start),
            bound_view(end),
        ),
    decreases h, 1nat,
{
    let ghost p = store.pages();
    let ghost ps = store.spec_page_size();
    let ghost sv = bound_view(start);
    let ghost ev = bound_view(end);
    let ghost out0 = entries_view(out@);
    let ghost r0 = store.reads();
    let node = match decode_node(store, node_id) {
        Ok(n) => n,
        Err(e) => {
            proof {
                let rs = log_since(r0, store.reads());
                assert(rs.drop_last() =~= Seq::<NodeRead>::empty());
            }
            return Err(e);
        },
    };
    let ghost r1 = store.reads();
    assert(reads_ok(log_since(r0, r1)));
    match node {
        Node::Leaf(entries) => {
            let ghost es = leaf_view(entries@);
            let n = entries.len();
            let mut i: usize = 0;
            assert(es.take(0) =~= Seq::<Entry>::empty());
            assert(es.take(n as int) =~= es);
            assert(out0 + range_of(Seq::<Entry>::empty(), sv, ev) =~= out0);
            while i < n
                invariant
                    i <= n == entries@.len() == es.len(),
                    es.take(n as int) == es,
                    es == leaf_view(entries@),
                    sorted_keys(es),
                    sv == bound_view(start),
                    ev == bound_view(end),
                    entries_view(out@) == out0 + range_of(es.take(i as int), sv, ev),
                ensures
                    entries_view(out@) == out0 + range_of(es, sv, ev),
                decreases n - i,
            {
                let key = entries[i].key.as_slice();
                proof {
                    assert(es.take(i as int + 1).drop_last() =~= es.take(i as int));
                    assert(es.take(i as int + 1).last() == es[i as int]);
                }
                if key_before_start(key, start) {
                    i += 1;
                    continue;
                }
                if key_after_end(key, end) {
                    proof {
                        let rest = es.skip(i as int);
                        assert forall|j: int| 0 <= j < rest.len() implies !in_range((#[trigger] rest[j]).0, sv, ev) by {
                            if j > 0 {
                                assert(key_lt(es[i as int].0, es[i + j].0));
                                lemma_not_before_end_mono(es[i as int].0, es[i + j].0, ev);
                            }
                        }
                        crate::tree_model::lemma_range_none(rest, sv, ev);
                        assert(es =~= es.take(i as int) + rest);
                        crate::tree_model::lemma_range_add(es.take(i as int), rest, sv, ev);
                        assert(range_of(es.take(i as int), sv, ev) + Seq::<Entry>::empty() =~= range_of(es.take(i as int), sv, ev));
                    }
                    break;
                }
                let k = vstd::slice::slice_to_vec(key);
                let v = vstd::slice::slice_to_vec(entries[i].value.as_slice());
                out.push((k, v));
                proof {
                    assert(entries_view(out@) =~= (out0 + range_of(es.take(i as int), sv, ev)).push(es[i as int]));
                }
                i += 1;
            }
            proof {
                if i == n {
                    assert(es.take(n as int) =~= es);
                }
            }
            Ok(())
        },
        Node::Internal { leftmost, entries } => {
            proof {
                assert(crate::node::internal_cells(internal_view(entries@)).len() == entries@.len());
            }
            let r = collect_children(
            store,
            leftmost,
            &entries,
            start,
            end,
            out,
            Ghost(lo),
            Ghost(hi),
            Ghost(h),
            );
            proof {
                lemma_log_chain(r0, r1, store.reads());
                if r is Err {
                    lemma_reads_fail_concat(log_since(r0, r1), log_since(r1, store.reads()), r->Err_0);
                } else {
                    lemma_reads_ok_concat(log_since(r0, r1), log_since(r1, store.reads()));
                }
            }
            r
        },
    }
}

proof fn lemma_children_step(p: Map<PageId, Seq<u8>>, specs: Seq<ChildSpec>, hc: nat, ps: nat, i: int)
    requires
        crate::tree_model::concat_subtrees(p, specs, hc, ps) is Some,
        0 <= i < specs.len(),
    ensures
        crate::tree_model::concat_subtrees(p, specs.take(i), hc, ps) is Some,
        crate::tree_model::concat_subtrees(p, specs.skip(i), hc, ps) is Some,
        subtree(p, specs[i].0, specs[i].1, specs[i].2, hc, ps) is Some,
        crate::tree_model::concat_subtrees(p, specs.take(i + 1), hc, ps) == Some(
            crate::tree_model::concat_subtrees(p, specs.take(i), hc, ps)->0 + subtree(
                p,
                specs[i].0,
                specs[i].1,
                specs[i].2,
                hc,
                ps,
            )->0,
        ),
        crate::tree_model::concat_subtrees(p, specs, hc, ps)->0 == crate::tree_model::concat_subtrees(
            p,
            specs.take(i),
            hc,
            ps,
        )->0 + crate::tree_model::concat_subtrees(p, specs.skip(i), hc, ps)->0,
{
    let sp = specs[i];
    assert(specs.take(i) + specs.skip(i) =~= specs);
    crate::tree_model::lemma_concat_add(p, specs.take(i), specs.skip(i), hc, ps);
    assert(specs.skip(i) =~= seq![sp] + specs.skip(i + 1));
    crate::tree_model::lemma_concat_add(p, seq![sp], specs.skip(i + 1), hc, ps);
    crate::tree_model::lemma_concat_single(p, sp, hc, ps);
    crate::tree_model::lemma_concat_add(p, specs.take(i), seq![sp], hc, ps);
    assert(specs.take(i) + seq![sp] =~= specs.take(i + 1));
}

/// A child all of whose keys are before `start` contributes nothing.
proof fn lemma_child_before_start(
    p: Map<PageId, Seq<u8>>,
    sp: ChildSpec,
    hc: nat,
    ps: nat,
    upper: Seq<u8>,
    sv: Bound<Seq<u8>>,
    ev: Bound<Seq<u8>>,
)
    requires
        subtree(p, sp.0, sp.1, sp.2, hc, ps) is Some,
        sp.2 == Some(upper),
        forall|k: Seq<u8>| key_lt(k, upper) ==> !#[trigger] after_start(k, sv),
    ensures
        range_of(subtree(p, sp.0, sp.1, sp.2, hc, ps)->0, sv, ev) == Seq::<Entry>::empty(),
{
    let c = subtree(p, sp.0, sp.1, sp.2, hc, ps)->0;
    lemma_subtree_sorted(p, sp.0, sp.1, sp.2, hc, ps);
    assert forall|j: int| 0 <= j < c.len() implies !in_range((#[trigger] c[j]).0, sv, ev) by {
        assert(below(c[j].0, sp.2));
        assert(!after_start(c[j].0, sv));
    }
    crate::tree_model::lemma_range_none(c, sv, ev);
}

/// Children from `i` on, all of whose keys are after `end`, contribute
/// nothing.
proof fn lemma_rest_after_end(
    p: Map<PageId, Seq<u8>>,
    specs: Seq<ChildSpec>,
    hc: nat,
    ps: nat,
    i: int,
    lower: Seq<u8>,
    sv: Bound<Seq<u8>>,
    ev: Bound<Seq<u8>>,
)
    requires
        crate::tree_model::chain_ok(specs),
        0 <= i < specs.len(),
        crate::tree_model::concat_subtrees(p, specs.skip(i), hc, ps) is Some,
        specs[i].1 == Some(lower),
        forall|k: Seq<u8>| key_le(lower, k) ==> !#[trigger] before_end(k, ev),
    ensures
        range_of(crate::tree_model::concat_subtrees(p, specs.skip(i), hc, ps)->0, sv, ev) == Seq::<Entry>::empty(),
{
    let rest_s = specs.skip(i);
    let rest = crate::tree_model::concat_subtrees(p, rest_s, hc, ps)->0;
    assert(rest_s =~= specs.subrange(i, specs.len() as int));
    crate::tree_model::lemma_chain_sub(specs, i, specs.len() as int);
    crate::tree_model::lemma_concat_sorted(p, rest_s, hc, ps);
    assert forall|j: int| 0 <= j < rest.len() implies !in_range((#[trigger] rest[j]).0, sv, ev) by {
        assert(above(rest[j].0, rest_s[0].1));
        assert(!before_end(rest[j].0, ev));
    }
    crate::tree_model::lemma_range_none(rest, sv, ev);
}

fn collect_children<S: NodeStore>(
    store: &mut S,
    leftmost: PageId,
    entries: &Vec<InternalEntry>,
    start: Bound<&[u8]>,
    end: Bound<&[u8]>,
    out: &mut Vec<(Vec<u8>, Vec<u8>)>,
    Ghost(lo): Ghost<Option<Seq<u8>>>,
    Ghost(hi): Ghost<Option<Seq<u8>>>,
    Ghost(h): Ghost<nat>,
) -> (r: Result<(), BTreeError>)
    requires
        h >= 1,
        separators_sorted(internal_view(entries@)),
        separators_within(internal_view(entries@), lo, hi),
        bound_lt(lo, hi),
        entries@.len() <= 0xFFFF,
        crate::tree_model::concat_subtrees(
            old(store).pages(),
            child_specs(leftmost, internal_view(entries@), lo, hi),
            (h - 1) as nat,
            old(store).spec_page_size(),
        ) is Some,
    ensures
        final(store).pages() == old(store).pages(),
        final(store).writes() == old(store).writes(),
        final(store).spec_page_size() == old(store).spec_page_size(),
        r is Err ==> r->Err_0 is Pager,
        log_extends(old(store).reads(), final(store).reads()),
        r is Err ==> failed_by_last_read(log_since(old(store).reads(), final(store).reads()), r->Err_0),
        r is Ok ==> reads_ok(log_since(old(store).reads(), final(store).reads())),
        r is Ok ==> entries_view(final(out)@) == entries_view(old(out)@) + range_of(
            crate::tree_model::concat_subtrees(
                old(store).pages(),
                child_specs(leftmost, internal_view(entries@), lo, hi),
                (h - 1) as nat,
                old(store).spec_page_size(),
            )->0,
            bound_view(start),
            bound_view(end),
        ),
    decreases h, 0nat,
{
    let ghost p = store.pages();
    let ghost ps = store.spec_page_size();
    let ghost sv = bound_view(start);
    let ghost ev = bound_view(end);
    let ghost out0 = entries_view(out@);
    let ghost es = internal_view(entries@);
    let ghost specs = child_specs(leftmost, es, lo, hi);
    let ghost hc = (h - 1) as nat;
    let ghost all = crate::tree_model::concat_subtrees(p, specs, hc, ps)->0;
    proof {
        lemma_child_specs_chain(leftmost, es, lo, hi);
        assert(specs.take(0) =~= Seq::<ChildSpec>::empty());
        assert(specs.take(specs.len() as int) =~= specs);
        assert(out0 + range_of(Seq::<Entry>::empty(), sv, ev) =~= out0);
    }
    let ghost r0 = store.reads();
    proof {
        lemma_log_same(r0);
    }
    let n = entries.len();
    let mut i: usize = 0;
    while i <= n
        invariant
            i <= n + 1,
            n <= 0xFFFF,
            n == entries@.len() == es.len(),
            specs.len() == n + 1,
            es == internal_view(entries@),
            specs == child_specs(leftmost, es, lo, hi),
            specs.take(n + 1) == specs,
            crate::tree_model::chain_ok(specs),
            hc == h - 1,
            h >= 1,
            crate::tree_model::concat_subtrees(p, specs, hc, ps) == Some(all),
            store.pages() == p,
            store.writes() == old(store).writes(),
            r0 == old(store).reads(),
            log_extends(r0, store.reads()),
            reads_ok(log_since(r0, store.reads())),
            store.spec_page_size() == ps,
            p == old(store).pages(),
            ps == old(store).spec_page_size(),
            sv == bound_view(start),
            ev == bound_view(end),
            crate::tree_model::concat_subtrees(p, specs.take(i as int), hc, ps) is Some,
            entries_view(out@) == out0 + range_of(
                crate::tree_model::concat_subtrees(p, specs.take(i as int), hc, ps)->0,
                sv,
                ev,
            ),
        ensures
            entries_view(out@) == out0 + range_of(all, sv, ev),
        decreases n + 1 - i,
    {
        let ghost before = crate::tree_model::concat_subtrees(p, specs.take(i as int), hc, ps)->0;
        let ghost sp = specs[i as int];
        proof {
            lemma_children_step(p, specs, hc, ps, i as int);
        }
        let ghost c = subtree(p, sp.0, sp.1, sp.2, hc, ps)->0;
        let child = child_at(leftmost, entries, i);
        if i < n && range_before_start(entries[i].key.as_slice(), start) {
            proof {
                lemma_child_before_start(p, sp, hc, ps, es[i as int].0, sv, ev);
                crate::tree_model::lemma_range_add(before, c, sv, ev);
                assert(range_of(before, sv, ev) + Seq::<Entry>::empty() =~= range_of(before, sv, ev));
            }
            i += 1;
            continue;
        }
        if i > 0 && range_after_end(entries[i - 1].key.as_slice(), end) {
            proof {
                lemma_rest_after_end(p, specs, hc, ps, i as int, es[i - 1].0, sv, ev);
                crate::tree_model::lemma_range_add(before, crate::tree_model::concat_subtrees(p, specs.skip(i as int), hc, ps)->0, sv, ev);
                assert(range_of(before, sv, ev) + Seq::<Entry>::empty() =~= range_of(before, sv, ev));
            }
            break;
        }
        let ghost rb = store.reads();
        let res = collect_range(store, child, start, end, out, Ghost(sp.1), Ghost(sp.2), Ghost(hc));
        assert(store.pages() == p);
        proof {
            lemma_log_chain(r0, rb, store.reads());
            if res is Err {
                lemma_reads_fail_concat(log_since(r0, rb), log_since(rb, store.reads()), res->Err_0);
            } else {
                lemma_reads_ok_concat(log_since(r0, rb), log_since(rb, store.reads()));
            }
        }
        if let Err(e) = res {
            return Err(e);
        }
        proof {
            crate::tree_model::lemma_range_add(before, c, sv, ev);
            assert(out0 + range_of(before, sv, ev) + range_of(c, sv, ev) =~= out0 + (range_of(before, sv, ev) + range_of(c, sv, ev)));
        }
        i += 1;
    }
    Ok(())
}

proof fn lemma_not_before_end_mono(a: Seq<u8>, b: Seq<u8>, end: Bound<Seq<u8>>)
    requires
        key_lt(a, b),
        !before_end(a, end),
    ensures
        !before_end(b, end),
{
    match end {
        Bound::Unbounded => {},
        Bound::Included(e) => {
            lemma_key_lt_total(a, e);
            crate::order::lemma_key_lt_trans(e, a, b);
            lemma_key_lt_total(b, e);
        },
        Bound::Excluded(e) => {
            lemma_key_lt_total(a, e);
            if a != e {
                crate::order::lemma_key_lt_trans(e, a, b);
            }
            lemma_key_lt_total(b, e);
        },
    }
}

impl BTree {
    /// Returns every `(key, value)` pair with a key between `start` and
    /// `end`, in ascending key order.
    pub fn range<S: NodeStore>(&self, store: &mut S, start: Bound<&[u8]>, end: Bound<&[u8]>) -> (r: Result<
        Vec<(Vec<u8>, Vec<u8>)>,
        BTreeError,
    >)
        requires
            tree_contents(old(store).pages(), self.spec_root(), old(store).spec_page_size()) is Some,
        ensures
            final(store).pages() == old(store).pages(),
            final(store).writes() == old(store).writes(),
            final(store).spec_page_size() == old(store).spec_page_size(),
            r is Err ==> r->Err_0 is Pager,
            log_extends(old(store).reads(), final(store).reads()),
            r is Err ==> failed_by_last_read(log_since(old(store).reads(), final(store).reads()), r->Err_0),
            reads_ok(log_since(old(store).reads(), final(store).reads())) ==> r is Ok,
            r is Ok ==> entries_view(r->Ok_0@) == range_of(
                tree_contents(old(store).pages(), self.spec_root(), old(store).spec_page_size())->0,
                bound_view(start),
                bound_view(end),
            ),
    {
        let ghost ps = store.spec_page_size();
        let ghost h = choose|h: nat| #[trigger] subtree(store.pages(), self.root, None, None, h, ps) is Some;
        proof {
            lemma_tree_contents(store.pages(), self.root, h, ps);
        }
        let mut out: Vec<(Vec<u8>, Vec<u8>)> = Vec::new();
        assert(entries_view(out@) =~= Seq::<Entry>::empty());
        match collect_range(store, self.root, start, end, &mut out, Ghost(None), Ghost(None), Ghost(h)) {
            Ok(()) => {
                assert(Seq::<Entry>::empty() + range_of(
                    subtree(store.pages(), self.root, None, None, h, ps)->0,
                    bound_view(start),
                    bound_view(end),
                ) =~= entries_view(out@));
                Ok(out)
            },
            Err(e) => {
                proof {
                    let rs = log_since(old(store).reads(), store.reads());
                    assert(rs[rs.len() - 1].1 is Err);
                }
                Err(e)
            },
        }
    }

    /// All entries in ascending key order.
    pub fn scan_all<S: NodeStore>(&self, store: &mut S) -> (r: Result<Vec<(Vec<u8>, Vec<u8>)>, BTreeError>)
        requires
            tree_contents(old(store).pages(), self.spec_root(), old(store).spec_page_size()) is Some,
        ensures
            final(store).pages() == old(store).pages(),
            final(store).writes() == old(store).writes(),
            final(store).spec_page_size() == old(store).spec_page_size(),
            r is Err ==> r->Err_0 is Pager,
            log_extends(old(store).reads(), final(store).reads()),
            r is Err ==> failed_by_last_read(log_since(old(store).reads(), final(store).reads()), r->Err_0),
            reads_ok(log_since(old(store).reads(), final(store).reads())) ==> r is Ok,
            r is Ok ==> entries_view(r->Ok_0@) == tree_contents(
                old(store).pages(),
                self.spec_root(),
                old(store).spec_page_size(),
            )->0,
    {
        proof {
            crate::tree_model::lemma_range_all(tree_contents(store.pages(), self.root, store.spec_page_size())->0);
        }
        self.range(store, Bound::Unbounded, Bound::Unbounded)
    }
}

} // verus!
