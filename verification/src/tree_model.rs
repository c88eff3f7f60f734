//! What a B+-tree stored in pages means: the ordered sequence of key/value
//! entries reachable from a root, and the sequence operations that lookup,
//! insert, delete and range scans are specified by.

use crate::node::{internal_fits, leaf_fits, parse_node, NodeView};
use crate::order::{key_le, key_lt, lemma_key_lt_le_trans, lemma_key_lt_trans, lemma_key_le_lt_trans, lemma_key_lt_total, lemma_key_lt_irreflexive};
use crate::pager::PageId;
use vstd::prelude::*;

verus! {

pub type Entry = (Seq<u8>, Seq<u8>);

/// A child of an internal node with the key interval `[lo, hi)` it covers
/// (`None` meaning unbounded).
pub type ChildSpec = (PageId, Option<Seq<u8>>, Option<Seq<u8>>);

pub open spec fn above(k: Seq<u8>, lo: Option<Seq<u8>>) -> bool {
    match lo {
        None => true,
        Some(l) => key_le(l, k),
    }
}

pub open spec fn strictly_above(k: Seq<u8>, lo: Option<Seq<u8>>) -> bool {
    match lo {
        None => true,
        Some(l) => key_lt(l, k),
    }
}

pub open spec fn below(k: Seq<u8>, hi: Option<Seq<u8>>) -> bool {
    match hi {
        None => true,
        Some(h) => key_lt(k, h),
    }
}

pub open spec fn bound_lt(lo: Option<Seq<u8>>, hi: Option<Seq<u8>>) -> bool {
    match (lo, hi) {
        (Some(a), Some(b)) => key_lt(a, b),
        _ => true,
    }
}

/// Keys strictly ascending.
pub open spec fn sorted_keys(es: Seq<Entry>) -> bool {
    forall|i: int, j: int| 0 <= i < j < es.len() ==> key_lt(#[trigger] es[i].0, #[trigger] es[j].0)
}

pub open spec fn in_bounds(es: Seq<Entry>, lo: Option<Seq<u8>>, hi: Option<Seq<u8>>) -> bool {
    forall|i: int| 0 <= i < es.len() ==> above(#[trigger] es[i].0, lo) && below(es[i].0, hi)
}

pub open spec fn separators_sorted(es: Seq<(Seq<u8>, PageId)>) -> bool {
    forall|i: int, j: int| 0 <= i < j < es.len() ==> key_lt(#[trigger] es[i].0, #[trigger] es[j].0)
}

pub open spec fn separators_within(
    es: Seq<(Seq<u8>, PageId)>,
    lo: Option<Seq<u8>>,
    hi: Option<Seq<u8>>,
) -> bool {
    forall|i: int| 0 <= i < es.len() ==> strictly_above(#[trigger] es[i].0, lo) && below(es[i].0, hi)
}

/// The children of an internal node, each with the interval it covers:
/// child 0 is `leftmost`, child `c >= 1` is `es[c - 1].1`.
pub open spec fn child_specs(
    leftmost: PageId,
    es: Seq<(Seq<u8>, PageId)>,
    lo: Option<Seq<u8>>,
    hi: Option<Seq<u8>>,
) -> Seq<ChildSpec> {
    Seq::new(
        es.len() + 1,
        |c: int|
            (
                if c == 0 {
                    leftmost
                } else {
                    es[c - 1].1
                },
                if c == 0 {
                    lo
                } else {
                    Some(es[c - 1].0)
                },
                if c == es.len() {
                    hi
                } else {
                    Some(es[c].0)
                },
            ),
    )
}

/// The entries of the subtree at page `id`, whose keys must lie in
/// `[lo, hi)`, at most `h` internal levels deep; `None` if the pages do not
/// form such a tree.
pub open spec fn subtree(
    pages: Map<PageId, Seq<u8>>,
    id: PageId,
    lo: Option<Seq<u8>>,
    hi: Option<Seq<u8>>,
    h: nat,
    page_size: nat,
) -> Option<Seq<Entry>>
    decreases h, 0nat,
{
    if !pages.contains_key(id) {
        None
    } else {
        match parse_node(pages[id]) {
            Some(NodeView::Leaf(es)) => {
                if sorted_keys(es) && in_bounds(es, lo, hi) && leaf_fits(es, page_size) {
                    Some(es)
                } else {
                    None
                }
            },
            Some(NodeView::Internal(leftmost, es)) => {
                if h > 0 && separators_sorted(es) && separators_within(es, lo, hi) && bound_lt(lo, hi)
                    && internal_fits(es, page_size) {
                    concat_subtrees(pages, child_specs(leftmost, es, lo, hi), (h - 1) as nat, page_size)
                } else {
                    None
                }
            },
            None => None,
        }
    }
}

/// The entries of the given subtrees, in order.
pub open spec fn concat_subtrees(
    pages: Map<PageId, Seq<u8>>,
    specs: Seq<ChildSpec>,
    h: nat,
    page_size: nat,
) -> Option<Seq<Entry>>
    decreases h, specs.len(),
{
    if specs.len() == 0 {
        Some(Seq::empty())
    } else {
        match (
            concat_subtrees(pages, specs.drop_last(), h, page_size),
            subtree(pages, specs.last().0, specs.last().1, specs.last().2, h, page_size),
        ) {
            (Some(a), Some(b)) => Some(a + b),
            _ => None,
        }
    }
}

/// The entries of the tree rooted at `root`, in key order, or `None` if the
/// pages do not hold a well-formed tree there.
pub open spec fn tree_contents(pages: Map<PageId, Seq<u8>>, root: PageId, page_size: nat) -> Option<
    Seq<Entry>,
> {
    if exists|h: nat| #[trigger] subtree(pages, root, None, None, h, page_size) is Some {
        subtree(
            pages,
            root,
            None,
            None,
            choose|h: nat| #[trigger] subtree(pages, root, None, None, h, page_size) is Some,
            page_size,
        )
    } else {
        None
    }
}

// ----- frame: adding pages never changes a well-formed subtree -----
pub proof fn lemma_subtree_frame(
    p1: Map<PageId, Seq<u8>>,
    p2: Map<PageId, Seq<u8>>,
    id: PageId,
    lo: Option<Seq<u8>>,
    hi: Option<Seq<u8>>,
    h: nat,
    ps: nat,
)
    requires
        p1.submap_of(p2),
        subtree(p1, id, lo, hi, h, ps) is Some,
    ensures
        subtree(p2, id, lo, hi, h, ps) == subtree(p1, id, lo, hi, h, ps),
    decreases h, 0nat,
{
    assert(p2[id] == p1[id]);
    match parse_node(p1[id]) {
        Some(NodeView::Internal(leftmost, es)) => {
            lemma_concat_frame(p1, p2, child_specs(leftmost, es, lo, hi), (h - 1) as nat, ps);
        },
        _ => {},
    }
}

pub proof fn lemma_concat_frame(
    p1: Map<PageId, Seq<u8>>,
    p2: Map<PageId, Seq<u8>>,
    specs: Seq<ChildSpec>,
    h: nat,
    ps: nat,
)
    requires
        p1.submap_of(p2),
        concat_subtrees(p1, specs, h, ps) is Some,
    ensures
        concat_subtrees(p2, specs, h, ps) == concat_subtrees(p1, specs, h, ps),
    decreases h, specs.len(),
{
    if specs.len() > 0 {
        lemma_concat_frame(p1, p2, specs.drop_last(), h, ps);
        lemma_subtree_frame(p1, p2, specs.last().0, specs.last().1, specs.last().2, h, ps);
    }
}

// ----- more depth allowance never changes a well-formed subtree -----
pub proof fn lemma_subtree_fuel(
    p: Map<PageId, Seq<u8>>,
    id: PageId,
    lo: Option<Seq<u8>>,
    hi: Option<Seq<u8>>,
    h: nat,
    ps: nat,
)
    requires
        subtree(p, id, lo, hi, h, ps) is Some,
    ensures
        subtree(p, id, lo, hi, h + 1, ps) == subtree(p, id, lo, hi, h, ps),
    decreases h, 0nat,
{
    match parse_node(p[id]) {
        Some(NodeView::Internal(leftmost, es)) => {
            lemma_concat_fuel(p, child_specs(leftmost, es, lo, hi), (h - 1) as nat, ps);
        },
        _ => {},
    }
}

pub proof fn lemma_concat_fuel(p: Map<PageId, Seq<u8>>, specs: Seq<ChildSpec>, h: nat, ps: nat)
    requires
        concat_subtrees(p, specs, h, ps) is Some,
    ensures
        concat_subtrees(p, specs, h + 1, ps) == concat_subtrees(p, specs, h, ps),
    decreases h, specs.len(),
{
    if specs.len() > 0 {
        lemma_concat_fuel(p, specs.drop_last(), h, ps);
        lemma_subtree_fuel(p, specs.last().0, specs.last().1, specs.last().2, h, ps);
    }
}

pub proof fn lemma_subtree_fuel_le(
    p: Map<PageId, Seq<u8>>,
    id: PageId,
    lo: Option<Seq<u8>>,
    hi: Option<Seq<u8>>,
    h: nat,
    h2: nat,
    ps: nat,
)
    requires
        subtree(p, id, lo, hi, h, ps) is Some,
        h <= h2,
    ensures
        subtree(p, id, lo, hi, h2, ps) == subtree(p, id, lo, hi, h, ps),
    decreases h2 - h,
{
    if h < h2 {
        lemma_subtree_fuel_le(p, id, lo, hi, h, (h2 - 1) as nat, ps);
        lemma_subtree_fuel(p, id, lo, hi, (h2 - 1) as nat, ps);
    }
}

/// A root that is well-formed at some depth allowance has that subtree as
/// its contents.
pub proof fn lemma_tree_contents(p: Map<PageId, Seq<u8>>, root: PageId, h: nat, ps: nat)
    requires
        subtree(p, root, None, None, h, ps) is Some,
    ensures
        tree_contents(p, root, ps) == subtree(p, root, None, None, h, ps),
{
    let h2 = choose|h: nat| #[trigger] subtree(p, root, None, None, h, ps) is Some;
    if h <= h2 {
        lemma_subtree_fuel_le(p, root, None, None, h, h2, ps);
    } else {
        lemma_subtree_fuel_le(p, root, None, None, h2, h, ps);
    }
}

/// Adding pages never changes the contents of a well-formed tree: a root
/// taken before copy-on-write mutations still reads the same afterwards.
pub proof fn lemma_tree_contents_frame(
    p1: Map<PageId, Seq<u8>>,
    p2: Map<PageId, Seq<u8>>,
    root: PageId,
    ps: nat,
)
    requires
        p1.submap_of(p2),
        tree_contents(p1, root, ps) is Some,
    ensures
        tree_contents(p2, root, ps) == tree_contents(p1, root, ps),
{
    let h = choose|h: nat| #[trigger] subtree(p1, root, None, None, h, ps) is Some;
    lemma_subtree_frame(p1, p2, root, None, None, h, ps);
    lemma_tree_contents(p2, root, h, ps);
}

// ----- well-formed trees are sorted -----
pub open spec fn linked(specs: Seq<ChildSpec>, c: int) -> bool {
    specs[c].2 is Some && specs[c].2 == specs[c + 1].1
}

/// Consecutive children share their boundary key, and every interval is
/// non-empty in order.
pub open spec fn chain_ok(specs: Seq<ChildSpec>) -> bool {
    &&& forall|c: int| 0 <= c < specs.len() - 1 ==> #[trigger] linked(specs, c)
    &&& forall|c: int| 0 <= c < specs.len() ==> bound_lt(#[trigger] specs[c].1, specs[c].2)
}

pub proof fn lemma_child_specs_chain(
    leftmost: PageId,
    es: Seq<(Seq<u8>, PageId)>,
    lo: Option<Seq<u8>>,
    hi: Option<Seq<u8>>,
)
    requires
        separators_sorted(es),
        separators_within(es, lo, hi),
        bound_lt(lo, hi),
    ensures
        chain_ok(child_specs(leftmost, es, lo, hi)),
        child_specs(leftmost, es, lo, hi)[0].1 == lo,
        child_specs(leftmost, es, lo, hi).last().2 == hi,
        child_specs(leftmost, es, lo, hi).len() == es.len() + 1,
{
    let specs = child_specs(leftmost, es, lo, hi);
    assert forall|c: int| 0 <= c < specs.len() - 1 implies #[trigger] linked(specs, c) by {}
    assert forall|c: int| 0 <= c < specs.len() implies bound_lt(#[trigger] specs[c].1, specs[c].2) by {
        if 0 < c < es.len() {
            assert(key_lt(es[c - 1].0, es[c].0));
        }
    }
}

pub proof fn lemma_subtree_sorted(
    p: Map<PageId, Seq<u8>>,
    id: PageId,
    lo: Option<Seq<u8>>,
    hi: Option<Seq<u8>>,
    h: nat,
    ps: nat,
)
    requires
        subtree(p, id, lo, hi, h, ps) is Some,
    ensures
        sorted_keys(subtree(p, id, lo, hi, h, ps)->0),
        in_bounds(subtree(p, id, lo, hi, h, ps)->0, lo, hi),
    decreases h, 0nat,
{
    match parse_node(p[id]) {
        Some(NodeView::Internal(leftmost, es)) => {
            let specs = child_specs(leftmost, es, lo, hi);
            lemma_child_specs_chain(leftmost, es, lo, hi);
            lemma_concat_sorted(p, specs, (h - 1) as nat, ps);
        },
        _ => {},
    }
}

pub proof fn lemma_concat_sorted(p: Map<PageId, Seq<u8>>, specs: Seq<ChildSpec>, h: nat, ps: nat)
    requires
        concat_subtrees(p, specs, h, ps) is Some,
        chain_ok(specs),
        specs.len() >= 1,
    ensures
        sorted_keys(concat_subtrees(p, specs, h, ps)->0),
        in_bounds(concat_subtrees(p, specs, h, ps)->0, specs[0].1, specs.last().2),
        bound_lt(specs[0].1, specs.last().2),
    decreases h, specs.len(),
{
    let n = specs.len();
    let last = specs.last();
    lemma_subtree_sorted(p, last.0, last.1, last.2, h, ps);
    let y = subtree(p, last.0, last.1, last.2, h, ps)->0;
    assert(bound_lt(specs[n - 1].1, specs[n - 1].2));
    if n == 1 {
        assert(concat_subtrees(p, specs.drop_last(), h, ps) == Some(Seq::<Entry>::empty()));
        assert(Seq::<Entry>::empty() + y =~= y);
    } else {
        let init = specs.drop_last();
        assert(chain_ok(init)) by {
            assert forall|c: int| 0 <= c < init.len() - 1 implies #[trigger] linked(init, c) by {
                assert(linked(specs, c));
            }
            assert forall|c: int| 0 <= c < init.len() implies bound_lt(#[trigger] init[c].1, init[c].2) by {
                assert(bound_lt(specs[c].1, specs[c].2));
            }
        }
        lemma_concat_sorted(p, init, h, ps);
        let x = concat_subtrees(p, init, h, ps)->0;
        let es = x + y;
        assert(linked(specs, n - 2));
        let s = specs[n - 2].2->0;
        assert(init.last().2 == Some(s));
        assert(last.1 == Some(s));
        let first_lo = specs[0].1;
        let last_hi = last.2;
        // the whole chain's interval is ordered
        assert(bound_lt(first_lo, last_hi)) by {
            if first_lo is Some && last_hi is Some {
                lemma_key_lt_trans(first_lo->0, s, last_hi->0);
            }
        }
        assert forall|i: int| 0 <= i < x.len() implies #[trigger] key_lt(x[i].0, s) by {
            assert(below(x[i].0, init.last().2));
        }
        assert forall|j: int| 0 <= j < y.len() implies #[trigger] key_le(s, y[j].0) by {
            assert(above(y[j].0, last.1));
        }
        assert(sorted_keys(es)) by {
            assert forall|i: int, j: int| 0 <= i < j < es.len() implies key_lt(
                #[trigger] es[i].0,
                #[trigger] es[j].0,
            ) by {
                if j < x.len() {
                    assert(es[i] == x[i] && es[j] == x[j]);
                } else if i >= x.len() {
                    assert(es[i] == y[i - x.len()] && es[j] == y[j - x.len()]);
                } else {
                    assert(es[i] == x[i] && es[j] == y[j - x.len()]);
                    assert(key_lt(x[i].0, s));
                    assert(key_le(s, y[j - x.len()].0));
                    lemma_key_lt_le_trans(x[i].0, s, y[j - x.len()].0);
                }
            }
        }
        assert(in_bounds(es, first_lo, last_hi)) by {
            assert forall|i: int| 0 <= i < es.len() implies above(#[trigger] es[i].0, first_lo) && below(
                es[i].0,
                last_hi,
            ) by {
                if i < x.len() {
                    assert(es[i] == x[i]);
                    assert(key_lt(x[i].0, s));
                    if last_hi is Some {
                        assert(bound_lt(last.1, last.2));
                        lemma_key_lt_trans(x[i].0, s, last_hi->0);
                    }
                } else {
                    let yj = y[i - x.len()];
                    assert(es[i] == yj);
                    assert(key_le(s, yj.0));
                    if first_lo is Some {
                        assert(bound_lt(init[0].1, init.last().2));
                        lemma_key_lt_le_trans(first_lo->0, s, yj.0);
                    }
                }
            }
        }
    }
}

// ----- the sequence operations the tree implements -----
/// The value stored under `k`, if any.
pub open spec fn find(es: Seq<Entry>, k: Seq<u8>) -> Option<Seq<u8>>
    decreases es.len(),
{
    if es.len() == 0 {
        None
    } else if es[0].0 == k {
        Some(es[0].1)
    } else {
        find(es.drop_first(), k)
    }
}

/// `es` with `k` mapped to `v`: the value replaced if `k` is present, else
/// the pair inserted before the first greater key.
pub open spec fn insert_entry(es: Seq<Entry>, k: Seq<u8>, v: Seq<u8>) -> Seq<Entry>
    decreases es.len(),
{
    if es.len() == 0 {
        seq![(k, v)]
    } else if es[0].0 == k {
        seq![(k, v)] + es.drop_first()
    } else if key_lt(k, es[0].0) {
        seq![(k, v)] + es
    } else {
        seq![es[0]] + insert_entry(es.drop_first(), k, v)
    }
}

/// `es` without the entry for `k`.
pub open spec fn remove_entry(es: Seq<Entry>, k: Seq<u8>) -> Seq<Entry>
    decreases es.len(),
{
    if es.len() == 0 {
        es
    } else if es[0].0 == k {
        es.drop_first()
    } else {
        seq![es[0]] + remove_entry(es.drop_first(), k)
    }
}

pub open spec fn no_key(es: Seq<Entry>, k: Seq<u8>) -> bool {
    forall|i: int| 0 <= i < es.len() ==> (#[trigger] es[i]).0 != k
}

pub open spec fn all_below(es: Seq<Entry>, k: Seq<u8>) -> bool {
    forall|i: int| 0 <= i < es.len() ==> key_lt((#[trigger] es[i]).0, k)
}

pub open spec fn all_above(es: Seq<Entry>, k: Seq<u8>) -> bool {
    forall|i: int| 0 <= i < es.len() ==> key_lt(k, (#[trigger] es[i]).0)
}

proof fn lemma_drop_first_add(a: Seq<Entry>, b: Seq<Entry>)
    requires
        a.len() > 0,
    ensures
        (a + b).drop_first() == a.drop_first() + b,
        (a + b)[0] == a[0],
{
    assert((a + b).drop_first() =~= a.drop_first() + b);
}

pub proof fn lemma_find_skip_prefix(a: Seq<Entry>, b: Seq<Entry>, k: Seq<u8>)
    requires
        no_key(a, k),
    ensures
        find(a + b, k) == find(b, k),
    decreases a.len(),
{
    if a.len() == 0 {
        assert(a + b =~= b);
    } else {
        lemma_drop_first_add(a, b);
        assert(a[0].0 != k);
        lemma_find_skip_prefix(a.drop_first(), b, k);
    }
}

pub proof fn lemma_find_skip_suffix(a: Seq<Entry>, b: Seq<Entry>, k: Seq<u8>)
    requires
        no_key(b, k),
    ensures
        find(a + b, k) == find(a, k),
    decreases a.len(),
{
    if a.len() == 0 {
        assert(a + b =~= b);
        lemma_find_absent(b, k);
    } else {
        lemma_drop_first_add(a, b);
        lemma_find_skip_suffix(a.drop_first(), b, k);
    }
}

pub proof fn lemma_find_absent(es: Seq<Entry>, k: Seq<u8>)
    requires
        no_key(es, k),
    ensures
        find(es, k) is None,
    decreases es.len(),
{
    if es.len() > 0 {
        assert(es[0].0 != k);
        lemma_find_absent(es.drop_first(), k);
    }
}

/// In a sorted sequence the entry found by key is the one at its index.
pub proof fn lemma_find_at(es: Seq<Entry>, i: int)
    requires
        sorted_keys(es),
        0 <= i < es.len(),
    ensures
        find(es, es[i].0) == Some(es[i].1),
{
    let k = es[i].0;
    let a = es.take(i);
    let b = es.skip(i);
    assert(es =~= a + b);
    assert forall|j: int| 0 <= j < a.len() implies (#[trigger] a[j]).0 != k by {
        assert(key_lt(es[j].0, es[i].0));
        lemma_key_lt_total(es[j].0, es[i].0);
    }
    lemma_find_skip_prefix(a, b, k);
}

pub proof fn lemma_below_no_key(es: Seq<Entry>, k: Seq<u8>)
    requires
        all_below(es, k),
    ensures
        no_key(es, k),
{
    assert forall|i: int| 0 <= i < es.len() implies (#[trigger] es[i]).0 != k by {
        lemma_key_lt_total(es[i].0, k);
    }
}

pub proof fn lemma_above_no_key(es: Seq<Entry>, k: Seq<u8>)
    requires
        all_above(es, k),
    ensures
        no_key(es, k),
{
    assert forall|i: int| 0 <= i < es.len() implies (#[trigger] es[i]).0 != k by {
        lemma_key_lt_total(k, es[i].0);
    }
}

pub proof fn lemma_insert_prefix(a: Seq<Entry>, b: Seq<Entry>, k: Seq<u8>, v: Seq<u8>)
    requires
        all_below(a, k),
    ensures
        insert_entry(a + b, k, v) == a + insert_entry(b, k, v),
    decreases a.len(),
{
    if a.len() == 0 {
        assert(a + b =~= b);
        assert(a + insert_entry(b, k, v) =~= insert_entry(b, k, v));
    } else {
        lemma_drop_first_add(a, b);
        assert(key_lt(a[0].0, k));
        lemma_key_lt_total(a[0].0, k);
        lemma_insert_prefix(a.drop_first(), b, k, v);
        assert(seq![a[0]] + (a.drop_first() + insert_entry(b, k, v)) =~= a + insert_entry(b, k, v));
    }
}

pub proof fn lemma_insert_suffix(a: Seq<Entry>, b: Seq<Entry>, k: Seq<u8>, v: Seq<u8>)
    requires
        all_above(b, k),
    ensures
        insert_entry(a + b, k, v) == insert_entry(a, k, v) + b,
    decreases a.len(),
{
    if a.len() == 0 {
        assert(a + b =~= b);
        if b.len() > 0 {
            assert(key_lt(k, b[0].0));
            lemma_key_lt_total(k, b[0].0);
        } else {
            assert(seq![(k, v)] + b =~= seq![(k, v)]);
        }
    } else {
        lemma_drop_first_add(a, b);
        lemma_insert_suffix(a.drop_first(), b, k, v);
        if a[0].0 == k {
            assert(seq![(k, v)] + (a.drop_first() + b) =~= seq![(k, v)] + a.drop_first() + b);
        } else if key_lt(k, a[0].0) {
            assert(seq![(k, v)] + (a + b) =~= seq![(k, v)] + a + b);
        } else {
            assert(seq![a[0]] + (insert_entry(a.drop_first(), k, v) + b) =~= seq![a[0]]
                + insert_entry(a.drop_first(), k, v) + b);
        }
    }
}

pub proof fn lemma_remove_prefix(a: Seq<Entry>, b: Seq<Entry>, k: Seq<u8>)
    requires
        no_key(a, k),
    ensures
        remove_entry(a + b, k) == a + remove_entry(b, k),
    decreases a.len(),
{
    if a.len() == 0 {
        assert(a + b =~= b);
        assert(a + remove_entry(b, k) =~= remove_entry(b, k));
    } else {
        lemma_drop_first_add(a, b);
        assert(a[0].0 != k);
        lemma_remove_prefix(a.drop_first(), b, k);
        assert(seq![a[0]] + (a.drop_first() + remove_entry(b, k)) =~= a + remove_entry(b, k));
    }
}

pub proof fn lemma_remove_absent(es: Seq<Entry>, k: Seq<u8>)
    requires
        no_key(es, k),
    ensures
        remove_entry(es, k) == es,
    decreases es.len(),
{
    if es.len() > 0 {
        assert(es[0].0 != k);
        lemma_remove_absent(es.drop_first(), k);
        assert(seq![es[0]] + es.drop_first() =~= es);
    }
}

pub proof fn lemma_remove_suffix(a: Seq<Entry>, b: Seq<Entry>, k: Seq<u8>)
    requires
        no_key(b, k),
    ensures
        remove_entry(a + b, k) == remove_entry(a, k) + b,
    decreases a.len(),
{
    if a.len() == 0 {
        assert(a + b =~= b);
        lemma_remove_absent(b, k);
        assert(remove_entry(a, k) + b =~= b);
    } else {
        lemma_drop_first_add(a, b);
        lemma_remove_suffix(a.drop_first(), b, k);
        if a[0].0 == k {
        } else {
            assert(seq![a[0]] + (remove_entry(a.drop_first(), k) + b) =~= seq![a[0]]
                + remove_entry(a.drop_first(), k) + b);
        }
    }
}

/// Insertion into a sorted sequence at the first index whose key is not
/// below `k`.
pub proof fn lemma_insert_at(es: Seq<Entry>, i: int, k: Seq<u8>, v: Seq<u8>)
    requires
        sorted_keys(es),
        0 <= i <= es.len(),
        forall|j: int| 0 <= j < i ==> key_lt((#[trigger] es[j]).0, k),
        i < es.len() ==> key_le(k, es[i].0),
    ensures
        i < es.len() && es[i].0 == k ==> insert_entry(es, k, v) == es.update(i, (k, v)),
        !(i < es.len() && es[i].0 == k) ==> insert_entry(es, k, v) == es.insert(i, (k, v)),
        sorted_keys(insert_entry(es, k, v)),
{
    let a = es.take(i);
    let b = es.skip(i);
    assert(es =~= a + b);
    assert(all_below(a, k));
    lemma_insert_prefix(a, b, k, v);
    if i < es.len() && es[i].0 == k {
        assert(b[0].0 == k);
        assert(insert_entry(b, k, v) == seq![(k, v)] + b.drop_first());
        assert(a + (seq![(k, v)] + b.drop_first()) =~= es.update(i, (k, v)));
    } else {
        if i < es.len() {
            assert(key_lt(k, b[0].0));
            assert(insert_entry(b, k, v) == seq![(k, v)] + b);
        } else {
            assert(b.len() == 0);
        }
        assert(a + insert_entry(b, k, v) =~= es.insert(i, (k, v)));
    }
    let r = insert_entry(es, k, v);
    assert(sorted_keys(r)) by {
        assert forall|x: int, y: int| 0 <= x < y < r.len() implies key_lt(
            #[trigger] r[x].0,
            #[trigger] r[y].0,
        ) by {
            if i < es.len() && es[i].0 == k {
                assert(key_lt(es[x].0, es[y].0));
            } else {
                if y < i {
                    assert(key_lt(es[x].0, es[y].0));
                } else if y == i {
                    assert(key_lt(es[x].0, k));
                } else if x == i {
                    assert(key_le(k, es[i].0));
                    if y - 1 > i {
                        assert(key_lt(es[i].0, es[y - 1].0));
                        lemma_key_le_lt_trans(k, es[i].0, es[y - 1].0);
                    } else {
                        lemma_key_lt_total(k, es[i].0);
                    }
                } else if x < i {
                    assert(key_lt(es[x].0, es[y - 1].0));
                } else {
                    assert(key_lt(es[x - 1].0, es[y - 1].0));
                }
            }
        }
    }
}

/// Removing the entry at `i`, where `es[i]` holds the key.
pub proof fn lemma_remove_at(es: Seq<Entry>, i: int)
    requires
        sorted_keys(es),
        0 <= i < es.len(),
    ensures
        remove_entry(es, es[i].0) == es.remove(i),
{
    let k = es[i].0;
    let a = es.take(i);
    let b = es.skip(i);
    assert(es =~= a + b);
    assert forall|j: int| 0 <= j < a.len() implies (#[trigger] a[j]).0 != k by {
        assert(key_lt(es[j].0, es[i].0));
        lemma_key_lt_total(es[j].0, es[i].0);
    }
    lemma_remove_prefix(a, b, k);
    assert(a + b.drop_first() =~= es.remove(i));
}

/// In a sorted sequence, a key below every key at or after `i` and above
/// every key before `i` is absent.
pub proof fn lemma_absent_between(es: Seq<Entry>, i: int, k: Seq<u8>)
    requires
        0 <= i <= es.len(),
        forall|j: int| 0 <= j < i ==> key_lt((#[trigger] es[j]).0, k),
        forall|j: int| i <= j < es.len() ==> key_lt(k, (#[trigger] es[j]).0),
    ensures
        no_key(es, k),
{
    assert forall|j: int| 0 <= j < es.len() implies (#[trigger] es[j]).0 != k by {
        if j < i {
            lemma_key_lt_total(es[j].0, k);
        } else {
            lemma_key_lt_total(k, es[j].0);
        }
    }
}

// ----- splitting and joining the children of a node -----
pub open spec fn join(a: Option<Seq<Entry>>, b: Option<Seq<Entry>>) -> Option<Seq<Entry>> {
    match (a, b) {
        (Some(x), Some(y)) => Some(x + y),
        _ => None,
    }
}

pub proof fn lemma_concat_add(p: Map<PageId, Seq<u8>>, s1: Seq<ChildSpec>, s2: Seq<ChildSpec>, h: nat, ps: nat)
    ensures
        concat_subtrees(p, s1 + s2, h, ps) == join(
            concat_subtrees(p, s1, h, ps),
            concat_subtrees(p, s2, h, ps),
        ),
    decreases s2.len(),
{
    if s2.len() == 0 {
        assert(s1 + s2 =~= s1);
        if concat_subtrees(p, s1, h, ps) is Some {
            let x = concat_subtrees(p, s1, h, ps)->0;
            assert(x + Seq::<Entry>::empty() =~= x);
        }
    } else {
        assert((s1 + s2).drop_last() =~= s1 + s2.drop_last());
        assert((s1 + s2).last() == s2.last());
        lemma_concat_add(p, s1, s2.drop_last(), h, ps);
        let a = concat_subtrees(p, s1, h, ps);
        let b = concat_subtrees(p, s2.drop_last(), h, ps);
        let c = subtree(p, s2.last().0, s2.last().1, s2.last().2, h, ps);
        if a is Some && b is Some && c is Some {
            assert(a->0 + b->0 + c->0 =~= a->0 + (b->0 + c->0));
        }
    }
}

pub proof fn lemma_concat_single(p: Map<PageId, Seq<u8>>, sp: ChildSpec, h: nat, ps: nat)
    ensures
        concat_subtrees(p, seq![sp], h, ps) == subtree(p, sp.0, sp.1, sp.2, h, ps),
{
    assert(seq![sp].drop_last() =~= Seq::<ChildSpec>::empty());
    assert(seq![sp].last() == sp);
    assert(concat_subtrees(p, Seq::<ChildSpec>::empty(), h, ps) == Some(Seq::<Entry>::empty()));
    if subtree(p, sp.0, sp.1, sp.2, h, ps) is Some {
        let y = subtree(p, sp.0, sp.1, sp.2, h, ps)->0;
        assert(Seq::<Entry>::empty() + y =~= y);
    }
}

pub proof fn lemma_chain_sub(specs: Seq<ChildSpec>, from: int, to: int)
    requires
        chain_ok(specs),
        0 <= from <= to <= specs.len(),
    ensures
        chain_ok(specs.subrange(from, to)),
{
    let sub = specs.subrange(from, to);
    assert forall|c: int| 0 <= c < sub.len() - 1 implies #[trigger] linked(sub, c) by {
        assert(linked(specs, from + c));
    }
    assert forall|c: int| 0 <= c < sub.len() implies bound_lt(#[trigger] sub[c].1, sub[c].2) by {
        assert(bound_lt(specs[from + c].1, specs[from + c].2));
    }
}

/// The entries of a node's children, seen as those before child `idx`, the
/// child itself and those after it; a key inside the child's interval is
/// above everything before and below everything after.
pub proof fn lemma_concat_pick(p: Map<PageId, Seq<u8>>, specs: Seq<ChildSpec>, h: nat, ps: nat, idx: int, k: Seq<u8>)
    requires
        chain_ok(specs),
        concat_subtrees(p, specs, h, ps) is Some,
        0 <= idx < specs.len(),
        above(k, specs[idx].1),
        below(k, specs[idx].2),
    ensures
        concat_subtrees(p, specs.take(idx), h, ps) is Some,
        subtree(p, specs[idx].0, specs[idx].1, specs[idx].2, h, ps) is Some,
        concat_subtrees(p, specs.skip(idx + 1), h, ps) is Some,
        concat_subtrees(p, specs, h, ps)->0 == concat_subtrees(p, specs.take(idx), h, ps)->0
            + subtree(p, specs[idx].0, specs[idx].1, specs[idx].2, h, ps)->0
            + concat_subtrees(p, specs.skip(idx + 1), h, ps)->0,
        all_below(concat_subtrees(p, specs.take(idx), h, ps)->0, k),
        all_above(concat_subtrees(p, specs.skip(idx + 1), h, ps)->0, k),
{
    let a_s = specs.take(idx);
    let c_s = seq![specs[idx]];
    let b_s = specs.skip(idx + 1);
    assert(specs =~= a_s + c_s + b_s);
    lemma_concat_add(p, a_s + c_s, b_s, h, ps);
    lemma_concat_add(p, a_s, c_s, h, ps);
    lemma_concat_single(p, specs[idx], h, ps);
    let a = concat_subtrees(p, a_s, h, ps)->0;
    let b = concat_subtrees(p, b_s, h, ps)->0;
    if idx > 0 {
        assert(a_s =~= specs.subrange(0, idx));
        lemma_chain_sub(specs, 0, idx);
        lemma_concat_sorted(p, a_s, h, ps);
        assert(linked(specs, idx - 1));
        let s = specs[idx].1->0;
        assert forall|i: int| 0 <= i < a.len() implies key_lt((#[trigger] a[i]).0, k) by {
            assert(below(a[i].0, a_s.last().2));
            assert(a_s.last().2 == Some(s));
            lemma_key_lt_le_trans(a[i].0, s, k);
        }
    } else {
        assert(a_s.len() == 0);
    }
    if idx + 1 < specs.len() {
        assert(b_s =~= specs.subrange(idx + 1, specs.len() as int));
        lemma_chain_sub(specs, idx + 1, specs.len() as int);
        lemma_concat_sorted(p, b_s, h, ps);
        assert(linked(specs, idx));
        let s = specs[idx].2->0;
        assert forall|i: int| 0 <= i < b.len() implies key_lt(k, (#[trigger] b[i]).0) by {
            assert(above(b[i].0, b_s[0].1));
            assert(b_s[0].1 == Some(s));
            lemma_key_lt_le_trans(k, s, b[i].0);
        }
    } else {
        assert(b_s.len() == 0);
    }
}

pub proof fn lemma_submap_trans(a: Map<PageId, Seq<u8>>, b: Map<PageId, Seq<u8>>, c: Map<PageId, Seq<u8>>)
    requires
        a.submap_of(b),
        b.submap_of(c),
    ensures
        a.submap_of(c),
{
    assert forall|k: PageId| #[trigger] a.dom().contains(k) implies c.dom().contains(k) && a[k] == c[k] by {
        assert(b.dom().contains(k));
    }
}

// ----- range scans -----
/// One end of a key range.
#[derive(Clone, Copy, Debug)]
pub enum Bound<T> {
    Included(T),
    Excluded(T),
    Unbounded,
}

pub open spec fn after_start(k: Seq<u8>, start: Bound<Seq<u8>>) -> bool {
    match start {
        Bound::Unbounded => true,
        Bound::Included(s) => key_le(s, k),
        Bound::Excluded(s) => key_lt(s, k),
    }
}

pub open spec fn before_end(k: Seq<u8>, end: Bound<Seq<u8>>) -> bool {
    match end {
        Bound::Unbounded => true,
        Bound::Included(e) => key_le(k, e),
        Bound::Excluded(e) => key_lt(k, e),
    }
}

pub open spec fn in_range(k: Seq<u8>, start: Bound<Seq<u8>>, end: Bound<Seq<u8>>) -> bool {
    after_start(k, start) && before_end(k, end)
}

/// The entries of `es` whose keys lie between `start` and `end`, in order.
pub open spec fn range_of(es: Seq<Entry>, start: Bound<Seq<u8>>, end: Bound<Seq<u8>>) -> Seq<Entry>
    decreases es.len(),
{
    if es.len() == 0 {
        es
    } else if in_range(es.last().0, start, end) {
        range_of(es.drop_last(), start, end).push(es.last())
    } else {
        range_of(es.drop_last(), start, end)
    }
}

pub proof fn lemma_range_add(a: Seq<Entry>, b: Seq<Entry>, start: Bound<Seq<u8>>, end: Bound<Seq<u8>>)
    ensures
        range_of(a + b, start, end) == range_of(a, start, end) + range_of(b, start, end),
    decreases b.len(),
{
    if b.len() == 0 {
        assert(a + b =~= a);
        assert(range_of(a, start, end) + range_of(b, start, end) =~= range_of(a, start, end));
    } else {
        assert((a + b).drop_last() =~= a + b.drop_last());
        assert((a + b).last() == b.last());
        lemma_range_add(a, b.drop_last(), start, end);
        if in_range(b.last().0, start, end) {
            assert(range_of(a, start, end) + range_of(b.drop_last(), start, end).push(b.last())
                =~= (range_of(a, start, end) + range_of(b.drop_last(), start, end)).push(b.last()));
        }
    }
}

pub proof fn lemma_range_none(es: Seq<Entry>, start: Bound<Seq<u8>>, end: Bound<Seq<u8>>)
    requires
        forall|i: int| 0 <= i < es.len() ==> !in_range((#[trigger] es[i]).0, start, end),
    ensures
        range_of(es, start, end) == Seq::<Entry>::empty(),
    decreases es.len(),
{
    if es.len() > 0 {
        assert(!in_range(es[es.len() - 1].0, start, end));
        lemma_range_none(es.drop_last(), start, end);
    }
}

/// A range holds exactly the entries whose keys are at or after an
/// included start (after an excluded one) and at or before an included end
/// (before an excluded one), with no limit on an unbounded side.
pub proof fn lemma_range_members(es: Seq<Entry>, start: Bound<Seq<u8>>, end: Bound<Seq<u8>>, x: Entry)
    ensures
        range_of(es, start, end).contains(x) <==> es.contains(x) && (match start {
            Bound::Included(s) => key_lt(s, x.0) || s == x.0,
            Bound::Excluded(s) => key_lt(s, x.0),
            Bound::Unbounded => true,
        }) && (match end {
            Bound::Included(e) => key_lt(x.0, e) || x.0 == e,
            Bound::Excluded(e) => key_lt(x.0, e),
            Bound::Unbounded => true,
        }),
    decreases es.len(),
{
    if es.len() > 0 {
        let rest = es.drop_last();
        lemma_range_members(rest, start, end, x);
        let r = range_of(rest, start, end);
        assert(es =~= rest.push(es.last()));
        if es.contains(x) && !rest.contains(x) {
            let k = choose|k: int| 0 <= k < es.len() && es[k] == x;
            if k < es.len() - 1 {
                assert(rest[k] == x);
            }
        }
        if rest.contains(x) {
            let k = choose|k: int| 0 <= k < rest.len() && rest[k] == x;
            assert(es[k] == x);
        }
        if in_range(es.last().0, start, end) {
            let r2 = r.push(es.last());
            assert(r2[r.len() as int] == es.last());
            if r.contains(x) {
                let k = choose|k: int| 0 <= k < r.len() && r[k] == x;
                assert(r2[k] == x);
            }
            if r2.contains(x) {
                let k = choose|k: int| 0 <= k < r2.len() && r2[k] == x;
                if k < r.len() {
                    assert(r[k] == x);
                }
            }
        }
    }
}

pub proof fn lemma_range_all(es: Seq<Entry>)
    ensures
        range_of(es, Bound::Unbounded, Bound::Unbounded) == es,
    decreases es.len(),
{
    if es.len() > 0 {
        lemma_range_all(es.drop_last());
        assert(es.drop_last().push(es.last()) =~= es);
    }
}

// ----- laws of the key/value operations -----
/// A lookup after an insert of `k` finds the value just written.
pub proof fn lemma_find_insert_same(es: Seq<Entry>, k: Seq<u8>, v: Seq<u8>)
    ensures
        find(insert_entry(es, k, v), k) == Some(v),
    decreases es.len(),
{
    if es.len() > 0 && es[0].0 != k && !key_lt(k, es[0].0) {
        lemma_find_insert_same(es.drop_first(), k, v);
        assert((seq![es[0]] + insert_entry(es.drop_first(), k, v)).drop_first() =~= insert_entry(
            es.drop_first(),
            k,
            v,
        ));
    }
}

/// An insert of `k` leaves the lookup of every other key as it was.
pub proof fn lemma_find_insert_other(es: Seq<Entry>, k: Seq<u8>, v: Seq<u8>, other: Seq<u8>)
    requires
        other != k,
    ensures
        find(insert_entry(es, k, v), other) == find(es, other),
    decreases es.len(),
{
    if es.len() == 0 {
        assert(seq![(k, v)].drop_first() =~= Seq::<Entry>::empty());
        assert(find(Seq::<Entry>::empty(), other) is None);
    } else if es[0].0 == k {
        assert((seq![(k, v)] + es.drop_first()).drop_first() =~= es.drop_first());
    } else if key_lt(k, es[0].0) {
        assert((seq![(k, v)] + es).drop_first() =~= es);
    } else {
        lemma_find_insert_other(es.drop_first(), k, v, other);
        assert((seq![es[0]] + insert_entry(es.drop_first(), k, v)).drop_first() =~= insert_entry(
            es.drop_first(),
            k,
            v,
        ));
    }
}

/// After a delete of `k` from sorted entries, `k` is not found.
pub proof fn lemma_find_remove_same(es: Seq<Entry>, k: Seq<u8>)
    requires
        sorted_keys(es),
    ensures
        find(remove_entry(es, k), k) is None,
    decreases es.len(),
{
    if es.len() > 0 {
        let tail = es.drop_first();
        assert(sorted_keys(tail)) by {
            assert forall|i: int, j: int| 0 <= i < j < tail.len() implies key_lt(
                #[trigger] tail[i].0,
                #[trigger] tail[j].0,
            ) by {
                assert(tail[i] == es[i + 1] && tail[j] == es[j + 1]);
            }
        }
        if es[0].0 == k {
            assert forall|i: int| 0 <= i < tail.len() implies (#[trigger] tail[i]).0 != k by {
                assert(tail[i] == es[i + 1]);
                assert(key_lt(es[0].0, es[i + 1].0));
                lemma_key_lt_irreflexive(k);
            }
            lemma_find_absent(tail, k);
        } else {
            lemma_find_remove_same(tail, k);
            assert((seq![es[0]] + remove_entry(tail, k)).drop_first() =~= remove_entry(tail, k));
        }
    }
}

/// A delete of `k` leaves the lookup of every other key as it was.
pub proof fn lemma_find_remove_other(es: Seq<Entry>, k: Seq<u8>, other: Seq<u8>)
    requires
        other != k,
    ensures
        find(remove_entry(es, k), other) == find(es, other),
    decreases es.len(),
{
    if es.len() > 0 && es[0].0 != k {
        lemma_find_remove_other(es.drop_first(), k, other);
        assert((seq![es[0]] + remove_entry(es.drop_first(), k)).drop_first() =~= remove_entry(
            es.drop_first(),
            k,
        ));
    }
}

/// The entries of a well-formed tree come in strictly ascending key order:
/// a full scan is sorted and holds each key once.
pub proof fn lemma_tree_contents_sorted(p: Map<PageId, Seq<u8>>, root: PageId, ps: nat)
    requires
        tree_contents(p, root, ps) is Some,
    ensures
        sorted_keys(tree_contents(p, root, ps)->0),
{
    let h = choose|h: nat| #[trigger] subtree(p, root, None, None, h, ps) is Some;
    lemma_subtree_sorted(p, root, None, None, h, ps);
}

} // verus!
