//! Slotted-page layout of B+-tree nodes: one node per page, an 8-byte header
//! (`node_type`, reserved byte, `num_entries`, `free_start`, `free_end`), for
//! internal nodes the leftmost child id at 8..16, then a directory of 4-byte
//! slots (`offset`, `length`) in key order, and the cells packed at the end
//! of the page. All multi-byte fields are little-endian.

use crate::le::{
    append_bytes, le16, lemma_le16, lemma_read16_le16, read16, read64, read_u16_at, read_u64_at,
    U16_LIMIT,
};
use crate::btree::BTreeError;
use crate::text::{decimal, decimal_string};
use vstd::bytes::*;
use vstd::prelude::*;
use vstd::slice::*;
use vstd::string::StringExecFns;

verus! {

broadcast use vstd::seq_lib::group_seq_properties;

pub const LEAF_HEADER_SIZE: usize = 8;

pub const INTERNAL_HEADER_SIZE: usize = 16;

pub const SLOT_SIZE: usize = 4;

pub const NODE_TYPE_LEAF: u8 = 0;

pub const NODE_TYPE_INTERNAL: u8 = 1;


/// A key/value pair stored in a leaf.
pub struct LeafEntry {
    pub key: Vec<u8>,
    pub value: Vec<u8>,
}

impl View for LeafEntry {
    type V = (Seq<u8>, Seq<u8>);

    open spec fn view(&self) -> (Seq<u8>, Seq<u8>) {
        (self.key@, self.value@)
    }
}

/// A separator key with the subtree for keys in `[key, next key)`.
pub struct InternalEntry {
    pub key: Vec<u8>,
    pub child: u64,
}

impl View for InternalEntry {
    type V = (Seq<u8>, u64);

    open spec fn view(&self) -> (Seq<u8>, u64) {
        (self.key@, self.child)
    }
}

/// A decoded node.
pub enum Node {
    Leaf(Vec<LeafEntry>),
    Internal { leftmost: u64, entries: Vec<InternalEntry> },
}

/// The mathematical content of a node.
pub enum NodeView {
    Leaf(Seq<(Seq<u8>, Seq<u8>)>),
    Internal(u64, Seq<(Seq<u8>, u64)>),
}

pub open spec fn leaf_view(es: Seq<LeafEntry>) -> Seq<(Seq<u8>, Seq<u8>)> {
    es.map_values(|e: LeafEntry| e@)
}

pub open spec fn internal_view(es: Seq<InternalEntry>) -> Seq<(Seq<u8>, u64)> {
    es.map_values(|e: InternalEntry| e@)
}

impl View for Node {
    type V = NodeView;

    open spec fn view(&self) -> NodeView {
        match self {
            Node::Leaf(es) => NodeView::Leaf(leaf_view(es@)),
            Node::Internal { leftmost, entries } => NodeView::Internal(
                *leftmost,
                internal_view(entries@),
            ),
        }
    }
}

// ----- encoding, as a function on sequences -----



/// The concatenation of `parts`, in order.
pub open spec fn concat(parts: Seq<Seq<u8>>) -> Seq<u8>
    decreases parts.len(),
{
    if parts.len() == 0 {
        Seq::empty()
    } else {
        concat(parts.drop_last()) + parts.last()
    }
}

/// Where part `i` starts inside `concat(parts)`.
pub open spec fn part_start(parts: Seq<Seq<u8>>, i: int) -> int {
    concat(parts.take(i)).len() as int
}

pub open spec fn leaf_cell(e: (Seq<u8>, Seq<u8>)) -> Seq<u8> {
    le16(e.0.len()) + e.0 + le16(e.1.len()) + e.1
}

pub open spec fn internal_cell(e: (Seq<u8>, u64)) -> Seq<u8> {
    le16(e.0.len()) + e.0 + spec_u64_to_le_bytes(e.1)
}

pub open spec fn leaf_cells(es: Seq<(Seq<u8>, Seq<u8>)>) -> Seq<Seq<u8>> {
    es.map_values(|e: (Seq<u8>, Seq<u8>)| leaf_cell(e))
}

pub open spec fn internal_cells(es: Seq<(Seq<u8>, u64)>) -> Seq<Seq<u8>> {
    es.map_values(|e: (Seq<u8>, u64)| internal_cell(e))
}

pub open spec fn slot_bytes(off: nat, len: nat) -> Seq<u8> {
    le16(off) + le16(len)
}

/// The slot directory pointing at `cells` laid out from `cells_start` on.
pub open spec fn slot_parts(cells: Seq<Seq<u8>>, cells_start: nat) -> Seq<Seq<u8>> {
    Seq::new(
        cells.len(),
        |i: int| slot_bytes((cells_start + part_start(cells, i)) as nat, cells[i].len()),
    )
}

/// Whether cells fit a page of `page_size` behind a header of `header_len`
/// bytes, with every field small enough for its `u16`.
pub open spec fn node_fits(header_len: nat, cells: Seq<Seq<u8>>, page_size: nat) -> bool {
    &&& page_size <= U16_LIMIT
    &&& cells.len() <= U16_LIMIT
    &&& header_len + cells.len() * 4 + concat(cells).len() <= page_size
}

/// The page image: header, `extra` header bytes, slot directory, zeroed free
/// space, then the cells in slot order up to the end of the page.
pub open spec fn node_image(kind: u8, extra: Seq<u8>, cells: Seq<Seq<u8>>, page_size: nat) -> Seq<
    u8,
> {
    let n = cells.len();
    let free_start = 8 + extra.len() + 4 * n;
    let free_end = (page_size - concat(cells).len()) as nat;
    seq![kind, 0u8] + le16(n) + le16(free_start) + le16(free_end) + extra + concat(
        slot_parts(cells, free_end),
    ) + Seq::new((free_end - free_start) as nat, |i: int| 0u8) + concat(cells)
}

pub open spec fn leaf_fields_fit(es: Seq<(Seq<u8>, Seq<u8>)>) -> bool {
    forall|i: int| #![trigger es[i]] 0 <= i < es.len() ==> es[i].0.len() <= U16_LIMIT && es[i].1.len() <= U16_LIMIT
}

pub open spec fn internal_fields_fit(es: Seq<(Seq<u8>, u64)>) -> bool {
    forall|i: int| #![trigger es[i]] 0 <= i < es.len() ==> es[i].0.len() <= U16_LIMIT
}

/// Whether a leaf holding `es` can be encoded into one page.
pub open spec fn leaf_fits(es: Seq<(Seq<u8>, Seq<u8>)>, page_size: nat) -> bool {
    leaf_fields_fit(es) && node_fits(8, leaf_cells(es), page_size)
}

/// Whether an internal node holding `es` can be encoded into one page.
pub open spec fn internal_fits(es: Seq<(Seq<u8>, u64)>, page_size: nat) -> bool {
    internal_fields_fit(es) && node_fits(16, internal_cells(es), page_size)
}

pub open spec fn leaf_image(es: Seq<(Seq<u8>, Seq<u8>)>, page_size: nat) -> Seq<u8> {
    node_image(NODE_TYPE_LEAF, Seq::empty(), leaf_cells(es), page_size)
}

pub open spec fn internal_image(leftmost: u64, es: Seq<(Seq<u8>, u64)>, page_size: nat) -> Seq<u8> {
    node_image(NODE_TYPE_INTERNAL, spec_u64_to_le_bytes(leftmost), internal_cells(es), page_size)
}

// ----- decoding, as a function on sequences -----
/// The `i`-th leaf entry of page `b`, if its slot and cell are in bounds.
pub open spec fn leaf_entry_at(b: Seq<u8>, i: int) -> Option<(Seq<u8>, Seq<u8>)> {
    let slot = 8 + 4 * i;
    if slot + 4 > b.len() {
        None
    } else {
        let off = read16(b, slot) as int;
        let len = read16(b, slot + 2) as int;
        if off + len > b.len() {
            None
        } else {
            let cell = b.subrange(off, off + len);
            if len < 2 {
                None
            } else {
                let kl = read16(cell, 0) as int;
                if 2 + kl + 2 > len {
                    None
                } else {
                    let vl = read16(cell, 2 + kl) as int;
                    if 4 + kl + vl > len {
                        None
                    } else {
                        Some((cell.subrange(2, 2 + kl), cell.subrange(4 + kl, 4 + kl + vl)))
                    }
                }
            }
        }
    }
}

/// The `i`-th internal entry of page `b`, if its slot and cell are in bounds.
pub open spec fn internal_entry_at(b: Seq<u8>, i: int) -> Option<(Seq<u8>, u64)> {
    let slot = 16 + 4 * i;
    if slot + 4 > b.len() {
        None
    } else {
        let off = read16(b, slot) as int;
        let len = read16(b, slot + 2) as int;
        if off + len > b.len() {
            None
        } else {
            let cell = b.subrange(off, off + len);
            if len < 2 {
                None
            } else {
                let kl = read16(cell, 0) as int;
                if 2 + kl + 8 > len {
                    None
                } else {
                    Some((cell.subrange(2, 2 + kl), read64(cell, 2 + kl)))
                }
            }
        }
    }
}

/// The node a page holds, or `None` if its bytes do not parse as one.
pub open spec fn parse_node(b: Seq<u8>) -> Option<NodeView> {
    if b.len() < 4 {
        None
    } else {
        let n = read16(b, 2);
        if b[0] == NODE_TYPE_LEAF {
            if forall|i: int| 0 <= i < n ==> #[trigger] leaf_entry_at(b, i) is Some {
                Some(NodeView::Leaf(Seq::new(n, |i: int| leaf_entry_at(b, i)->0)))
            } else {
                None
            }
        } else if b[0] == NODE_TYPE_INTERNAL {
            if b.len() >= 16 && forall|i: int| 0 <= i < n ==> #[trigger] internal_entry_at(b, i) is Some {
                Some(
                    NodeView::Internal(
                        read64(b, 8),
                        Seq::new(n, |i: int| internal_entry_at(b, i)->0),
                    ),
                )
            } else {
                None
            }
        } else {
            None
        }
    }
}

// ----- lemmas on concatenation -----
pub proof fn lemma_concat_push(parts: Seq<Seq<u8>>, x: Seq<u8>)
    ensures
        concat(parts.push(x)) == concat(parts) + x,
{
    assert(parts.push(x).drop_last() =~= parts);
}

pub proof fn lemma_concat_take_step(parts: Seq<Seq<u8>>, i: int)
    requires
        0 <= i < parts.len(),
    ensures
        concat(parts.take(i + 1)) == concat(parts.take(i)) + parts[i],
{
    assert(parts.take(i + 1) =~= parts.take(i).push(parts[i]));
    lemma_concat_push(parts.take(i), parts[i]);
}

/// Part `i` sits at `part_start(parts, i)` inside the concatenation.
pub proof fn lemma_concat_piece(parts: Seq<Seq<u8>>, i: int)
    requires
        0 <= i < parts.len(),
    ensures
        part_start(parts, i) + parts[i].len() <= concat(parts).len(),
        concat(parts).subrange(
            part_start(parts, i),
            part_start(parts, i) + parts[i].len(),
        ) == parts[i],
    decreases parts.len(),
{
    let last = parts.len() - 1;
    if i == last {
        assert(parts.take(i) =~= parts.drop_last());
    } else {
        lemma_concat_piece(parts.drop_last(), i);
        assert(parts.drop_last().take(i) =~= parts.take(i));
        let c = concat(parts.drop_last());
        assert(concat(parts) == c + parts.last());
        assert(concat(parts).subrange(part_start(parts, i), part_start(parts, i) + parts[i].len())
            =~= c.subrange(part_start(parts, i), part_start(parts, i) + parts[i].len()));
    }
}

/// Parts of four bytes each concatenate to four bytes per part.
pub proof fn lemma_concat_uniform(parts: Seq<Seq<u8>>)
    requires
        forall|i: int| 0 <= i < parts.len() ==> #[trigger] parts[i].len() == 4,
    ensures
        concat(parts).len() == 4 * parts.len(),
    decreases parts.len(),
{
    if parts.len() > 0 {
        lemma_concat_uniform(parts.drop_last());
    }
}

pub proof fn lemma_concat_len_monotone(parts: Seq<Seq<u8>>, i: int, j: int)
    requires
        0 <= i <= j <= parts.len(),
    ensures
        part_start(parts, i) <= part_start(parts, j),
    decreases j - i,
{
    if i < j {
        lemma_concat_len_monotone(parts, i, j - 1);
        lemma_concat_take_step(parts, j - 1);
    }
}


/// Reading back the slot directory of a node image.
proof fn lemma_slot_read(cells: Seq<Seq<u8>>, cells_start: nat, i: int)
    requires
        0 <= i < cells.len(),
        cells_start + concat(cells).len() <= U16_LIMIT,
        forall|j: int| 0 <= j < cells.len() ==> #[trigger] cells[j].len() <= U16_LIMIT,
    ensures
        concat(slot_parts(cells, cells_start)).len() == 4 * cells.len(),
        concat(slot_parts(cells, cells_start)).subrange(4 * i, 4 * i + 4) == slot_bytes(
            (cells_start + part_start(cells, i)) as nat,
            cells[i].len(),
        ),
        cells_start + part_start(cells, i) + cells[i].len() <= cells_start + concat(cells).len(),
{
    let sp = slot_parts(cells, cells_start);
    lemma_auto_spec_u16_to_from_le_bytes();
    assert forall|j: int| 0 <= j < sp.len() implies #[trigger] sp[j].len() == 4 by {}
    lemma_concat_uniform(sp);
    lemma_concat_piece(sp, i);
    assert forall|j: int| 0 <= j < sp.take(i).len() implies #[trigger] sp.take(i)[j].len() == 4 by {}
    lemma_concat_uniform(sp.take(i));
    lemma_concat_piece(cells, i);
}


/// Where the parts of a node image sit.
proof fn lemma_image_slot(kind: u8, extra: Seq<u8>, cells: Seq<Seq<u8>>, page_size: nat, i: int)
    requires
        extra.len() == 0 || extra.len() == 8,
        node_fits(8 + extra.len(), cells, page_size),
        0 <= i < cells.len(),
    ensures
        ({
            let b = node_image(kind, extra, cells, page_size);
            let hl = 8 + extra.len();
            let off = page_size - concat(cells).len() + part_start(cells, i);
            let len = cells[i].len() as int;
            &&& hl + 4 * i + 4 <= b.len()
            &&& read16(b, hl + 4 * i) == off
            &&& read16(b, hl + 4 * i + 2) == len
            &&& 0 <= off
            &&& off + len <= b.len()
            &&& b.subrange(off, off + len) == cells[i]
        }),
{
    let n = cells.len();
    let total = concat(cells).len();
    let hl: nat = 8 + extra.len();
    let free_start: nat = hl + 4 * n;
    let free_end: nat = (page_size - total) as nat;
    let b = node_image(kind, extra, cells, page_size);
    lemma_concat_piece(cells, i);
    lemma_concat_len_monotone(cells, i, n as int);
    assert(cells.take(n as int) =~= cells);
    assert forall|j: int| 0 <= j < n implies #[trigger] cells[j].len() <= U16_LIMIT by {
        lemma_concat_piece(cells, j);
    }
    lemma_slot_read(cells, free_end, i);
    lemma_le16(n);
    lemma_le16(free_start);
    lemma_le16(free_end);
    let sp = slot_parts(cells, free_end);
    let head = seq![kind, 0u8] + le16(n) + le16(free_start) + le16(free_end);
    let zeros = Seq::new((free_end - free_start) as nat, |k: int| 0u8);
    assert(head.len() == 8);
    assert(b == head + extra + concat(sp) + zeros + concat(cells));
    let off: int = free_end + part_start(cells, i);
    let len: int = cells[i].len() as int;
    lemma_le16(off as nat);
    lemma_le16(len as nat);
    let slot = hl + 4 * i;
    assert(b.subrange(slot, slot + 4) =~= concat(sp).subrange(4 * i, 4 * i + 4));
    let sb = slot_bytes(off as nat, len as nat);
    assert(b.subrange(slot, slot + 4) == sb);
    assert(sb.subrange(0, 2) =~= le16(off as nat));
    assert(sb.subrange(2, 4) =~= le16(len as nat));
    assert(b.subrange(slot, slot + 2) =~= le16(off as nat));
    assert(b.subrange(slot + 2, slot + 4) =~= le16(len as nat));
    lemma_read16_le16(b, slot, off as nat);
    lemma_read16_le16(b, slot + 2, len as nat);
    assert(b.subrange(off, off + len) =~= concat(cells).subrange(part_start(cells, i), part_start(cells, i) + len));
}

/// Header fields of a node image.
proof fn lemma_image_header(kind: u8, extra: Seq<u8>, cells: Seq<Seq<u8>>, page_size: nat)
    requires
        extra.len() == 0 || extra.len() == 8,
        node_fits(8 + extra.len(), cells, page_size),
    ensures
        ({
            let b = node_image(kind, extra, cells, page_size);
            &&& b.len() == page_size
            &&& b[0] == kind
            &&& read16(b, 2) == cells.len()
            &&& b.subrange(8, 8 + extra.len() as int) == extra
        }),
{
    let n = cells.len();
    let total = concat(cells).len();
    let hl: nat = 8 + extra.len();
    let free_start: nat = hl + 4 * n;
    let free_end: nat = (page_size - total) as nat;
    let b = node_image(kind, extra, cells, page_size);
    assert forall|j: int| 0 <= j < n implies #[trigger] cells[j].len() <= U16_LIMIT by {
        lemma_concat_piece(cells, j);
    }
    let sp = slot_parts(cells, free_end);
    lemma_auto_spec_u16_to_from_le_bytes();
    assert forall|j: int| 0 <= j < sp.len() implies #[trigger] sp[j].len() == 4 by {}
    lemma_concat_uniform(sp);
    lemma_le16(n);
    lemma_le16(free_start);
    lemma_le16(free_end);
    let head = seq![kind, 0u8] + le16(n) + le16(free_start) + le16(free_end);
    let zeros = Seq::new((free_end - free_start) as nat, |k: int| 0u8);
    assert(b == head + extra + concat(sp) + zeros + concat(cells));
    assert(b.subrange(2, 4) =~= le16(n));
    lemma_read16_le16(b, 2, n);
    assert(b.subrange(8, 8 + extra.len() as int) =~= extra);
}

proof fn lemma_leaf_cell_parse(e: (Seq<u8>, Seq<u8>))
    requires
        e.0.len() <= U16_LIMIT,
        e.1.len() <= U16_LIMIT,
    ensures
        ({
            let cell = leaf_cell(e);
            let kl = e.0.len() as int;
            let vl = e.1.len() as int;
            &&& cell.len() == 4 + kl + vl
            &&& read16(cell, 0) == kl
            &&& read16(cell, 2 + kl) == vl
            &&& cell.subrange(2, 2 + kl) == e.0
            &&& cell.subrange(4 + kl, 4 + kl + vl) == e.1
        }),
{
    let cell = leaf_cell(e);
    let kl = e.0.len() as int;
    let vl = e.1.len() as int;
    lemma_le16(e.0.len());
    lemma_le16(e.1.len());
    assert(cell.subrange(0, 2) =~= le16(e.0.len()));
    lemma_read16_le16(cell, 0, e.0.len());
    assert(cell.subrange(2 + kl, 4 + kl) =~= le16(e.1.len()));
    lemma_read16_le16(cell, 2 + kl, e.1.len());
    assert(cell.subrange(2, 2 + kl) =~= e.0);
    assert(cell.subrange(4 + kl, 4 + kl + vl) =~= e.1);
}

proof fn lemma_internal_cell_parse(e: (Seq<u8>, u64))
    requires
        e.0.len() <= U16_LIMIT,
    ensures
        ({
            let cell = internal_cell(e);
            let kl = e.0.len() as int;
            &&& cell.len() == 10 + kl
            &&& read16(cell, 0) == kl
            &&& cell.subrange(2, 2 + kl) == e.0
            &&& read64(cell, 2 + kl) == e.1
        }),
{
    let cell = internal_cell(e);
    let kl = e.0.len() as int;
    lemma_le16(e.0.len());
    lemma_auto_spec_u64_to_from_le_bytes();
    assert(spec_u64_to_le_bytes(e.1).len() == 8);
    assert(cell.subrange(0, 2) =~= le16(e.0.len()));
    lemma_read16_le16(cell, 0, e.0.len());
    assert(cell.subrange(2, 2 + kl) =~= e.0);
    assert(cell.subrange(2 + kl, 2 + kl + 8) =~= spec_u64_to_le_bytes(e.1));
}

/// Decoding a leaf image gives back its entries.
pub proof fn lemma_parse_leaf_image(es: Seq<(Seq<u8>, Seq<u8>)>, page_size: nat)
    requires
        leaf_fits(es, page_size),
    ensures
        leaf_image(es, page_size).len() == page_size,
        parse_node(leaf_image(es, page_size)) == Some(NodeView::Leaf(es)),
{
    let cells = leaf_cells(es);
    let n = cells.len();
    let b = leaf_image(es, page_size);
    lemma_image_header(NODE_TYPE_LEAF, Seq::empty(), cells, page_size);
    assert forall|i: int| 0 <= i < n implies #[trigger] leaf_entry_at(b, i) == Some(es[i]) by {
        lemma_image_slot(NODE_TYPE_LEAF, Seq::empty(), cells, page_size, i);
        lemma_leaf_cell_parse(es[i]);
    }
    assert(Seq::new(n, |i: int| leaf_entry_at(b, i)->0) =~= es);
}

/// Decoding an internal image gives back its leftmost child and entries.
pub proof fn lemma_parse_internal_image(leftmost: u64, es: Seq<(Seq<u8>, u64)>, page_size: nat)
    requires
        internal_fits(es, page_size),
    ensures
        internal_image(leftmost, es, page_size).len() == page_size,
        parse_node(internal_image(leftmost, es, page_size)) == Some(
            NodeView::Internal(leftmost, es),
        ),
{
    let cells = internal_cells(es);
    let n = cells.len();
    let extra = spec_u64_to_le_bytes(leftmost);
    lemma_auto_spec_u64_to_from_le_bytes();
    assert(extra.len() == 8);
    let b = internal_image(leftmost, es, page_size);
    lemma_image_header(NODE_TYPE_INTERNAL, extra, cells, page_size);
    assert(b.subrange(8, 16) == extra);
    assert(read64(b, 8) == leftmost);
    assert forall|i: int| 0 <= i < n implies #[trigger] internal_entry_at(b, i) == Some(es[i]) by {
        lemma_image_slot(NODE_TYPE_INTERNAL, extra, cells, page_size, i);
        lemma_internal_cell_parse(es[i]);
    }
    assert(Seq::new(n, |i: int| internal_entry_at(b, i)->0) =~= es);
}

pub proof fn lemma_concat_append(a: Seq<Seq<u8>>, b: Seq<Seq<u8>>)
    ensures
        concat(a + b) == concat(a) + concat(b),
    decreases b.len(),
{
    if b.len() == 0 {
        assert(a + b =~= a);
        assert(concat(a) + concat(b) =~= concat(a));
    } else {
        assert((a + b).drop_last() =~= a + b.drop_last());
        lemma_concat_append(a, b.drop_last());
        assert(concat(a) + concat(b.drop_last()) + b.last() =~= concat(a) + (concat(b.drop_last()) + b.last()));
    }
}

/// Removing a part shortens the concatenation by that part's length.
pub proof fn lemma_concat_remove_len(parts: Seq<Seq<u8>>, i: int)
    requires
        0 <= i < parts.len(),
    ensures
        concat(parts.remove(i)).len() + parts[i].len() == concat(parts).len(),
{
    let a = parts.take(i);
    let b = parts.skip(i + 1);
    assert(parts =~= a + seq![parts[i]] + b);
    assert(parts.remove(i) =~= a + b);
    lemma_concat_append(a + seq![parts[i]], b);
    lemma_concat_append(a, seq![parts[i]]);
    lemma_concat_append(a, b);
    lemma_concat_push(Seq::empty(), parts[i]);
    assert(Seq::<Seq<u8>>::empty().push(parts[i]) =~= seq![parts[i]]);
}

/// Parts of equal lengths concatenate to equal lengths.
pub proof fn lemma_concat_same_lens(a: Seq<Seq<u8>>, b: Seq<Seq<u8>>)
    requires
        a.len() == b.len(),
        forall|i: int| 0 <= i < a.len() ==> (#[trigger] a[i]).len() == b[i].len(),
    ensures
        concat(a).len() == concat(b).len(),
    decreases a.len(),
{
    if a.len() > 0 {
        lemma_concat_same_lens(a.drop_last(), b.drop_last());
    }
}

/// A leaf that fits still fits with one entry removed.
pub proof fn lemma_leaf_fits_remove(es: Seq<(Seq<u8>, Seq<u8>)>, i: int, page_size: nat)
    requires
        leaf_fits(es, page_size),
        0 <= i < es.len(),
    ensures
        leaf_fits(es.remove(i), page_size),
{
    let cells = leaf_cells(es);
    assert(leaf_cells(es.remove(i)) =~= cells.remove(i));
    lemma_concat_remove_len(cells, i);
    let r = es.remove(i);
    assert forall|j: int| #![trigger r[j]] 0 <= j < r.len() implies r[j].0.len() <= U16_LIMIT && r[j].1.len() <= U16_LIMIT by {
        if j < i {
            assert(r[j] == es[j]);
        } else {
            assert(r[j] == es[j + 1]);
        }
    }
}

/// Changing children only keeps an internal node's size.
pub proof fn lemma_internal_fits_same_keys(es: Seq<(Seq<u8>, u64)>, es2: Seq<(Seq<u8>, u64)>, page_size: nat)
    requires
        internal_fits(es, page_size),
        es.len() == es2.len(),
        forall|j: int| 0 <= j < es.len() ==> (#[trigger] es2[j]).0 == es[j].0,
    ensures
        internal_fits(es2, page_size),
{
    lemma_auto_spec_u64_to_from_le_bytes();
    lemma_auto_spec_u16_to_from_le_bytes();
    let c1 = internal_cells(es);
    let c2 = internal_cells(es2);
    assert forall|j: int| 0 <= j < c1.len() implies (#[trigger] c1[j]).len() == c2[j].len() by {
        assert(es2[j].0 == es[j].0);
    }
    lemma_concat_same_lens(c1, c2);
    assert forall|j: int| #![trigger es2[j]] 0 <= j < es2.len() implies es2[j].0.len() <= U16_LIMIT by {
        assert(es2[j].0 == es[j].0);
    }
}

// ----- executable encoding -----

pub open spec fn cells_view(cells: Seq<Vec<u8>>) -> Seq<Seq<u8>> {
    cells.map_values(|c: Vec<u8>| c@)
}

/// Lays out header, `extra`, slot directory, free space and cells into a
/// page of `page_size` bytes.
fn encode_node(kind: u8, extra: &[u8], cells: &Vec<Vec<u8>>, total: usize, page_size: usize) -> (b:
    Vec<u8>)
    requires
        extra@.len() == 0 || extra@.len() == 8,
        node_fits(8 + extra@.len(), cells_view(cells@), page_size as nat),
        total == concat(cells_view(cells@)).len(),
    ensures
        b@ == node_image(kind, extra@, cells_view(cells@), page_size as nat),
{
    let ghost cv = cells_view(cells@);
    let n = cells.len();
    let free_start = 8 + extra.len() + SLOT_SIZE * n;
    let free_end = page_size - total;
    proof {
        assert forall|j: int| 0 <= j < n implies #[trigger] cv[j].len() <= U16_LIMIT by {
            lemma_concat_piece(cv, j);
        }
    }
    let mut out: Vec<u8> = Vec::new();
    out.push(kind);
    out.push(0u8);
    let v = u16_to_le_bytes(n as u16);
    append_bytes(&mut out, v.as_slice());
    let v = u16_to_le_bytes(free_start as u16);
    append_bytes(&mut out, v.as_slice());
    let v = u16_to_le_bytes(free_end as u16);
    append_bytes(&mut out, v.as_slice());
    append_bytes(&mut out, extra);
    let ghost head = out@;
    assert(head =~= seq![kind, 0u8] + le16(n as nat) + le16(free_start as nat) + le16(free_end as nat) + extra@);
    let ghost sp = slot_parts(cv, free_end as nat);
    let mut cursor = free_end;
    let mut i: usize = 0;
    while i < n
        invariant
            i <= n == cells@.len() == cv.len() == sp.len(),
            cv == cells_view(cells@),
            sp == slot_parts(cv, free_end as nat),
            free_end + total == page_size,
            total == concat(cv).len(),
            page_size <= U16_LIMIT,
            forall|j: int| 0 <= j < n ==> #[trigger] cv[j].len() <= U16_LIMIT,
            cursor == free_end + part_start(cv, i as int),
            out@ == head + concat(sp.take(i as int)),
        decreases n - i,
    {
        proof {
            lemma_concat_piece(cv, i as int);
            lemma_concat_take_step(cv, i as int);
            lemma_concat_take_step(sp, i as int);
        }
        let v = u16_to_le_bytes(cursor as u16);
        append_bytes(&mut out, v.as_slice());
        let len = cells[i].len();
        let v = u16_to_le_bytes(len as u16);
        append_bytes(&mut out, v.as_slice());
        proof {
            assert(sp[i as int] == slot_bytes(cursor as nat, len as nat));
        }
        cursor = cursor + len;
        i += 1;
    }
    assert(sp.take(n as int) =~= sp);
    let mut z: usize = free_start;
    while z < free_end
        invariant
            free_start <= z <= free_end,
            out@ == head + concat(sp) + Seq::new((z - free_start) as nat, |k: int| 0u8),
        decreases free_end - z,
    {
        out.push(0u8);
        z += 1;
        assert(out@ =~= head + concat(sp) + Seq::new((z - free_start) as nat, |k: int| 0u8));
    }
    let ghost mid = out@;
    let mut i: usize = 0;
    while i < n
        invariant
            i <= n == cells@.len() == cv.len(),
            cv == cells_view(cells@),
            out@ == mid + concat(cv.take(i as int)),
        decreases n - i,
    {
        proof {
            lemma_concat_take_step(cv, i as int);
        }
        append_bytes(&mut out, cells[i].as_slice());
        i += 1;
    }
    assert(cv.take(n as int) =~= cv);
    proof {
        lemma_concat_uniform_slots(cv, free_end as nat);
    }
    out
}

proof fn lemma_concat_uniform_slots(cells: Seq<Seq<u8>>, start: nat)
    ensures
        concat(slot_parts(cells, start)).len() == 4 * cells.len(),
{
    let sp = slot_parts(cells, start);
    lemma_auto_spec_u16_to_from_le_bytes();
    assert forall|j: int| 0 <= j < sp.len() implies #[trigger] sp[j].len() == 4 by {}
    lemma_concat_uniform(sp);
}

fn leaf_cell_bytes(e: &LeafEntry) -> (c: Vec<u8>)
    requires
        e.key@.len() <= U16_LIMIT,
        e.value@.len() <= U16_LIMIT,
    ensures
        c@ == leaf_cell(e@),
{
    let mut c: Vec<u8> = Vec::new();
    let v = u16_to_le_bytes(e.key.len() as u16);
    append_bytes(&mut c, v.as_slice());
    append_bytes(&mut c, e.key.as_slice());
    let v = u16_to_le_bytes(e.value.len() as u16);
    append_bytes(&mut c, v.as_slice());
    append_bytes(&mut c, e.value.as_slice());
    assert(c@ =~= leaf_cell(e@));
    c
}

fn internal_cell_bytes(e: &InternalEntry) -> (c: Vec<u8>)
    requires
        e.key@.len() <= U16_LIMIT,
    ensures
        c@ == internal_cell(e@),
{
    let mut c: Vec<u8> = Vec::new();
    let v = u16_to_le_bytes(e.key.len() as u16);
    append_bytes(&mut c, v.as_slice());
    append_bytes(&mut c, e.key.as_slice());
    let v = u64_to_le_bytes(e.child);
    append_bytes(&mut c, v.as_slice());
    assert(c@ =~= internal_cell(e@));
    c
}

/// Encodes a leaf holding `entries` into one page, or `None` if it does not
/// fit one page of `page_size` bytes (or a length overflows its `u16` field).
pub fn try_encode_leaf(entries: &[LeafEntry], page_size: usize) -> (r: Option<Vec<u8>>)
    ensures
        match r {
            Some(b) => leaf_fits(leaf_view(entries@), page_size as nat) && b@ == leaf_image(
                leaf_view(entries@),
                page_size as nat,
            ),
            None => !leaf_fits(leaf_view(entries@), page_size as nat),
        },
{
    let ghost es = leaf_view(entries@);
    let ghost all_cells = leaf_cells(es);
    if page_size > U16_LIMIT {
        return None;
    }
    let n = entries.len();
    if n > U16_LIMIT {
        return None;
    }
    let mut cells: Vec<Vec<u8>> = Vec::new();
    let mut total: usize = 0;
    let mut i: usize = 0;
    while i < n
        invariant
            i <= n == entries@.len() == es.len() == all_cells.len(),
            es == leaf_view(entries@),
            all_cells == leaf_cells(es),
            page_size <= U16_LIMIT,
            cells@.len() == i,
            cells_view(cells@) == all_cells.take(i as int),
            forall|j: int| #![trigger es[j]] 0 <= j < i ==> es[j].0.len() <= U16_LIMIT && es[j].1.len() <= U16_LIMIT,
            total == concat(all_cells.take(i as int)).len(),
            total <= page_size,
        decreases n - i,
    {
        let e = &entries[i];
        if e.key.len() > U16_LIMIT || e.value.len() > U16_LIMIT {
            assert(!leaf_fields_fit(es)) by {
                assert(es[i as int].0.len() > U16_LIMIT || es[i as int].1.len() > U16_LIMIT);
            }
            return None;
        }
        let c = leaf_cell_bytes(e);
        proof {
            lemma_concat_take_step(all_cells, i as int);
        }
        if c.len() > page_size - total {
            proof {
                lemma_concat_len_monotone(all_cells, i as int + 1, n as int);
                assert(all_cells.take(n as int) =~= all_cells);
            }
            return None;
        }
        total = total + c.len();
        cells.push(c);
        i += 1;
        assert(cells_view(cells@) =~= all_cells.take(i as int));
    }
    assert(all_cells.take(n as int) =~= all_cells);
    if LEAF_HEADER_SIZE + SLOT_SIZE * n + total > page_size {
        return None;
    }
    let extra: Vec<u8> = Vec::new();
    let b = encode_node(NODE_TYPE_LEAF, extra.as_slice(), &cells, total, page_size);
    assert(extra@ =~= Seq::<u8>::empty());
    Some(b)
}

/// Encodes an internal node (leftmost child plus `entries`) into one page,
/// or `None` if it does not fit one page of `page_size` bytes (or a length
/// overflows its `u16` field).
pub fn try_encode_internal(leftmost: u64, entries: &[InternalEntry], page_size: usize) -> (r:
    Option<Vec<u8>>)
    ensures
        match r {
            Some(b) => internal_fits(internal_view(entries@), page_size as nat) && b@
                == internal_image(leftmost, internal_view(entries@), page_size as nat),
            None => !internal_fits(internal_view(entries@), page_size as nat),
        },
{
    let ghost es = internal_view(entries@);
    let ghost all_cells = internal_cells(es);
    if page_size > U16_LIMIT {
        return None;
    }
    let n = entries.len();
    if n > U16_LIMIT {
        return None;
    }
    let mut cells: Vec<Vec<u8>> = Vec::new();
    let mut total: usize = 0;
    let mut i: usize = 0;
    while i < n
        invariant
            i <= n == entries@.len() == es.len() == all_cells.len(),
            es == internal_view(entries@),
            all_cells == internal_cells(es),
            page_size <= U16_LIMIT,
            cells@.len() == i,
            cells_view(cells@) == all_cells.take(i as int),
            forall|j: int| #![trigger es[j]] 0 <= j < i ==> es[j].0.len() <= U16_LIMIT,
            total == concat(all_cells.take(i as int)).len(),
            total <= page_size,
        decreases n - i,
    {
        let e = &entries[i];
        if e.key.len() > U16_LIMIT {
            assert(!internal_fields_fit(es)) by {
                assert(es[i as int].0.len() > U16_LIMIT);
            }
            return None;
        }
        let c = internal_cell_bytes(e);
        proof {
            lemma_concat_take_step(all_cells, i as int);
        }
        if c.len() > page_size - total {
            proof {
                lemma_concat_len_monotone(all_cells, i as int + 1, n as int);
                assert(all_cells.take(n as int) =~= all_cells);
            }
            return None;
        }
        total = total + c.len();
        cells.push(c);
        i += 1;
        assert(cells_view(cells@) =~= all_cells.take(i as int));
    }
    assert(all_cells.take(n as int) =~= all_cells);
    if INTERNAL_HEADER_SIZE + SLOT_SIZE * n + total > page_size {
        return None;
    }
    let extra = u64_to_le_bytes(leftmost);
    let b = encode_node(NODE_TYPE_INTERNAL, extra.as_slice(), &cells, total, page_size);
    Some(b)
}

/// One entry that does not parse makes the whole node unparseable.
proof fn lemma_parse_none_at(b: Seq<u8>, i: int)
    requires
        b.len() >= 4,
        0 <= i < read16(b, 2),
        b[0] == NODE_TYPE_LEAF ==> leaf_entry_at(b, i) is None,
        b[0] == NODE_TYPE_INTERNAL ==> internal_entry_at(b, i) is None,
    ensures
        parse_node(b) is None,
{
    if b[0] == NODE_TYPE_LEAF {
        assert(!(forall|j: int| 0 <= j < read16(b, 2) ==> #[trigger] leaf_entry_at(b, j) is Some));
    } else if b[0] == NODE_TYPE_INTERNAL {
        assert(!(forall|j: int| 0 <= j < read16(b, 2) ==> #[trigger] internal_entry_at(b, j) is Some));
    }
}

// ----- executable decoding -----


/// The `(offset, length)` pair of the slot at `slot_off`.
pub fn read_slot(buf: &[u8], slot_off: usize) -> (r: (usize, usize))
    requires
        slot_off + 4 <= buf@.len(),
    ensures
        r.0 == read16(buf@, slot_off as int),
        r.1 == read16(buf@, slot_off + 2),
        r.0 <= U16_LIMIT,
        r.1 <= U16_LIMIT,
{
    let off = read_u16_at(buf, slot_off);
    let len = buf.len();
    assert(slot_off + 4 <= len);
    let len = read_u16_at(buf, slot_off + 2);
    (off, len)
}

fn decode_leaf_entry(buf: &[u8], i: usize) -> (r: Option<LeafEntry>)
    requires
        i <= U16_LIMIT,
    ensures
        match leaf_entry_at(buf@, i as int) {
            Some(v) => r is Some && r->0@ == v,
            None => r is None,
        },
{
    let slot = LEAF_HEADER_SIZE + i * SLOT_SIZE;
    if slot + SLOT_SIZE > buf.len() {
        return None;
    }
    let (off, len) = read_slot(buf, slot);
    if off + len > buf.len() {
        return None;
    }
    let cell = slice_subrange(buf, off, off + len);
    if len < 2 {
        return None;
    }
    let kl = read_u16_at(cell, 0);
    if 2 + kl + 2 > len {
        return None;
    }
    let vl = read_u16_at(cell, 2 + kl);
    if 4 + kl + vl > len {
        return None;
    }
    let key = slice_to_vec(slice_subrange(cell, 2, 2 + kl));
    let value = slice_to_vec(slice_subrange(cell, 4 + kl, 4 + kl + vl));
    Some(LeafEntry { key, value })
}

fn decode_internal_entry(buf: &[u8], i: usize) -> (r: Option<InternalEntry>)
    requires
        i <= U16_LIMIT,
    ensures
        match internal_entry_at(buf@, i as int) {
            Some(v) => r is Some && r->0@ == v,
            None => r is None,
        },
{
    let slot = INTERNAL_HEADER_SIZE + i * SLOT_SIZE;
    if slot + SLOT_SIZE > buf.len() {
        return None;
    }
    let (off, len) = read_slot(buf, slot);
    if off + len > buf.len() {
        return None;
    }
    let cell = slice_subrange(buf, off, off + len);
    if len < 2 {
        return None;
    }
    let kl = read_u16_at(cell, 0);
    if 2 + kl + 8 > len {
        return None;
    }
    let key = slice_to_vec(slice_subrange(cell, 2, 2 + kl));
    let child = read_u64_at(cell, 2 + kl);
    Some(InternalEntry { key, child })
}

/// Parses a node page: `None` exactly when the bytes do not parse as a leaf
/// or internal node (unknown type tag, or a slot or cell out of bounds).
pub fn parse_node_bytes(buf: &[u8]) -> (r: Option<Node>)
    ensures
        match parse_node(buf@) {
            Some(v) => r is Some && r->0@ == v,
            None => r is None,
        },
{
    if buf.len() < 4 {
        return None;
    }
    let node_type = buf[0];
    let n = read_u16_at(buf, 2);
    if node_type == NODE_TYPE_LEAF {
        let mut entries: Vec<LeafEntry> = Vec::new();
        let mut i: usize = 0;
        while i < n
            invariant
                i <= n <= U16_LIMIT,
                n == read16(buf@, 2),
                buf@.len() >= 4,
                buf@[0] == NODE_TYPE_LEAF,
                entries@.len() == i,
                forall|j: int| 0 <= j < i ==> #[trigger] leaf_entry_at(buf@, j) == Some(entries@[j]@),
            decreases n - i,
        {
            match decode_leaf_entry(buf, i) {
                Some(e) => {
                    entries.push(e);
                },
                None => {
                    proof {
                        lemma_parse_none_at(buf@, i as int);
                    }
                    return None;
                },
            }
            i += 1;
        }
        assert(Seq::new(n as nat, |j: int| leaf_entry_at(buf@, j)->0) =~= leaf_view(entries@));
        Some(Node::Leaf(entries))
    } else if node_type == NODE_TYPE_INTERNAL {
        if buf.len() < INTERNAL_HEADER_SIZE {
            return None;
        }
        let leftmost = read_u64_at(buf, 8);
        let mut entries: Vec<InternalEntry> = Vec::new();
        let mut i: usize = 0;
        while i < n
            invariant
                i <= n <= U16_LIMIT,
                n == read16(buf@, 2),
                16 <= buf@.len(),
                buf@[0] == NODE_TYPE_INTERNAL,
                leftmost == read64(buf@, 8),
                entries@.len() == i,
                forall|j: int| 0 <= j < i ==> #[trigger] internal_entry_at(buf@, j) == Some(entries@[j]@),
            decreases n - i,
        {
            match decode_internal_entry(buf, i) {
                Some(e) => {
                    entries.push(e);
                },
                None => {
                    proof {
                        lemma_parse_none_at(buf@, i as int);
                    }
                    return None;
                },
            }
            i += 1;
        }
        assert(Seq::new(n as nat, |j: int| internal_entry_at(buf@, j)->0) =~= internal_view(entries@));
        Some(Node::Internal { leftmost, entries })
    } else {
        None
    }
}

/// Decodes a node page. A page whose type tag is neither leaf nor internal
/// is reported with its tag; any other page that does not parse (a slot or
/// cell out of bounds) is reported as such.
pub fn decode_bytes(buf: &[u8]) -> (r: Result<Node, BTreeError>)
    ensures
        match parse_node(buf@) {
            Some(v) => r is Ok && r->Ok_0@ == v,
            None => r is Err && r->Err_0 is Corrupt,
        },
        buf@.len() >= 1 && buf@[0] != NODE_TYPE_LEAF && buf@[0] != NODE_TYPE_INTERNAL ==> (r matches Err(
            BTreeError::Corrupt(m),
        ) && m@ == "unknown node type tag "@ + decimal(buf@[0] as nat)),
{
    match parse_node_bytes(buf) {
        Some(node) => Ok(node),
        None => {
            if buf.len() >= 1 && buf[0] != NODE_TYPE_LEAF && buf[0] != NODE_TYPE_INTERNAL {
                let mut msg = String::from_str("unknown node type tag ");
                let d = decimal_string(buf[0] as u64);
                msg.append(d.as_str());
                Err(BTreeError::Corrupt(msg))
            } else {
                Err(BTreeError::Corrupt(String::from_str("node page does not parse as a leaf or internal node")))
            }
        },
    }
}

} // verus!
