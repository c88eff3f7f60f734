//! Byte-wise lexicographic order on keys: the order of the B+-tree.

use vstd::prelude::*;

verus! {

/// `a` sorts strictly before `b`: at the first differing byte `a`'s is
/// smaller, or `a` is a proper prefix of `b`.
pub open spec fn key_lt(a: Seq<u8>, b: Seq<u8>) -> bool
    decreases a.len(),
{
    if a.len() == 0 {
        b.len() > 0
    } else if b.len() == 0 {
        false
    } else if a[0] != b[0] {
        a[0] < b[0]
    } else {
        key_lt(a.drop_first(), b.drop_first())
    }
}

/// `a` is a proper prefix of `b`.
pub open spec fn proper_prefix(a: Seq<u8>, b: Seq<u8>) -> bool {
    a.len() < b.len() && b.take(a.len() as int) == a
}

/// `a` and `b` agree before index `i`, where `a`'s byte is smaller.
pub open spec fn smaller_at(a: Seq<u8>, b: Seq<u8>, i: int) -> bool {
    0 <= i < a.len() && i < b.len() && a.take(i) == b.take(i) && a[i] < b[i]
}

/// The key order is byte-wise lexicographic: `a` sorts before `b` exactly
/// when it is a proper prefix of `b` or, at the first byte where they
/// differ, `a`'s byte is smaller.
pub proof fn lemma_key_lt_lexicographic(a: Seq<u8>, b: Seq<u8>)
    ensures
        key_lt(a, b) <==> (proper_prefix(a, b) || exists|i: int| #[trigger] smaller_at(a, b, i)),
    decreases a.len(),
{
    if a.len() == 0 {
        assert(b.take(0) =~= a);
        if exists|i: int| #[trigger] smaller_at(a, b, i) {
            let i = choose|i: int| #[trigger] smaller_at(a, b, i);
            assert(false);
        }
    } else if b.len() == 0 {
        if exists|i: int| #[trigger] smaller_at(a, b, i) {
            let i = choose|i: int| #[trigger] smaller_at(a, b, i);
            assert(false);
        }
    } else if a[0] != b[0] {
        if a[0] < b[0] {
            assert(a.take(0) =~= b.take(0));
            assert(smaller_at(a, b, 0));
        } else {
            if proper_prefix(a, b) {
                assert(b.take(a.len() as int)[0] == a[0]);
            }
            if exists|i: int| #[trigger] smaller_at(a, b, i) {
                let i = choose|i: int| #[trigger] smaller_at(a, b, i);
                if i > 0 {
                    assert(a.take(i)[0] == b.take(i)[0]);
                }
            }
        }
    } else {
        let a1 = a.drop_first();
        let b1 = b.drop_first();
        lemma_key_lt_lexicographic(a1, b1);
        if proper_prefix(a1, b1) {
            assert(b.take(a.len() as int) =~= seq![b[0]] + b1.take(a1.len() as int));
            assert(a =~= seq![a[0]] + a1);
        }
        if proper_prefix(a, b) {
            assert(b1.take(a1.len() as int) =~= b.take(a.len() as int).drop_first());
        }
        if exists|i: int| #[trigger] smaller_at(a1, b1, i) {
            let i = choose|i: int| #[trigger] smaller_at(a1, b1, i);
            assert(a.take(i + 1) =~= seq![a[0]] + a1.take(i));
            assert(b.take(i + 1) =~= seq![b[0]] + b1.take(i));
            assert(smaller_at(a, b, i + 1));
        }
        if exists|i: int| #[trigger] smaller_at(a, b, i) {
            let i = choose|i: int| #[trigger] smaller_at(a, b, i);
            if i == 0 {
                assert(false);
            } else {
                assert(a1.take(i - 1) =~= a.take(i).drop_first());
                assert(b1.take(i - 1) =~= b.take(i).drop_first());
                assert(smaller_at(a1, b1, i - 1));
            }
        }
    }
}

pub open spec fn key_le(a: Seq<u8>, b: Seq<u8>) -> bool {
    key_lt(a, b) || a == b
}

pub proof fn lemma_key_lt_irreflexive(a: Seq<u8>)
    ensures
        !key_lt(a, a),
    decreases a.len(),
{
    if a.len() > 0 {
        lemma_key_lt_irreflexive(a.drop_first());
    }
}

/// Two distinct keys are ordered one way or the other, never both.
pub proof fn lemma_key_lt_total(a: Seq<u8>, b: Seq<u8>)
    ensures
        a != b ==> (key_lt(a, b) || key_lt(b, a)),
        !(key_lt(a, b) && key_lt(b, a)),
        key_lt(a, b) ==> a != b,
    decreases a.len(),
{
    lemma_key_lt_irreflexive(a);
    if a.len() > 0 && b.len() > 0 && a[0] == b[0] {
        lemma_key_lt_total(a.drop_first(), b.drop_first());
        if a != b {
            assert(a.drop_first() != b.drop_first()) by {
                if a.drop_first() == b.drop_first() {
                    assert(a =~= seq![a[0]] + a.drop_first());
                    assert(b =~= seq![b[0]] + b.drop_first());
                }
            }
        }
    } else if a.len() == 0 && b.len() == 0 {
        assert(a =~= b);
    }
}

pub proof fn lemma_key_lt_trans(a: Seq<u8>, b: Seq<u8>, c: Seq<u8>)
    requires
        key_lt(a, b),
        key_lt(b, c),
    ensures
        key_lt(a, c),
    decreases a.len(),
{
    if a.len() > 0 && b.len() > 0 && c.len() > 0 && a[0] == b[0] && b[0] == c[0] {
        lemma_key_lt_trans(a.drop_first(), b.drop_first(), c.drop_first());
    }
}

pub proof fn lemma_key_le_lt_trans(a: Seq<u8>, b: Seq<u8>, c: Seq<u8>)
    requires
        key_le(a, b),
        key_lt(b, c),
    ensures
        key_lt(a, c),
{
    if a != b {
        lemma_key_lt_trans(a, b, c);
    }
}

pub proof fn lemma_key_lt_le_trans(a: Seq<u8>, b: Seq<u8>, c: Seq<u8>)
    requires
        key_lt(a, b),
        key_le(b, c),
    ensures
        key_lt(a, c),
{
    if b != c {
        lemma_key_lt_trans(a, b, c);
    }
}

/// Outcome of comparing two keys.
pub enum KeyOrder {
    Less,
    Equal,
    Greater,
}

/// Compares two keys byte-wise.
pub fn compare_keys(a: &[u8], b: &[u8]) -> (r: KeyOrder)
    ensures
        r is Less <==> key_lt(a@, b@),
        r is Equal <==> a@ == b@,
        r is Greater <==> key_lt(b@, a@),
{
    proof {
        lemma_key_lt_total(a@, b@);
    }
    let mut i: usize = 0;
    assert(a@.skip(0) =~= a@);
    assert(b@.skip(0) =~= b@);
    while i < a.len() && i < b.len()
        invariant
            i <= a@.len(),
            i <= b@.len(),
            key_lt(a@, b@) == key_lt(a@.skip(i as int), b@.skip(i as int)),
            key_lt(b@, a@) == key_lt(b@.skip(i as int), a@.skip(i as int)),
            (a@ == b@) == (a@.skip(i as int) == b@.skip(i as int)),
        decreases a@.len() - i,
    {
        let x = a[i];
        let y = b[i];
        let ghost sa = a@.skip(i as int);
        let ghost sb = b@.skip(i as int);
        if x < y {
            assert(sa != sb) by {
                assert(sa[0] != sb[0]);
            }
            return KeyOrder::Less;
        } else if x > y {
            assert(sa != sb) by {
                assert(sa[0] != sb[0]);
            }
            return KeyOrder::Greater;
        }
        proof {
            assert(sa.drop_first() =~= a@.skip(i as int + 1));
            assert(sb.drop_first() =~= b@.skip(i as int + 1));
            assert(sa =~= seq![sa[0]] + sa.drop_first());
            assert(sb =~= seq![sb[0]] + sb.drop_first());
        }
        i += 1;
    }
    let ghost sa = a@.skip(i as int);
    let ghost sb = b@.skip(i as int);
    if a.len() == b.len() {
        assert(sa.len() == 0 && sb.len() == 0);
        assert(sa =~= sb);
        KeyOrder::Equal
    } else if a.len() < b.len() {
        assert(sa.len() == 0 && sb.len() > 0);
        assert(sa != sb);
        KeyOrder::Less
    } else {
        assert(sb.len() == 0 && sa.len() > 0);
        assert(sa != sb);
        KeyOrder::Greater
    }
}

} // verus!
