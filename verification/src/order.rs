//! The order of byte strings, and stable sorting by such a key.

use vstd::prelude::*;

verus! {

/// The order of byte strings: by the first byte that differs, a prefix first.
pub open spec fn lex_less(a: Seq<u8>, b: Seq<u8>) -> bool
    decreases b.len(),
{
    if b.len() == 0 {
        false
    } else if a.len() == 0 {
        true
    } else if a[0] != b[0] {
        a[0] < b[0]
    } else {
        lex_less(a.drop_first(), b.drop_first())
    }
}

/// Where an item with `key` goes: behind the last one whose key is not greater.
pub open spec fn slot<T>(p: Seq<(Seq<u8>, T)>, key: Seq<u8>) -> int
    decreases p.len(),
{
    if p.len() == 0 {
        0
    } else if lex_less(key, p.last().0) {
        slot(p.drop_last(), key)
    } else {
        p.len() as int
    }
}

/// The items in the order of their keys; items with equal keys stay as they were.
pub open spec fn sorted<T>(p: Seq<(Seq<u8>, T)>) -> Seq<(Seq<u8>, T)>
    decreases p.len(),
{
    if p.len() == 0 {
        seq![]
    } else {
        let rest = sorted(p.drop_last());
        rest.insert(slot(rest, p.last().0), p.last())
    }
}

/// True when no item stands behind one with a greater key.
pub open spec fn in_order<T>(p: Seq<(Seq<u8>, T)>) -> bool {
    forall|i: int, j: int| 0 <= i < j < p.len() ==> !lex_less((#[trigger] p[j]).0, (#[trigger] p[i]).0)
}

/// True when `a` comes before `b` in the order of byte strings.
pub fn bytes_less(a: &[u8], b: &[u8]) -> (r: bool)
    ensures
        r == lex_less(a@, b@),
{
    let mut i: usize = 0;
    proof {
        assert(a@.skip(0) =~= a@);
        assert(b@.skip(0) =~= b@);
    }
    while i < a.len() && i < b.len()
        invariant
            i <= a.len(),
            i <= b.len(),
            lex_less(a@, b@) == lex_less(a@.skip(i as int), b@.skip(i as int)),
        decreases a.len() - i,
    {
        if a[i] != b[i] {
            return a[i] < b[i];
        }
        proof {
            assert(a@.skip(i as int).drop_first() =~= a@.skip(i + 1));
            assert(b@.skip(i as int).drop_first() =~= b@.skip(i + 1));
        }
        i += 1;
    }
    i < b.len()
}

/// The order is total: of two different byte strings one is less.
pub proof fn lex_total(a: Seq<u8>, b: Seq<u8>)
    ensures
        lex_less(a, b) || lex_less(b, a) || a == b,
        !(lex_less(a, b) && lex_less(b, a)),
        !lex_less(a, a),
    decreases a.len(),
{
    if a.len() > 0 {
        lex_irreflexive(a);
        if b.len() > 0 && a[0] == b[0] {
            lex_total(a.drop_first(), b.drop_first());
            if a.drop_first() == b.drop_first() {
                assert(a =~= seq![a[0]] + a.drop_first());
                assert(b =~= seq![b[0]] + b.drop_first());
            }
        }
    } else if b.len() == 0 {
        assert(a =~= b);
    }
}

proof fn lex_irreflexive(a: Seq<u8>)
    ensures
        !lex_less(a, a),
    decreases a.len(),
{
    if a.len() > 0 {
        lex_irreflexive(a.drop_first());
    }
}

/// The order is transitive.
pub proof fn lex_transitive(a: Seq<u8>, b: Seq<u8>, c: Seq<u8>)
    requires
        lex_less(a, b),
        lex_less(b, c),
    ensures
        lex_less(a, c),
    decreases a.len(),
{
    if a.len() > 0 && a[0] == b[0] && b[0] == c[0] {
        lex_transitive(a.drop_first(), b.drop_first(), c.drop_first());
    }
}

/// One byte string is less than another that goes on where it ends, or that has a greater byte
/// where they first differ.
pub proof fn lex_less_where_they_differ(a: Seq<u8>, b: Seq<u8>, i: int)
    requires
        0 <= i <= a.len(),
        i < b.len(),
        forall|j: int| 0 <= j < i ==> #[trigger] a[j] == b[j],
        i == a.len() || a[i] < b[i],
    ensures
        lex_less(a, b),
        a != b,
    decreases i,
{
    if i > 0 {
        let x = a.drop_first();
        let y = b.drop_first();
        assert forall|j: int| 0 <= j < i - 1 implies #[trigger] x[j] == y[j] by {
            assert(x[j] == a[j + 1]);
            assert(y[j] == b[j + 1]);
        }
        lex_less_where_they_differ(x, y, i - 1);
    }
}

/// The slot divides the items that stay in front from those that come behind.
pub proof fn lemma_slot<T>(p: Seq<(Seq<u8>, T)>, key: Seq<u8>)
    requires
        in_order(p),
    ensures
        0 <= slot(p, key) <= p.len(),
        forall|i: int| 0 <= i < slot(p, key) ==> !lex_less(key, (#[trigger] p[i]).0),
        forall|i: int| slot(p, key) <= i < p.len() ==> lex_less(key, (#[trigger] p[i]).0),
    decreases p.len(),
{
    if p.len() > 0 {
        if lex_less(key, p.last().0) {
            let q = p.drop_last();
            assert(in_order(q));
            lemma_slot(q, key);
            assert forall|i: int| slot(p, key) <= i < p.len() implies lex_less(
                key,
                (#[trigger] p[i]).0,
            ) by {
                if i < q.len() {
                    assert(q[i] == p[i]);
                }
            }
            assert forall|i: int| 0 <= i < slot(p, key) implies !lex_less(
                key,
                (#[trigger] p[i]).0,
            ) by {
                assert(q[i] == p[i]);
            }
        } else {
            assert forall|i: int| 0 <= i < p.len() implies !lex_less(key, (#[trigger] p[i]).0) by {
                let last = p.last().0;
                lex_total(key, last);
                if lex_less(key, p[i].0) && i < p.len() - 1 {
                    assert(!lex_less(p[p.len() - 1].0, p[i].0));
                    lex_total(last, p[i].0);
                    if key == last {
                    } else {
                        if last == p[i].0 {
                        } else {
                            lex_transitive(key, p[i].0, last);
                        }
                    }
                }
            }
        }
    }
}

/// Sorting puts the items in order and neither loses nor adds one.
pub proof fn sorting_is_a_permutation<T>(p: Seq<(Seq<u8>, T)>)
    ensures
        in_order(sorted(p)),
        sorted(p).len() == p.len(),
        sorted(p).to_multiset() == p.to_multiset(),
    decreases p.len(),
{
    if p.len() > 0 {
        let q = p.drop_last();
        sorting_is_a_permutation(q);
        let rest = sorted(q);
        let x = p.last();
        let at = slot(rest, x.0);
        lemma_slot(rest, x.0);
        let all = rest.insert(at, x);
        assert forall|i: int, j: int| 0 <= i < j < all.len() implies !lex_less(
            (#[trigger] all[j]).0,
            (#[trigger] all[i]).0,
        ) by {
            if i == at {
                assert(all[j] == rest[j - 1]);
                lex_total(x.0, rest[j - 1].0);
            } else if j == at {
                assert(all[i] == rest[i]);
            } else {
                let a = if i < at {
                    i
                } else {
                    i - 1
                };
                let b = if j < at {
                    j
                } else {
                    j - 1
                };
                assert(all[i] == rest[a]);
                assert(all[j] == rest[b]);
            }
        }
        broadcast use vstd::seq_lib::group_to_multiset_ensures;

        assert(all =~= rest.insert(at, x));
        assert(p =~= q.push(x));
        assert(all.to_multiset() =~= rest.to_multiset().insert(x));
        assert(p.to_multiset() =~= q.to_multiset().insert(x));
    } else {
        assert(sorted(p) =~= p);
    }
}

/// Items that are in order already stay where they are.
pub proof fn sorting_keeps_order<T>(p: Seq<(Seq<u8>, T)>)
    requires
        forall|i: int| 0 <= i < p.len() - 1 ==> !lex_less((#[trigger] p[i + 1]).0, p[i].0),
    ensures
        sorted(p) == p,
    decreases p.len(),
{
    if p.len() > 0 {
        let q = p.drop_last();
        assert forall|i: int| 0 <= i < q.len() - 1 implies !lex_less(
            (#[trigger] q[i + 1]).0,
            q[i].0,
        ) by {
            assert(q[i + 1] == p[i + 1]);
        }
        sorting_keeps_order(q);
        if q.len() > 0 {
            assert(p[(q.len() - 1) + 1] == p.last());
            assert(q.last() == p[q.len() - 1]);
        }
        assert(slot(q, p.last().0) == q.len());
        assert(q.insert(q.len() as int, p.last()) =~= p);
    } else {
        assert(sorted(p) =~= p);
    }
}

} // verus!
