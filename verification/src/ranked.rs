//! Items in the order of their keys, one for each key.

use vstd::prelude::*;

use crate::bencode::same_bytes;
use crate::meta::hash::{Id20, Id32};
use crate::order::{bytes_less, lex_less, lex_total, lex_transitive};

verus! {

/// How many keys at the front are less than `key`.
pub open spec fn rank<V>(m: Seq<(Seq<u8>, V)>, key: Seq<u8>) -> int
    decreases m.len(),
{
    if m.len() == 0 {
        0
    } else if lex_less(m[0].0, key) {
        1 + rank(m.drop_first(), key)
    } else {
        0
    }
}

/// True when an item stands under `key`.
pub open spec fn ranked_has<V>(m: Seq<(Seq<u8>, V)>, key: Seq<u8>) -> bool {
    rank(m, key) < m.len() && m[rank(m, key)].0 == key
}

/// The items with `value` under `key`.
pub open spec fn ranked_put<V>(m: Seq<(Seq<u8>, V)>, key: Seq<u8>, value: V) -> Seq<
    (Seq<u8>, V),
> {
    if ranked_has(m, key) {
        m.update(rank(m, key), (key, value))
    } else {
        m.insert(rank(m, key), (key, value))
    }
}

/// True when the keys rise.
pub open spec fn ranked<V>(m: Seq<(Seq<u8>, V)>) -> bool {
    forall|i: int, j: int|
        0 <= i < j < m.len() ==> lex_less((#[trigger] m[i]).0, (#[trigger] m[j]).0)
}

/// The rank divides the keys that are less from those that are not.
pub proof fn lemma_rank<V>(m: Seq<(Seq<u8>, V)>, key: Seq<u8>)
    requires
        ranked(m),
    ensures
        0 <= rank(m, key) <= m.len(),
        forall|i: int| 0 <= i < rank(m, key) ==> lex_less((#[trigger] m[i]).0, key),
        forall|i: int| rank(m, key) <= i < m.len() ==> !lex_less((#[trigger] m[i]).0, key),
    decreases m.len(),
{
    if m.len() > 0 {
        let rest = m.drop_first();
        if lex_less(m[0].0, key) {
            assert(ranked(rest)) by {
                assert forall|i: int, j: int| 0 <= i < j < rest.len() implies lex_less(
                    (#[trigger] rest[i]).0,
                    (#[trigger] rest[j]).0,
                ) by {
                    assert(rest[i] == m[i + 1] && rest[j] == m[j + 1]);
                }
            }
            lemma_rank(rest, key);
            assert forall|i: int| 0 <= i < rank(m, key) implies lex_less(
                (#[trigger] m[i]).0,
                key,
            ) by {
                if i > 0 {
                    assert(rest[i - 1] == m[i]);
                }
            }
            assert forall|i: int| rank(m, key) <= i < m.len() implies !lex_less(
                (#[trigger] m[i]).0,
                key,
            ) by {
                assert(rest[i - 1] == m[i]);
            }
        } else {
            assert forall|i: int| 0 <= i < m.len() implies !lex_less((#[trigger] m[i]).0, key) by {
                if i > 0 && lex_less(m[i].0, key) {
                    lex_transitive(m[0].0, m[i].0, key);
                }
            }
        }
    }
}

/// Putting an item under a key keeps the keys in order.
pub proof fn ranked_put_keeps_order<V>(m: Seq<(Seq<u8>, V)>, key: Seq<u8>, value: V)
    requires
        ranked(m),
    ensures
        ranked(ranked_put(m, key, value)),
{
    lemma_rank(m, key);
    let at = rank(m, key);
    let out = ranked_put(m, key, value);
    if ranked_has(m, key) {
        assert forall|i: int, j: int| 0 <= i < j < out.len() implies lex_less(
            (#[trigger] out[i]).0,
            (#[trigger] out[j]).0,
        ) by {
            assert(out[i].0 == m[i].0 && out[j].0 == m[j].0);
        }
    } else {
        assert forall|i: int, j: int| 0 <= i < j < out.len() implies lex_less(
            (#[trigger] out[i]).0,
            (#[trigger] out[j]).0,
        ) by {
            if i == at {
                assert(out[j] == m[j - 1]);
                lex_total(key, m[j - 1].0);
                if m[j - 1].0 == key {
                    if j - 1 == at {
                    } else {
                        assert(lex_less(m[at].0, m[j - 1].0));
                    }
                }
            } else if j == at {
                assert(out[i] == m[i]);
            } else {
                let a = if i < at {
                    i
                } else {
                    i - 1
                };
                let b = if j < at {
                    j
                } else {
                    j - 1
                };
                assert(out[i] == m[a] && out[j] == m[b]);
            }
        }
    }
}

/// What stands among ranked items after one was put under a key: that item, and those under other
/// keys that stood there before.
pub proof fn ranked_put_members<V>(m: Seq<(Seq<u8>, V)>, key: Seq<u8>, value: V)
    requires
        ranked(m),
    ensures
        forall|k: Seq<u8>, v: V| #[trigger]
            ranked_put(m, key, value).contains((k, v)) <==> if k == key {
                v == value
            } else {
                m.contains((k, v))
            },
{
    lemma_rank(m, key);
    let at = rank(m, key);
    let out = ranked_put(m, key, value);
    assert(out[at] == (key, value));
    assert forall|k: Seq<u8>, v: V| #[trigger] out.contains((k, v)) <==> if k == key {
        v == value
    } else {
        m.contains((k, v))
    } by {
        if out.contains((k, v)) {
            let i = choose|i: int| 0 <= i < out.len() && out[i] == (k, v);
            if i != at {
                let j = if ranked_has(m, key) || i < at {
                    i
                } else {
                    i - 1
                };
                assert(out[i] == m[j]);
                assert(m.contains(m[j]));
                if k == key {
                    lemma_key_at_rank(m, key, j);
                    assert(false);
                }
            }
        }
        if k == key && v == value {
            assert(out.contains(out[at]));
        }
        if k != key && m.contains((k, v)) {
            let j = choose|j: int| 0 <= j < m.len() && m[j] == (k, v);
            let i = if ranked_has(m, key) || j < at {
                j
            } else {
                j + 1
            };
            assert(out[i] == (k, v));
        }
    }
}

proof fn lemma_key_at_rank<V>(m: Seq<(Seq<u8>, V)>, key: Seq<u8>, j: int)
    requires
        ranked(m),
        0 <= j < m.len(),
        m[j].0 == key,
    ensures
        rank(m, key) == j,
        ranked_has(m, key),
{
    lemma_rank(m, key);
    let at = rank(m, key);
    lex_total(key, key);
    if at < j {
        assert(lex_less(m[at].0, m[j].0));
    }
}

/// An item stands under a key exactly where the key is that of an item.
pub proof fn ranked_has_its_keys<V>(m: Seq<(Seq<u8>, V)>, key: Seq<u8>)
    requires
        ranked(m),
    ensures
        ranked_has(m, key) <==> exists|i: int| 0 <= i < m.len() && (#[trigger] m[i]).0 == key,
{
    lemma_rank(m, key);
    if exists|i: int| 0 <= i < m.len() && (#[trigger] m[i]).0 == key {
        let i = choose|i: int| 0 <= i < m.len() && (#[trigger] m[i]).0 == key;
        lemma_key_at_rank(m, key, i);
    }
}

/// What items can be ranked by: its bytes.
pub trait Key: View<V = Seq<u8>> {
    fn key_bytes(&self) -> (r: &[u8])
        ensures
            r@ == self@,
    ;
}

impl Key for Id20 {
    fn key_bytes(&self) -> (r: &[u8]) {
        self.0.as_slice()
    }
}

impl Key for Id32 {
    fn key_bytes(&self) -> (r: &[u8]) {
        self.0.as_slice()
    }
}

impl Key for Vec<u8> {
    fn key_bytes(&self) -> (r: &[u8]) {
        self.as_slice()
    }
}

/// The mathematical value of a list of keyed items.
pub open spec fn ranking<K: Key, V: View>(s: Seq<(K, V)>) -> Seq<(Seq<u8>, V::V)> {
    Seq::new(s.len(), |i: int| (s[i].0@, s[i].1@))
}

fn rank_of<K: Key, V: View>(m: &Vec<(K, V)>, key: &K) -> (r: usize)
    ensures
        r == rank(ranking(m@), key@),
        r <= m.len(),
{
    let mut i: usize = 0;
    let ghost all = ranking(m@);
    assert(all.skip(0) =~= all);
    while i < m.len() && bytes_less(m[i].0.key_bytes(), key.key_bytes())
        invariant
            i <= m.len(),
            all == ranking(m@),
            rank(all, key@) == i + rank(all.skip(i as int), key@),
        decreases m.len() - i,
    {
        assert(all.skip(i as int).drop_first() =~= all.skip(i + 1));
        assert(all.skip(i as int)[0] == all[i as int]);
        i += 1;
    }
    if i < m.len() {
        assert(all.skip(i as int)[0] == all[i as int]);
    }
    i
}

/// Put an item under a key, in place of the one that stood there.
pub fn put<K: Key, V: View>(m: &mut Vec<(K, V)>, key: K, value: V)
    ensures
        ranking(final(m)@) == ranked_put(ranking(old(m)@), key@, value@),
{
    let at: usize = rank_of(m, &key);
    let ghost before = ranking(m@);
    if at < m.len() && same_bytes(m[at].0.key_bytes(), key.key_bytes()) {
        assert(before[at as int].0 == key@);
        let _ = m.remove(at);
        m.insert(at, (key, value));
    } else {
        if at < m.len() {
            assert(before[at as int].0 != key@);
        }
        m.insert(at, (key, value));
    }
    assert(ranking(m@) =~= ranked_put(before, key@, value@));
}

proof fn lemma_rank_is<V>(m: Seq<(Seq<u8>, V)>, key: Seq<u8>, at: int)
    requires
        ranked(m),
        0 <= at <= m.len(),
        at > 0 ==> lex_less(m[at - 1].0, key),
        at < m.len() ==> !lex_less(m[at].0, key),
    ensures
        rank(m, key) == at,
{
    lemma_rank(m, key);
}

/// The rank of a key among keys that rise, found by halving.
fn find_rank<K: Key, V: View>(m: &Vec<(K, V)>, key: &K) -> (r: usize)
    requires
        ranked(ranking(m@)),
    ensures
        r == rank(ranking(m@), key@),
        r <= m.len(),
{
    let ghost all = ranking(m@);
    let mut low: usize = 0;
    let mut high: usize = m.len();
    if high > 0 && bytes_less(m[high - 1].0.key_bytes(), key.key_bytes()) {
        low = high;
        assert(lex_less(all[high - 1].0, key@));
    }
    while low < high
        invariant
            all == ranking(m@),
            low <= high <= m.len(),
            low > 0 ==> lex_less(all[low - 1].0, key@),
            high < m.len() ==> !lex_less(all[high as int].0, key@),
        decreases high - low,
    {
        let mid: usize = low + (high - low) / 2;
        if bytes_less(m[mid].0.key_bytes(), key.key_bytes()) {
            assert(lex_less(all[mid as int].0, key@));
            low = mid + 1;
        } else {
            assert(!lex_less(all[mid as int].0, key@));
            high = mid;
        }
    }
    proof {
        lemma_rank_is(all, key@, low as int);
    }
    low
}

/// Put an item under a key among keys that rise, in place of the one that stood there.
pub fn put_in_order<K: Key, V: View>(m: &mut Vec<(K, V)>, key: K, value: V)
    requires
        ranked(ranking(old(m)@)),
    ensures
        ranking(final(m)@) == ranked_put(ranking(old(m)@), key@, value@),
        ranked(ranking(final(m)@)),
{
    let at: usize = find_rank(m, &key);
    let ghost before = ranking(m@);
    if at < m.len() && same_bytes(m[at].0.key_bytes(), key.key_bytes()) {
        assert(before[at as int].0 == key@);
        let _ = m.remove(at);
        m.insert(at, (key, value));
    } else {
        if at < m.len() {
            assert(before[at as int].0 != key@);
        }
        m.insert(at, (key, value));
    }
    proof {
        assert(ranking(m@) =~= ranked_put(before, key@, value@));
        ranked_put_keeps_order(before, key@, value@);
    }
}

/// Put an item under a key, unless one stands there already.
pub fn put_new<K: Key, V: View>(m: &mut Vec<(K, V)>, key: K, value: V) -> (r: bool)
    ensures
        r == !ranked_has(ranking(old(m)@), key@),
        ranking(final(m)@) == (if r {
            ranked_put(ranking(old(m)@), key@, value@)
        } else {
            ranking(old(m)@)
        }),
{
    let at: usize = rank_of(m, &key);
    let ghost before = ranking(m@);
    if at < m.len() && same_bytes(m[at].0.key_bytes(), key.key_bytes()) {
        assert(before[at as int].0 == key@);
        return false;
    }
    if at < m.len() {
        assert(before[at as int].0 != key@);
    }
    m.insert(at, (key, value));
    assert(ranking(m@) =~= ranked_put(before, key@, value@));
    true
}

/// Where an item stands under `key`; the number of items where there is none.
pub fn index_of<K: Key, V: View>(m: &Vec<(K, V)>, key: &K) -> (r: Option<usize>)
    ensures
        match r {
            Some(i) => ranked_has(ranking(m@), key@) && i == rank(ranking(m@), key@) && i < m.len(),
            None => !ranked_has(ranking(m@), key@),
        },
{
    let at: usize = rank_of(m, key);
    if at < m.len() && same_bytes(m[at].0.key_bytes(), key.key_bytes()) {
        assert(ranking(m@)[at as int].0 == key@);
        return Some(at);
    }
    if at < m.len() {
        assert(ranking(m@)[at as int].0 != key@);
    }
    None
}

} // verus!
