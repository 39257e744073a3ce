//! Dictionaries that are put together entry by entry, in the order of their keys.

use vstd::prelude::*;

use crate::bencode::{
    canonical, canonical_entries, decimal, encode, encode_bytes, encoded_length, first_with_key,
    height, height_entries, lookup, model, model_entries, push_entry, size, size_entries, Bencode,
    Value,
};
use crate::order::{lex_less, lex_total, lex_transitive};

verus! {

/// The entries with one more, where there is a value for it.
pub open spec fn with_entry(
    d: Seq<(Seq<u8>, Bencode)>,
    key: Seq<u8>,
    value: Option<Bencode>,
) -> Seq<(Seq<u8>, Bencode)> {
    match value {
        Some(v) => d.push((key, v)),
        None => d,
    }
}

/// The mathematical value of a value that may be absent.
pub open spec fn model_option(value: Option<Value>) -> Option<Bencode> {
    match value {
        Some(v) => Some(model(v)),
        None => None,
    }
}

/// One entry more, where there is a value for it.
pub fn put_entry(d: &mut Vec<(Vec<u8>, Value)>, key: Vec<u8>, value: Option<Value>)
    ensures
        model_entries(final(d)@) == with_entry(
            model_entries(old(d)@),
            key@,
            model_option(value),
        ),
{
    if let Some(v) = value {
        push_entry(d, key, v);
    }
}

/// True when every key is less than `key`.
pub open spec fn all_before(d: Seq<(Seq<u8>, Bencode)>, key: Seq<u8>) -> bool {
    forall|i: int| 0 <= i < d.len() ==> lex_less((#[trigger] d[i]).0, key)
}

proof fn lemma_pushed(d: Seq<(Seq<u8>, Bencode)>, e: (Seq<u8>, Bencode))
    requires
        canonical_entries(d),
        canonical(e.1),
        d.len() > 0 ==> !lex_less(e.0, d.last().0),
    ensures
        canonical_entries(d.push(e)),
        size_entries(d.push(e)) == size_entries(d) + size(e.1),
        height_entries(d.push(e)) == (if height_entries(d) < height(e.1) {
            height(e.1)
        } else {
            height_entries(d)
        }),
    decreases d.len(),
{
    let all = d.push(e);
    if d.len() == 0 {
        assert(all.drop_first() =~= seq![]);
        assert(size_entries(all.drop_first()) == 0);
        assert(height_entries(all.drop_first()) == 0);
        assert(canonical_entries(all.drop_first()));
    } else {
        assert(all.drop_first() =~= d.drop_first().push(e));
        assert(all[0] == d[0]);
        lemma_pushed(d.drop_first(), e);
        if d.len() > 1 {
            assert(all[1] == d[1]);
        } else {
            assert(d.last() == d[0]);
            assert(all[1] == e);
        }
    }
}

proof fn lemma_lookup_pushed(d: Seq<(Seq<u8>, Bencode)>, e: (Seq<u8>, Bencode), key: Seq<u8>)
    ensures
        0 <= first_with_key(d, key) <= d.len(),
        lookup(d.push(e), key) == (if first_with_key(d, key) < d.len() {
            lookup(d, key)
        } else if e.0 == key {
            Some(e.1)
        } else {
            None
        }),
        first_with_key(d.push(e), key) == (if first_with_key(d, key) < d.len() || e.0 == key {
            first_with_key(d, key)
        } else {
            d.len() as int + 1
        }),
    decreases d.len(),
{
    let all = d.push(e);
    if d.len() == 0 {
        assert(all.drop_first() =~= seq![]);
        assert(first_with_key(all.drop_first(), key) == 0);
    } else {
        assert(all.drop_first() =~= d.drop_first().push(e));
        assert(all[0] == d[0]);
        lemma_lookup_pushed(d.drop_first(), e, key);
    }
}

proof fn lemma_absent(d: Seq<(Seq<u8>, Bencode)>, key: Seq<u8>)
    requires
        all_before(d, key),
    ensures
        first_with_key(d, key) == d.len(),
    decreases d.len(),
{
    if d.len() > 0 {
        lex_total(d[0].0, key);
        let rest = d.drop_first();
        assert forall|i: int| 0 <= i < rest.len() implies lex_less((#[trigger] rest[i]).0, key) by {
            assert(rest[i] == d[i + 1]);
        }
        lemma_absent(rest, key);
    }
}

/// An entry that is put behind lesser keys keeps a dictionary in order, is found under its key,
/// and leaves what is found under every other.
pub proof fn adding_an_entry(d: Seq<(Seq<u8>, Bencode)>, key: Seq<u8>, value: Option<Bencode>)
    requires
        canonical_entries(d),
        all_before(d, key),
        value matches Some(v) ==> canonical(v),
    ensures
        canonical_entries(with_entry(d, key, value)),
        lookup(with_entry(d, key, value), key) == value,
        forall|k: Seq<u8>|
            k != key ==> #[trigger] lookup(with_entry(d, key, value), k) == lookup(d, k),
        forall|later: Seq<u8>|
            lex_less(key, later) ==> #[trigger] all_before(with_entry(d, key, value), later),
        size_entries(with_entry(d, key, value)) == size_entries(d) + (match value {
            Some(v) => size(v),
            None => 0,
        }),
        height_entries(with_entry(d, key, value)) == (match value {
            Some(v) => if height_entries(d) < height(v) {
                height(v)
            } else {
                height_entries(d)
            },
            None => height_entries(d),
        }),
{
    let all = with_entry(d, key, value);
    lemma_absent(d, key);
    if let Some(v) = value {
        if d.len() > 0 {
            lex_total(key, d.last().0);
            assert(d[d.len() - 1] == d.last());
        }
        lemma_pushed(d, (key, v));
        lemma_lookup_pushed(d, (key, v), key);
        assert forall|k: Seq<u8>| k != key implies #[trigger] lookup(all, k) == lookup(d, k) by {
            lemma_lookup_pushed(d, (key, v), k);
        }
    }
    assert forall|later: Seq<u8>| lex_less(key, later) implies #[trigger] all_before(
        all,
        later,
    ) by {
        assert forall|i: int| 0 <= i < all.len() implies lex_less((#[trigger] all[i]).0, later) by {
            if i < d.len() {
                assert(all[i] == d[i]);
                lex_transitive(d[i].0, key, later);
            }
        }
    }
}

/// One entry more makes a dictionary longer by its key and its value.
pub proof fn longer_by_an_entry(d: Seq<(Seq<u8>, Bencode)>, key: Seq<u8>, value: Bencode)
    ensures
        encode(Bencode::Dict(with_entry(d, key, Some(value)))).len() == encode(
            Bencode::Dict(d),
        ).len() + encode_bytes(key).len() + encode(value).len(),
{
    let all = with_entry(d, key, Some(value));
    encoded_length(d);
    encoded_length(all);
    assert(all.drop_last() =~= d);
}

/// A byte string is written with its length in front, which has no more digits than it has bytes,
/// and at least one.
pub proof fn byte_string_length(s: Seq<u8>)
    ensures
        encode_bytes(s).len() <= 2 * s.len() + 2,
{
    lemma_few_digits(s.len());
}

proof fn lemma_few_digits(n: nat)
    ensures
        decimal(n).len() <= n + 1,
    decreases n,
{
    if n >= 10 {
        lemma_few_digits(n / 10);
    }
}

} // verus!
