//! Keeping a reply within what one datagram may carry.

use vstd::prelude::*;

use crate::bencode::{
    encode, encode_bytes, encode_to_vec, encoded_length, entry_index, first_with_key,
    lemma_model_entries, lemma_model_list, lookup, model_entries, model_list, Bencode, Value,
};
use crate::sums::{total, total_is_monotone, total_of_remove, total_of_update};
use crate::words;
use crate::words::{w_nodes, w_nodes6, w_r, w_values};

verus! {

/// The largest reply.
pub const MAX_KRPC_RESPONSE_BYTES: usize = 1024;

/// As many whole items of `width` bytes as a reply could hold at most.
pub open spec fn whole_items(n: nat, width: int) -> int {
    let most = 1024int / width * width;
    (if n < most {
        n as int
    } else {
        most
    }) / width * width
}

/// The entries with what stands under `key` cut down to what a reply could hold at most. What is
/// neither a list of values nor a byte string goes.
pub open spec fn capped(body: Seq<(Seq<u8>, Bencode)>, key: Seq<u8>, width: int) -> Seq<
    (Seq<u8>, Bencode),
> {
    let i = first_with_key(body, key);
    if i >= body.len() {
        body
    } else {
        match body[i].1 {
            Bencode::List(l) => if key == w_values() {
                body.update(
                    i,
                    (
                        key,
                        Bencode::List(
                            if l.len() <= 170 {
                                l
                            } else {
                                l.take(170)
                            },
                        ),
                    ),
                )
            } else {
                body.remove(i)
            },
            Bencode::Bytes(b) => body.update(
                i,
                (key, Bencode::Bytes(b.take(whole_items(b.len(), width)))),
            ),
            _ => body.remove(i),
        }
    }
}

/// The entries with what stands under `key` halved; what is empty after that goes.
pub open spec fn halved(body: Seq<(Seq<u8>, Bencode)>, key: Seq<u8>, width: int) -> Seq<
    (Seq<u8>, Bencode),
> {
    let i = first_with_key(body, key);
    match body[i].1 {
        Bencode::List(l) => {
            let n = l.len() as int / 2;
            if n > 0 {
                body.update(i, (key, Bencode::List(l.take(n))))
            } else {
                body.remove(i)
            }
        },
        Bencode::Bytes(b) => {
            let n = b.len() as int / width / 2 * width;
            if n > 0 {
                body.update(i, (key, Bencode::Bytes(b.take(n))))
            } else {
                body.remove(i)
            }
        },
        _ => body.remove(i),
    }
}

/// True when an entry stands under `key`.
pub open spec fn holds(body: Seq<(Seq<u8>, Bencode)>, key: Seq<u8>) -> bool {
    first_with_key(body, key) < body.len()
}

/// The next shorter form: peers are given up first, contacts of the older address family last.
pub open spec fn shorter(body: Seq<(Seq<u8>, Bencode)>) -> Option<Seq<(Seq<u8>, Bencode)>> {
    if holds(body, w_values()) {
        Some(halved(body, w_values(), 26))
    } else if holds(body, w_nodes6()) {
        Some(halved(body, w_nodes6(), 38))
    } else if holds(body, w_nodes()) {
        Some(halved(body, w_nodes(), 26))
    } else {
        None
    }
}

/// What an entry counts toward the length of the search.
pub open spec fn bulk(e: (Seq<u8>, Bencode)) -> nat {
    match e.1 {
        Bencode::List(l) => 1 + l.len(),
        Bencode::Bytes(b) => 1 + b.len(),
        _ => 1,
    }
}

proof fn lemma_first(body: Seq<(Seq<u8>, Bencode)>, key: Seq<u8>)
    ensures
        0 <= first_with_key(body, key) <= body.len(),
        first_with_key(body, key) < body.len() ==> body[first_with_key(body, key)].0 == key,
    decreases body.len(),
{
    if body.len() > 0 && body[0].0 != key {
        lemma_first(body.drop_first(), key);
    }
}

proof fn lemma_halved_is_less(body: Seq<(Seq<u8>, Bencode)>, key: Seq<u8>, width: int)
    requires
        holds(body, key),
        width > 0,
    ensures
        total(halved(body, key, width), |e: (Seq<u8>, Bencode)| bulk(e)) < total(
            body,
            |e: (Seq<u8>, Bencode)| bulk(e),
        ),
{
    let f = |e: (Seq<u8>, Bencode)| bulk(e);
    lemma_first(body, key);
    let i = first_with_key(body, key);
    total_of_remove(body, i, f);
    match body[i].1 {
        Bencode::List(l) => {
            let n = l.len() as int / 2;
            if n > 0 {
                total_of_update(body, i, (key, Bencode::List(l.take(n))), f);
            }
        },
        Bencode::Bytes(b) => {
            let n = b.len() as int / width / 2 * width;
            if n > 0 {
                let q = b.len() as int / width;
                assert(q / 2 * width < b.len()) by (nonlinear_arith)
                    requires
                        q == b.len() as int / width,
                        width > 0,
                        q / 2 * width > 0,
                ;
                total_of_update(body, i, (key, Bencode::Bytes(b.take(n))), f);
            }
        },
        _ => {},
    }
}

/// The reply with `body` for its results.
pub open spec fn with_body(
    response: Seq<(Seq<u8>, Bencode)>,
    body: Seq<(Seq<u8>, Bencode)>,
) -> Seq<(Seq<u8>, Bencode)> {
    response.update(first_with_key(response, w_r()), (w_r(), Bencode::Dict(body)))
}

/// The reply, its results made shorter until it fits or nothing is left to give up.
pub open spec fn fitted(
    response: Seq<(Seq<u8>, Bencode)>,
    body: Seq<(Seq<u8>, Bencode)>,
) -> Seq<u8>
    decreases total(body, |e: (Seq<u8>, Bencode)| bulk(e)),
    via fitted_gets_shorter
{
    let whole = encode(Bencode::Dict(with_body(response, body)));
    if whole.len() <= 1024 {
        whole
    } else {
        match shorter(body) {
            None => whole,
            Some(b) => fitted(response, b),
        }
    }
}

#[via_fn]
proof fn fitted_gets_shorter(
    response: Seq<(Seq<u8>, Bencode)>,
    body: Seq<(Seq<u8>, Bencode)>,
) {
    lemma_shorter(body);
}

/// Each shorter form holds less.
pub proof fn lemma_shorter(body: Seq<(Seq<u8>, Bencode)>)
    ensures
        shorter(body) matches Some(b) ==> total(b, |e: (Seq<u8>, Bencode)| bulk(e)) < total(
            body,
            |e: (Seq<u8>, Bencode)| bulk(e),
        ),
{
    if holds(body, w_values()) {
        lemma_halved_is_less(body, w_values(), 26);
    } else if holds(body, w_nodes6()) {
        lemma_halved_is_less(body, w_nodes6(), 38);
    } else if holds(body, w_nodes()) {
        lemma_halved_is_less(body, w_nodes(), 26);
    }
}

/// The results cut down to what a reply could hold at most.
pub open spec fn all_capped(body: Seq<(Seq<u8>, Bencode)>) -> Seq<(Seq<u8>, Bencode)> {
    capped(capped(capped(body, w_values(), 6), w_nodes(), 26), w_nodes6(), 38)
}

/// The bytes of a reply that is kept within the limit.
pub open spec fn bounded(response: Seq<(Seq<u8>, Bencode)>) -> Seq<u8> {
    match lookup(response, w_r()) {
        Some(Bencode::Dict(body)) => fitted(response, all_capped(body)),
        _ => encode(Bencode::Dict(response)),
    }
}

/// The largest multiple of `width` that is not above `n`.
fn round_down(n: usize, width: usize) -> (r: usize)
    requires
        width > 0,
    ensures
        r == n as int / width as int * width as int,
        r <= n,
{
    proof {
        let (a, w) = (n as int, width as int);
        assert(0 <= a / w * w <= a) by (nonlinear_arith)
            requires
                a >= 0,
                w > 0,
        ;
    }
    n / width * width
}

fn shorten_list(l: &mut Vec<Value>, n: usize)
    requires
        n <= old(l).len(),
    ensures
        model_list(final(l)@) == model_list(old(l)@).take(n as int),
{
    proof {
        lemma_model_list(l@);
        lemma_model_list(l@.take(n as int));
    }
    l.truncate(n);
    assert(model_list(l@) =~= model_list(old(l)@).take(n as int));
}

fn put_back(body: &mut Vec<(Vec<u8>, Value)>, i: usize, key: Vec<u8>, value: Value)
    requires
        i <= old(body).len(),
    ensures
        model_entries(final(body)@) == model_entries(old(body)@).insert(i as int, (key@, value@)),
{
    proof {
        lemma_model_entries(body@);
    }
    body.insert(i, (key, value));
    proof {
        lemma_model_entries(body@);
        assert(model_entries(body@) =~= model_entries(old(body)@).insert(
            i as int,
            (key@, value@),
        ));
    }
}

fn take_out(body: &mut Vec<(Vec<u8>, Value)>, i: usize) -> (r: (Vec<u8>, Value))
    requires
        i < old(body).len(),
    ensures
        r == old(body)@[i as int],
        (r.0@, r.1@) == model_entries(old(body)@)[i as int],
        model_entries(final(body)@) == model_entries(old(body)@).remove(i as int),
        final(body).len() == old(body).len() - 1,
{
    proof {
        lemma_model_entries(body@);
    }
    let r = body.remove(i);
    proof {
        lemma_model_entries(body@);
        assert(model_entries(body@) =~= model_entries(old(body)@).remove(i as int));
    }
    r
}

fn cap_field(body: &mut Vec<(Vec<u8>, Value)>, key: &[u8], width: usize)
    requires
        0 < width <= 1024,
    ensures
        model_entries(final(body)@) == capped(model_entries(old(body)@), key@, width as int),
{
    let i: usize = entry_index(body, key);
    let ghost before = model_entries(body@);
    proof {
        lemma_model_entries(body@);
    }
    if i == body.len() {
        return;
    }
    let (name, value) = take_out(body, i);
    let is_values = crate::bencode::same_bytes(key, words::values().as_slice());
    match value {
        Value::List(mut l) => {
            if is_values {
                let ghost whole = l@;
                proof {
                    lemma_model_list(l@);
                }
                if l.len() > 170 {
                    shorten_list(&mut l, 170);
                }
                put_back(body, i, name, Value::List(l));
                assert(model_entries(body@) =~= capped(before, key@, width as int));
            }
        },
        Value::Bytes(mut b) => {
            let most: usize = round_down(1024, width);
            let n: usize = round_down(
                if b.len() < most {
                    b.len()
                } else {
                    most
                },
                width,
            );
            b.truncate(n);
            put_back(body, i, name, Value::Bytes(b));
            assert(model_entries(body@) =~= capped(before, key@, width as int));
        },
        _ => {},
    }
}

fn halve_field(body: &mut Vec<(Vec<u8>, Value)>, key: &[u8], width: usize) -> (r: bool)
    requires
        width > 0,
    ensures
        r == holds(model_entries(old(body)@), key@),
        model_entries(final(body)@) == (if r {
            halved(model_entries(old(body)@), key@, width as int)
        } else {
            model_entries(old(body)@)
        }),
{
    let i: usize = entry_index(body, key);
    let ghost before = model_entries(body@);
    proof {
        lemma_model_entries(body@);
    }
    if i == body.len() {
        return false;
    }
    let (name, value) = take_out(body, i);
    match value {
        Value::List(mut l) => {
            proof {
                lemma_model_list(l@);
            }
            let n: usize = l.len() / 2;
            if n > 0 {
                shorten_list(&mut l, n);
                put_back(body, i, name, Value::List(l));
                assert(model_entries(body@) =~= halved(before, key@, width as int));
            }
        },
        Value::Bytes(mut b) => {
            let half: usize = b.len() / width / 2;
            proof {
                let (h, a, w) = (half as int, b.len() as int, width as int);
                assert(0 <= h * w <= a) by (nonlinear_arith)
                    requires
                        a >= 0,
                        w > 0,
                        h == a / w / 2,
                ;
            }
            let n: usize = half * width;
            if n > 0 {
                b.truncate(n);
                put_back(body, i, name, Value::Bytes(b));
                assert(model_entries(body@) =~= halved(before, key@, width as int));
            }
        },
        _ => {},
    }
    true
}

fn shorten(body: &mut Vec<(Vec<u8>, Value)>) -> (r: bool)
    ensures
        match shorter(model_entries(old(body)@)) {
            Some(b) => r && model_entries(final(body)@) == b,
            None => !r && model_entries(final(body)@) == model_entries(old(body)@),
        },
{
    halve_field(body, words::values().as_slice(), 26) || halve_field(
        body,
        words::nodes6().as_slice(),
        38,
    ) || halve_field(body, words::nodes().as_slice(), 26)
}

/// The bytes of a reply, its results cut down until it fits into a datagram or nothing is left to
/// give up.
pub fn bounded_response_bytes(response: Vec<(Vec<u8>, Value)>) -> (r: Vec<u8>)
    ensures
        r@ == bounded(model_entries(response@)),
{
    let ghost whole = model_entries(response@);
    let mut parts = response;
    let at: usize = entry_index(&parts, words::r().as_slice());
    proof {
        lemma_model_entries(parts@);
    }
    if at == parts.len() {
        return encode_to_vec(&Value::Dict(parts));
    }
    let (name, value) = take_out(&mut parts, at);
    let mut body = match value {
        Value::Dict(d) => d,
        other => {
            put_back(&mut parts, at, name, other);
            assert(model_entries(parts@) =~= whole);
            return encode_to_vec(&Value::Dict(parts));
        },
    };
    cap_field(&mut body, words::values().as_slice(), 6);
    cap_field(&mut body, words::nodes().as_slice(), 26);
    cap_field(&mut body, words::nodes6().as_slice(), 38);
    put_back(&mut parts, at, name, Value::Dict(body));
    let mut message = Value::Dict(parts);
    proof {
        lemma_model_entries(message->Dict_0@);
        assert(message@->Dict_0 =~= with_body(whole, all_capped(whole[at as int].1->Dict_0)));
    }
    let ghost mut current = all_capped(whole[at as int].1->Dict_0);
    loop
        invariant
            whole == model_entries(response@),
            at == first_with_key(whole, w_r()),
            at < whole.len(),
            message@ == Bencode::Dict(with_body(whole, current)),
            message is Dict,
            message->Dict_0@.len() == whole.len(),
            whole[at as int].0 == w_r(),
            bounded(whole) == fitted(whole, current),
        decreases total(current, |e: (Seq<u8>, Bencode)| bulk(e)),
    {
        let encoded = encode_to_vec(&message);
        if encoded.len() <= MAX_KRPC_RESPONSE_BYTES {
            return encoded;
        }
        let mut entries = match message {
            Value::Dict(d) => d,
            _ => {
                return encoded;
            },
        };
        let (name, value) = take_out(&mut entries, at);
        let mut body = match value {
            Value::Dict(d) => d,
            _ => {
                return encoded;
            },
        };
        proof {
            lemma_shorter(current);
        }
        let again = shorten(&mut body);
        if !again {
            return encoded;
        }
        proof {
            current = shorter(current)->Some_0;
        }
        put_back(&mut entries, at, name, Value::Dict(body));
        proof {
            lemma_model_entries(entries@);
            assert(model_entries(entries@) =~= with_body(whole, current));
        }
        message = Value::Dict(entries);
    }
}

/// What an entry that is never given up adds to a reply.
pub open spec fn kept_bytes(e: (Seq<u8>, Bencode)) -> nat {
    if e.0 == w_values() || e.0 == w_nodes() || e.0 == w_nodes6() {
        0
    } else {
        encode_bytes(e.0).len() + encode(e.1).len()
    }
}

/// What the entries that are never given up take.
pub open spec fn kept(body: Seq<(Seq<u8>, Bencode)>) -> nat {
    total(body, |e: (Seq<u8>, Bencode)| kept_bytes(e))
}

proof fn lemma_capped_keeps(body: Seq<(Seq<u8>, Bencode)>, key: Seq<u8>, width: int)
    requires
        key == w_values() || key == w_nodes() || key == w_nodes6(),
    ensures
        kept(capped(body, key, width)) == kept(body),
{
    let f = |e: (Seq<u8>, Bencode)| kept_bytes(e);
    lemma_first(body, key);
    let i = first_with_key(body, key);
    if i < body.len() {
        total_of_remove(body, i, f);
        match body[i].1 {
            Bencode::List(l) => {
                let m = Bencode::List(
                    if l.len() <= 170 {
                        l
                    } else {
                        l.take(170)
                    },
                );
                total_of_update(body, i, (key, m), f);
            },
            Bencode::Bytes(b) => {
                total_of_update(
                    body,
                    i,
                    (key, Bencode::Bytes(b.take(whole_items(b.len(), width)))),
                    f,
                );
            },
            _ => {},
        }
    }
}

proof fn lemma_halved_keeps(body: Seq<(Seq<u8>, Bencode)>, key: Seq<u8>, width: int)
    requires
        holds(body, key),
        key == w_values() || key == w_nodes() || key == w_nodes6(),
    ensures
        kept(halved(body, key, width)) == kept(body),
{
    let f = |e: (Seq<u8>, Bencode)| kept_bytes(e);
    lemma_first(body, key);
    let i = first_with_key(body, key);
    total_of_remove(body, i, f);
    match body[i].1 {
        Bencode::List(l) => {
            total_of_update(body, i, (key, Bencode::List(l.take(l.len() as int / 2))), f);
        },
        Bencode::Bytes(b) => {
            let n = b.len() as int / width / 2 * width;
            total_of_update(body, i, (key, Bencode::Bytes(b.take(n))), f);
        },
        _ => {},
    }
}

proof fn lemma_absent(body: Seq<(Seq<u8>, Bencode)>, key: Seq<u8>, i: int)
    requires
        !holds(body, key),
        0 <= i < body.len(),
    ensures
        body[i].0 != key,
    decreases body.len(),
{
    if body[0].0 != key && i > 0 {
        lemma_absent(body.drop_first(), key, i - 1);
    }
}

proof fn lemma_nothing_left(body: Seq<(Seq<u8>, Bencode)>)
    requires
        shorter(body) is None,
    ensures
        encode(Bencode::Dict(body)).len() == 2 + kept(body),
{
    let f = |e: (Seq<u8>, Bencode)| kept_bytes(e);
    let g = |e: (Seq<u8>, Bencode)| (encode_bytes(e.0).len() + encode(e.1).len()) as nat;
    encoded_length(body);
    assert forall|i: int| 0 <= i < body.len() implies f(#[trigger] body[i]) == g(body[i]) by {
        lemma_absent(body, w_values(), i);
        lemma_absent(body, w_nodes(), i);
        lemma_absent(body, w_nodes6(), i);
    }
    total_is_monotone(body, f, g);
    total_is_monotone(body, g, f);
}

proof fn lemma_fitted(response: Seq<(Seq<u8>, Bencode)>, body: Seq<(Seq<u8>, Bencode)>)
    requires
        holds(response, w_r()),
    ensures
        fitted(response, body).len() <= 1024 || fitted(response, body).len() <= encode(
            Bencode::Dict(with_body(response, seq![])),
        ).len() + kept(body),
    decreases total(body, |e: (Seq<u8>, Bencode)| bulk(e)),
{
    lemma_shorter(body);
    if encode(Bencode::Dict(with_body(response, body))).len() > 1024 {
        match shorter(body) {
            None => {
                let f = |e: (Seq<u8>, Bencode)|
                    (encode_bytes(e.0).len() + encode(e.1).len()) as nat;
                lemma_first(response, w_r());
                let i = first_with_key(response, w_r());
                let none = Seq::<(Seq<u8>, Bencode)>::empty();
                lemma_nothing_left(body);
                encoded_length(none);
                encoded_length(with_body(response, body));
                encoded_length(with_body(response, none));
                assert(with_body(response, seq![]) == with_body(response, none));
                total_of_update(response, i, (w_r(), Bencode::Dict(body)), f);
                total_of_update(response, i, (w_r(), Bencode::Dict(none)), f);
            },
            Some(b) => {
                if holds(body, w_values()) {
                    lemma_halved_keeps(body, w_values(), 26);
                } else if holds(body, w_nodes6()) {
                    lemma_halved_keeps(body, w_nodes6(), 38);
                } else {
                    lemma_halved_keeps(body, w_nodes(), 26);
                }
                lemma_fitted(response, b);
            },
        }
    }
}

/// A reply is within the limit wherever what it may not give up is: only the lists of peers and
/// contacts are ever cut down.
pub proof fn replies_fit(response: Seq<(Seq<u8>, Bencode)>, body: Seq<(Seq<u8>, Bencode)>)
    requires
        lookup(response, w_r()) == Some(Bencode::Dict(body)),
        encode(Bencode::Dict(with_body(response, seq![]))).len() + kept(body) <= 1024,
    ensures
        bounded(response).len() <= 1024,
{
    lemma_capped_keeps(body, w_values(), 6);
    lemma_capped_keeps(capped(body, w_values(), 6), w_nodes(), 26);
    lemma_capped_keeps(capped(capped(body, w_values(), 6), w_nodes(), 26), w_nodes6(), 38);
    lemma_fitted(response, all_capped(body));
}

} // verus!
