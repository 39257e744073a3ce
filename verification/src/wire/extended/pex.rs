//! Messages in which peers tell each other of the peers they know.

use bytes::Bytes;
use vstd::prelude::*;

use crate::bencode::entries::{
    adding_an_entry, byte_string_length, longer_by_an_entry, with_entry,
};
use crate::bencode::{
    bytes_field, canonical_entries, decode_all_external, decode_inverts_encode, encode,
    encode_to_vec, height_entries, lookup, parse_all, push_entry, size_entries, Bencode, Value,
};
use crate::buf::{bytes_from_vec, shared_bytes};
use crate::net::peers::{
    at_most, compact_family, compact_peers, families_round_trip, flagged_peers, of_family,
    read_compact_peers, read_flagged_peers, split_families,
};
use crate::net::SocketAddr;
use crate::order::lex_less_where_they_differ;
use crate::wire::extended::{extension_limits, spec_extension_limits};
use crate::words::{
    added6, added6_f, added_f, dropped, dropped6, w_added, w_added6, w_added6_f, w_added_f,
    w_dropped, w_dropped6,
};

verus! {

/// The most peers that a message adds, and the most that it drops.
pub const MAX_PEX_PEERS: usize = 50;

/// What a message says: peers that were met, with their flags, and peers that have gone.
#[derive(Debug, Clone, Default, PartialEq, Eq)]
pub struct UtPex {
    pub added: Vec<(SocketAddr, u8)>,
    pub dropped: Vec<SocketAddr>,
}

/// The mathematical value of a [`UtPex`].
#[verifier::ext_equal]
pub struct PexModel {
    pub added: Seq<(SocketAddr, u8)>,
    pub dropped: Seq<SocketAddr>,
}

impl View for UtPex {
    type V = PexModel;

    open spec fn view(&self) -> PexModel {
        PexModel { added: self.added@, dropped: self.dropped@ }
    }
}

/// The byte string under `key`; nothing where there is none.
pub open spec fn bytes_or_none(v: Bencode, key: Seq<u8>) -> Seq<u8> {
    match bytes_field(v, key) {
        Some(b) => b,
        None => seq![],
    }
}

/// The peers that a message adds: those of one family, and where there is room those of the other.
pub open spec fn added_in(v: Bencode) -> Seq<(SocketAddr, u8)> {
    let v4 = at_most(
        flagged_peers(bytes_or_none(v, w_added()), bytes_or_none(v, w_added_f()), false),
        MAX_PEX_PEERS as nat,
    );
    v4 + at_most(
        flagged_peers(bytes_or_none(v, w_added6()), bytes_or_none(v, w_added6_f()), true),
        (MAX_PEX_PEERS - v4.len()) as nat,
    )
}

/// The peers that a message drops.
pub open spec fn dropped_in(v: Bencode) -> Seq<SocketAddr> {
    at_most(
        compact_peers(bytes_or_none(v, w_dropped()), false) + compact_peers(
            bytes_or_none(v, w_dropped6()),
            true,
        ),
        MAX_PEX_PEERS as nat,
    )
}

/// What some bytes say, where they are a dictionary.
pub open spec fn pex_in(b: Seq<u8>) -> Option<PexModel> {
    match parse_all(b, spec_extension_limits()) {
        Ok(Bencode::Dict(d)) => Some(
            PexModel { added: added_in(Bencode::Dict(d)), dropped: dropped_in(Bencode::Dict(d)) },
        ),
        _ => None,
    }
}

fn bytes_under(v: &Value, key: &[u8]) -> (r: Vec<u8>)
    ensures
        r@ == bytes_or_none(v@, key@),
{
    match v.bytes_at(key) {
        Some(b) => {
            let copy = crate::bencode::copy_range(b.as_slice(), 0, b.len());
            assert(copy@ =~= b@);
            copy
        },
        None => Vec::new(),
    }
}

pub fn parse_ut_pex_full(payload: &[u8]) -> (r: Option<UtPex>)
    ensures
        match pex_in(payload@) {
            Some(m) => r matches Some(p) && p@ == m,
            None => r is None,
        },
{
    let value = match decode_all_external(payload, extension_limits()) {
        Err(_) => {
            return None;
        },
        Ok(v) => v,
    };
    if value.as_dict().is_none() {
        return None;
    }
    let mut added = read_flagged_peers(
        bytes_under(&value, crate::words::added().as_slice()).as_slice(),
        bytes_under(&value, added_f().as_slice()).as_slice(),
        false,
        MAX_PEX_PEERS,
    );
    let ghost v4 = added@;
    let mut more = read_flagged_peers(
        bytes_under(&value, added6().as_slice()).as_slice(),
        bytes_under(&value, added6_f().as_slice()).as_slice(),
        true,
        MAX_PEX_PEERS - added.len(),
    );
    added.append(&mut more);
    assert(added@ =~= added_in(value@));
    let mut gone = read_compact_peers(
        bytes_under(&value, dropped().as_slice()).as_slice(),
        false,
    );
    let mut more_gone = read_compact_peers(
        bytes_under(&value, dropped6().as_slice()).as_slice(),
        true,
    );
    gone.append(&mut more_gone);
    gone.truncate(MAX_PEX_PEERS);
    assert(gone@ =~= dropped_in(value@));
    Some(UtPex { added, dropped: gone })
}

/// The endpoints of peers, without their flags.
pub open spec fn bare(s: Seq<(SocketAddr, u8)>) -> Seq<SocketAddr> {
    s.map(|i: int, p: (SocketAddr, u8)| p.0)
}

/// The peers that a message adds, by their family.
pub fn parse_ut_pex(payload: &[u8]) -> (r: Option<(Vec<SocketAddr>, Vec<SocketAddr>)>)
    ensures
        match pex_in(payload@) {
            Some(m) => r matches Some((v4, v6)) && v4@ == of_family(bare(m.added), false) && v6@
                == of_family(bare(m.added), true),
            None => r is None,
        },
{
    let pex = match parse_ut_pex_full(payload) {
        None => {
            return None;
        },
        Some(p) => p,
    };
    let mut v4: Vec<SocketAddr> = Vec::new();
    let mut v6: Vec<SocketAddr> = Vec::new();
    let mut i: usize = 0;
    let ghost all = bare(pex.added@);
    assert(all.take(0) =~= seq![]);
    while i < pex.added.len()
        invariant
            i <= pex.added.len(),
            all == bare(pex.added@),
            v4@ == of_family(all.take(i as int), false),
            v6@ == of_family(all.take(i as int), true),
        decreases pex.added.len() - i,
    {
        assert(all.take(i + 1).drop_last() =~= all.take(i as int));
        let addr = pex.added[i].0;
        if addr.is_ipv4() {
            v4.push(addr);
        } else {
            v6.push(addr);
        }
        i += 1;
    }
    assert(all.take(i as int) =~= all);
    Some((v4, v6))
}

/// The endpoints that peers can have.
pub open spec fn valid_endpoints(s: Seq<SocketAddr>) -> Seq<SocketAddr>
    decreases s.len(),
{
    if s.len() == 0 {
        seq![]
    } else if s.last().spec_valid_endpoint() {
        valid_endpoints(s.drop_last()).push(s.last())
    } else {
        valid_endpoints(s.drop_last())
    }
}

/// The endpoints that a message names.
pub open spec fn named(s: Seq<SocketAddr>) -> Seq<SocketAddr> {
    at_most(valid_endpoints(s), MAX_PEX_PEERS as nat)
}

/// Flags of which none is set.
pub open spec fn no_flags(n: int) -> Seq<u8> {
    Seq::new(n as nat, |i: int| 0u8)
}

/// The entries of a message.
pub open spec fn pex_entries(added: Seq<SocketAddr>, dropped: Seq<SocketAddr>) -> Seq<
    (Seq<u8>, Bencode),
> {
    let a4 = compact_family(added, false);
    let a6 = compact_family(added, true);
    let d = with_entry(seq![], w_added(), Some(Bencode::Bytes(a4)));
    let d = with_entry(d, w_added_f(), Some(Bencode::Bytes(no_flags(a4.len() as int / 6))));
    let d = with_entry(d, w_added6(), Some(Bencode::Bytes(a6)));
    let d = with_entry(d, w_added6_f(), Some(Bencode::Bytes(no_flags(a6.len() as int / 18))));
    let d = with_entry(
        d,
        w_dropped(),
        Some(Bencode::Bytes(compact_family(dropped, false))),
    );
    with_entry(d, w_dropped6(), Some(Bencode::Bytes(compact_family(dropped, true))))
}

proof fn lemma_valid_grows(s: Seq<SocketAddr>, i: int)
    requires
        0 <= i <= s.len(),
    ensures
        valid_endpoints(s.take(i)).len() <= valid_endpoints(s).len(),
        valid_endpoints(s).take(valid_endpoints(s.take(i)).len() as int) == valid_endpoints(
            s.take(i),
        ),
    decreases s.len(),
{
    let part = valid_endpoints(s.take(i));
    let all = valid_endpoints(s);
    if i < s.len() {
        lemma_valid_grows(s.drop_last(), i);
        assert(s.drop_last().take(i) =~= s.take(i));
        let front = valid_endpoints(s.drop_last());
        assert(all.take(part.len() as int) =~= front.take(part.len() as int));
    } else {
        assert(s.take(i) =~= s);
        assert(all.take(part.len() as int) =~= all);
    }
}

fn choose_named(s: &[SocketAddr]) -> (r: Vec<SocketAddr>)
    ensures
        r@ == named(s@),
{
    let mut out: Vec<SocketAddr> = Vec::new();
    let mut i: usize = 0;
    assert(s@.take(0) =~= seq![]);
    while i < s.len() && out.len() < MAX_PEX_PEERS
        invariant
            i <= s.len(),
            out@ == valid_endpoints(s@.take(i as int)),
            out.len() <= MAX_PEX_PEERS,
        decreases s.len() - i,
    {
        assert(s@.take(i + 1).drop_last() =~= s@.take(i as int));
        if s[i].is_valid_endpoint() {
            out.push(s[i]);
        }
        i += 1;
    }
    proof {
        lemma_valid_grows(s@, i as int);
        if i == s.len() {
            assert(s@.take(i as int) =~= s@);
        }
        let all = valid_endpoints(s@);
        if all.len() == out.len() {
            assert(all.take(out.len() as int) =~= all);
        }
    }
    out
}

fn zeroed(n: usize) -> (r: Vec<u8>)
    ensures
        r@ == no_flags(n as int),
{
    let mut out: Vec<u8> = Vec::new();
    while out.len() < n
        invariant
            out.len() <= n,
            forall|i: int| 0 <= i < out.len() ==> out@[i] == 0,
        decreases n - out.len(),
    {
        out.push(0);
    }
    assert(out@ =~= no_flags(n as int));
    out
}

pub fn build_ut_pex(added: &[SocketAddr], dropped: &[SocketAddr]) -> (r: Bytes)
    ensures
        shared_bytes(r) == encode(Bencode::Dict(pex_entries(named(added@), named(dropped@)))),
{
    let met = choose_named(added);
    let gone = choose_named(dropped);
    let (a4, a6) = split_families(met.as_slice());
    let (d4, d6) = split_families(gone.as_slice());
    let mut d: Vec<(Vec<u8>, Value)> = Vec::new();
    let f4 = zeroed(a4.len() / 6);
    let f6 = zeroed(a6.len() / 18);
    push_entry(&mut d, crate::words::added(), Value::Bytes(a4));
    push_entry(&mut d, added_f(), Value::Bytes(f4));
    push_entry(&mut d, added6(), Value::Bytes(a6));
    push_entry(&mut d, added6_f(), Value::Bytes(f6));
    push_entry(&mut d, crate::words::dropped(), Value::Bytes(d4));
    push_entry(&mut d, dropped6(), Value::Bytes(d6));
    let out = encode_to_vec(&Value::Dict(d));
    bytes_from_vec(out)
}

proof fn lemma_families(s: Seq<SocketAddr>)
    ensures
        of_family(s, false).len() + of_family(s, true).len() == s.len(),
    decreases s.len(),
{
    if s.len() > 0 {
        lemma_families(s.drop_last());
    }
}

proof fn lemma_valid(s: Seq<SocketAddr>, i: int)
    requires
        0 <= i < valid_endpoints(s).len(),
    ensures
        valid_endpoints(s)[i].spec_valid_endpoint(),
    decreases s.len(),
{
    if i < valid_endpoints(s.drop_last()).len() {
        lemma_valid(s.drop_last(), i);
    }
}

proof fn lemma_named(s: Seq<SocketAddr>)
    ensures
        named(s).len() <= MAX_PEX_PEERS,
        forall|i: int| 0 <= i < named(s).len() ==> (#[trigger] named(s)[i]).spec_valid_endpoint(),
{
    assert forall|i: int| 0 <= i < named(s).len() implies (#[trigger] named(
        s,
    )[i]).spec_valid_endpoint() by {
        lemma_valid(s, i);
    }
}

proof fn lemma_entry(d: Seq<(Seq<u8>, Bencode)>, key: Seq<u8>, b: Seq<u8>, bound: int)
    requires
        b.len() <= 900,
        key.len() <= 8,
        encode(Bencode::Dict(d)).len() <= bound,
    ensures
        encode(Bencode::Dict(with_entry(d, key, Some(Bencode::Bytes(b))))).len() <= bound + 1820,
{
    longer_by_an_entry(d, key, Bencode::Bytes(b));
    byte_string_length(key);
    byte_string_length(b);
}

/// What a message says is what was told: the peers of each family that can be named, with no
/// flags set.
#[verifier::rlimit(30)]
#[verifier::spinoff_prover]
pub proof fn pex_round_trip(added: Seq<SocketAddr>, dropped: Seq<SocketAddr>)
    ensures
        pex_in(encode(Bencode::Dict(pex_entries(named(added), named(dropped))))) == Some(
            PexModel {
                added: (of_family(named(added), false) + of_family(named(added), true)).map(
                    |i: int, a: SocketAddr| (a, 0u8),
                ),
                dropped: of_family(named(dropped), false) + of_family(named(dropped), true),
            },
        ),
{
    let met = named(added);
    let gone = named(dropped);
    lemma_named(added);
    lemma_named(dropped);
    lemma_families(met);
    lemma_families(gone);
    let a4 = compact_family(met, false);
    let a6 = compact_family(met, true);
    let f4 = no_flags(a4.len() as int / 6);
    let f6 = no_flags(a6.len() as int / 18);
    let g4 = compact_family(gone, false);
    let g6 = compact_family(gone, true);
    families_round_trip(met, f4, false);
    families_round_trip(met, f6, true);
    families_round_trip(gone, seq![], false);
    families_round_trip(gone, seq![], true);
    assert(a4.len() <= 900 && a6.len() <= 900 && g4.len() <= 900 && g6.len() <= 900);
    lex_less_where_they_differ(w_added(), w_added_f(), 5);
    lex_less_where_they_differ(w_added(), w_added6(), 5);
    lex_less_where_they_differ(w_added(), w_added6_f(), 5);
    lex_less_where_they_differ(w_added_f(), w_added6(), 5);
    lex_less_where_they_differ(w_added_f(), w_added6_f(), 5);
    lex_less_where_they_differ(w_added6(), w_added6_f(), 6);
    lex_less_where_they_differ(w_added(), w_dropped(), 0);
    lex_less_where_they_differ(w_added_f(), w_dropped(), 0);
    lex_less_where_they_differ(w_added6(), w_dropped(), 0);
    lex_less_where_they_differ(w_added6_f(), w_dropped(), 0);
    lex_less_where_they_differ(w_added(), w_dropped6(), 0);
    lex_less_where_they_differ(w_added_f(), w_dropped6(), 0);
    lex_less_where_they_differ(w_added6(), w_dropped6(), 0);
    lex_less_where_they_differ(w_added6_f(), w_dropped6(), 0);
    lex_less_where_they_differ(w_dropped(), w_dropped6(), 7);
    let d0: Seq<(Seq<u8>, Bencode)> = seq![];
    assert(canonical_entries(d0));
    assert(size_entries(d0) == 0);
    assert(height_entries(d0) == 0);
    crate::bencode::encoded_length(d0);
    assert(encode(Bencode::Dict(d0)).len() == 2);
    adding_an_entry(d0, w_added(), Some(Bencode::Bytes(a4)));
    lemma_entry(d0, w_added(), a4, 2);
    let d1 = with_entry(d0, w_added(), Some(Bencode::Bytes(a4)));
    adding_an_entry(d1, w_added_f(), Some(Bencode::Bytes(f4)));
    lemma_entry(d1, w_added_f(), f4, 1822);
    let d2 = with_entry(d1, w_added_f(), Some(Bencode::Bytes(f4)));
    adding_an_entry(d2, w_added6(), Some(Bencode::Bytes(a6)));
    lemma_entry(d2, w_added6(), a6, 3642);
    let d3 = with_entry(d2, w_added6(), Some(Bencode::Bytes(a6)));
    adding_an_entry(d3, w_added6_f(), Some(Bencode::Bytes(f6)));
    lemma_entry(d3, w_added6_f(), f6, 5462);
    let d4 = with_entry(d3, w_added6_f(), Some(Bencode::Bytes(f6)));
    adding_an_entry(d4, w_dropped(), Some(Bencode::Bytes(g4)));
    lemma_entry(d4, w_dropped(), g4, 7282);
    let d5 = with_entry(d4, w_dropped(), Some(Bencode::Bytes(g4)));
    adding_an_entry(d5, w_dropped6(), Some(Bencode::Bytes(g6)));
    lemma_entry(d5, w_dropped6(), g6, 9102);
    let d = with_entry(d5, w_dropped6(), Some(Bencode::Bytes(g6)));
    let v = Bencode::Dict(d);
    decode_inverts_encode(v, seq![], spec_extension_limits());
    assert(lookup(d, w_added()) == Some(Bencode::Bytes(a4)));
    assert(lookup(d, w_added_f()) == Some(Bencode::Bytes(f4)));
    assert(lookup(d, w_added6()) == Some(Bencode::Bytes(a6)));
    assert(lookup(d, w_added6_f()) == Some(Bencode::Bytes(f6)));
    assert(lookup(d, w_dropped()) == Some(Bencode::Bytes(g4)));
    assert(lookup(d, w_dropped6()) == Some(Bencode::Bytes(g6)));
    let unflagged = |i: int, a: SocketAddr| (a, 0u8);
    let told = of_family(met, false) + of_family(met, true);
    assert(added_in(v) =~= of_family(met, false).map(unflagged) + of_family(met, true).map(
        unflagged,
    ));
    assert(told.map(unflagged) =~= of_family(met, false).map(unflagged) + of_family(met, true).map(
        unflagged,
    ));
    assert(dropped_in(v) =~= of_family(gone, false) + of_family(gone, true));
}

/// A message names at most fifty peers that join and fifty that leave, only endpoints that peers
/// can have, and where there are fewer it names all of them.
pub proof fn which_peers_are_named(s: Seq<SocketAddr>)
    ensures
        named(s).len() <= 50,
        forall|a: SocketAddr| #[trigger]
            named(s).contains(a) ==> s.contains(a) && a.spec_valid_endpoint(),
        named(s).len() < 50 ==> forall|a: SocketAddr|
            s.contains(a) && a.spec_valid_endpoint() ==> #[trigger] named(s).contains(a),
        (forall|i: int| 0 <= i < s.len() ==> (#[trigger] s[i]).spec_valid_endpoint()) && s.len()
            <= 50 ==> named(s) == s,
{
    lemma_valid_members(s);
    assert forall|a: SocketAddr| #[trigger] named(s).contains(a) implies s.contains(a)
        && a.spec_valid_endpoint() by {
        let i = choose|i: int| 0 <= i < named(s).len() && named(s)[i] == a;
        assert(valid_endpoints(s)[i] == a);
        assert(valid_endpoints(s).contains(a));
    }
}

proof fn lemma_valid_members(s: Seq<SocketAddr>)
    ensures
        forall|a: SocketAddr| #[trigger]
            valid_endpoints(s).contains(a) <==> s.contains(a) && a.spec_valid_endpoint(),
        (forall|i: int| 0 <= i < s.len() ==> (#[trigger] s[i]).spec_valid_endpoint())
            ==> valid_endpoints(s) == s,
    decreases s.len(),
{
    if s.len() > 0 {
        let front = s.drop_last();
        lemma_valid_members(front);
        let before = valid_endpoints(front);
        let out = valid_endpoints(s);
        assert(s =~= front.push(s.last()));
        assert(s[s.len() - 1] == s.last());
        assert forall|a: SocketAddr| #[trigger] out.contains(a) <==> s.contains(a)
            && a.spec_valid_endpoint() by {
            assert(before.contains(a) <==> front.contains(a) && a.spec_valid_endpoint());
            if before.contains(a) {
                let i = choose|i: int| 0 <= i < before.len() && before[i] == a;
                assert(out[i] == a);
            }
            if front.contains(a) {
                let i = choose|i: int| 0 <= i < front.len() && front[i] == a;
                assert(s[i] == a);
            }
            if s.last().spec_valid_endpoint() {
                assert(out[before.len() as int] == s.last());
            }
            if out.contains(a) && a != s.last() {
                let i = choose|i: int| 0 <= i < out.len() && out[i] == a;
                assert(before[i] == a);
            }
            if s.contains(a) && a != s.last() {
                let i = choose|i: int| 0 <= i < s.len() && s[i] == a;
                assert(front[i] == a);
            }
        }
        if forall|i: int| 0 <= i < s.len() ==> (#[trigger] s[i]).spec_valid_endpoint() {
            assert forall|i: int| 0 <= i < front.len() implies (
            #[trigger] front[i]).spec_valid_endpoint() by {
                assert(front[i] == s[i]);
            }
        }
    } else {
        assert(valid_endpoints(s) =~= s);
    }
}

/// What a message says is read from the keys that name it: the peers that join, with their flags,
/// those of the one address family before those of the other, and the peers that leave. At most
/// fifty of each are read, and all where there are fewer.
pub proof fn what_is_read_of_a_message(v: Bencode)
    ensures
        ({
            let of = |key: Seq<u8>| if bytes_field(v, key) is Some {
                bytes_field(v, key)->0
            } else {
                Seq::<u8>::empty()
            };
            let four = flagged_peers(of(seq![97u8, 100, 100, 101, 100]), of(seq![97u8, 100, 100, 101, 100, 46, 102]), false);
            let six = flagged_peers(of(seq![97u8, 100, 100, 101, 100, 54]), of(seq![97u8, 100, 100, 101, 100, 54, 46, 102]), true);
            let gone = compact_peers(of(seq![100u8, 114, 111, 112, 112, 101, 100]), false) + compact_peers(of(seq![100u8, 114, 111, 112, 112, 101, 100, 54]), true);
            &&& added_in(v).len() <= 50
            &&& added_in(v).is_prefix_of(four + six) || four.len() > 50
            &&& four.len() + six.len() <= 50 ==> added_in(v) == four + six
            &&& four.len() >= 50 ==> added_in(v) == four.take(50)
            &&& dropped_in(v).len() <= 50
            &&& dropped_in(v).is_prefix_of(gone)
            &&& gone.len() <= 50 ==> dropped_in(v) == gone
            &&& gone.len() > 50 ==> dropped_in(v).len() == 50
        }),
{
    let four = flagged_peers(
        bytes_or_none(v, seq![97u8, 100, 100, 101, 100]),
        bytes_or_none(v, seq![97u8, 100, 100, 101, 100, 46, 102]),
        false,
    );
    let six = flagged_peers(
        bytes_or_none(v, seq![97u8, 100, 100, 101, 100, 54]),
        bytes_or_none(v, seq![97u8, 100, 100, 101, 100, 54, 46, 102]),
        true,
    );
    if four.len() >= 50 {
        assert(added_in(v) =~= four.take(50));
    }
    assert(four.len() <= 50 ==> added_in(v).is_prefix_of(four + six));
}

} // verus!
