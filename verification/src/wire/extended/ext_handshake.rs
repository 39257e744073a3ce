//! The extended handshake: which extensions a peer knows, and what it says of itself.

use bytes::Bytes;
use vstd::prelude::*;

use crate::bencode::entries::{adding_an_entry, put_entry, with_entry};
use crate::bencode::{
    bytes_field, bytes_value, canonical, canonical_entries, copy_range, decode_all_external,
    decode_inverts_encode, encode, encode_to_vec, field, height, height_entries, int_field,
    lemma_model_entries, lookup, model_entries, parse_all, push_entry, size, size_entries,
    text_field, Bencode, Value,
};
use crate::buf::{bytes_from_vec, shared_bytes};
use crate::meta::hash::array_from;
use crate::net::{IpAddr, Ipv4Addr, Ipv6Addr};
use crate::order::{lex_less, lex_less_where_they_differ};
use crate::ranked::{
    index_of, put, put_in_order, rank, ranked, ranked_has, ranked_put, ranked_put_keeps_order,
    ranked_put_members, ranking,
};
use crate::wire::extended::{extension_limits, spec_extension_limits};
use crate::words::{
    ipv4, ipv6, m, metadata_size, p, reqq, ut_holepunch, ut_metadata, ut_pex, v, w_ipv4, w_ipv6,
    w_m, w_metadata_size, w_p, w_reqq, w_ut_holepunch, w_ut_metadata, w_ut_pex, w_v, w_yourip,
    yourip,
};

verus! {

/// What a peer says of itself. The extensions that it knows are in the order of their names, each
/// with the id that it wants to be sent their messages under.
#[derive(Debug, Clone)]
pub struct ExtHandshake {
    pub supported: Vec<(Vec<u8>, u8)>,
    pub metadata_size: Option<u64>,
    pub client: Option<String>,
    pub yourip: Option<IpAddr>,
    pub reqq: Option<u32>,
    pub port: Option<u16>,
    pub ipv4: Option<Ipv4Addr>,
    pub ipv6: Option<Ipv6Addr>,
}

/// The mathematical value of an [`ExtHandshake`].
#[verifier::ext_equal]
pub struct ExtModel {
    pub supported: Seq<(Seq<u8>, u8)>,
    pub metadata_size: Option<u64>,
    pub client: Option<Seq<char>>,
    pub yourip: Option<IpAddr>,
    pub reqq: Option<u32>,
    pub port: Option<u16>,
    pub ipv4: Option<Ipv4Addr>,
    pub ipv6: Option<Ipv6Addr>,
}

impl View for ExtHandshake {
    type V = ExtModel;

    open spec fn view(&self) -> ExtModel {
        ExtModel {
            supported: ranking(self.supported@),
            metadata_size: self.metadata_size,
            client: match self.client {
                Some(s) => Some(s@),
                None => None,
            },
            yourip: self.yourip,
            reqq: self.reqq,
            port: self.port,
            ipv4: self.ipv4,
            ipv6: self.ipv6,
        }
    }
}

/// The extensions with their ids, as a dictionary.
pub open spec fn id_entries(s: Seq<(Seq<u8>, u8)>) -> Seq<(Seq<u8>, Bencode)> {
    Seq::new(s.len(), |i: int| (s[i].0, Bencode::Int(s[i].1 as int)))
}

/// What a peer says of itself, as a dictionary.
pub open spec fn handshake_entries(x: ExtModel) -> Seq<(Seq<u8>, Bencode)> {
    let d: Seq<(Seq<u8>, Bencode)> = seq![];
    let d = with_entry(
        d,
        w_ipv4(),
        match x.ipv4 {
            Some(ip) => Some(Bencode::Bytes(ip.0@)),
            None => None,
        },
    );
    let d = with_entry(
        d,
        w_ipv6(),
        match x.ipv6 {
            Some(ip) => Some(Bencode::Bytes(ip.0@)),
            None => None,
        },
    );
    let d = with_entry(d, w_m(), Some(Bencode::Dict(id_entries(x.supported))));
    let d = with_entry(
        d,
        w_metadata_size(),
        match x.metadata_size {
            Some(n) => Some(Bencode::Int((n as i64) as int)),
            None => None,
        },
    );
    let d = with_entry(
        d,
        w_p(),
        match x.port {
            Some(n) => Some(Bencode::Int(n as int)),
            None => None,
        },
    );
    let d = with_entry(
        d,
        w_v(),
        match x.client {
            Some(s) => Some(Bencode::Bytes(vstd::utf8::encode_utf8(s))),
            None => None,
        },
    );
    with_entry(
        d,
        w_yourip(),
        match x.yourip {
            Some(ip) => Some(Bencode::Bytes(ip.octets_of())),
            None => None,
        },
    )
}

/// The extensions that a dictionary names: those with an id, where zero is none. Of two entries
/// under one name the later counts.
pub open spec fn ids_in(d: Seq<(Seq<u8>, Bencode)>) -> Seq<(Seq<u8>, u8)>
    decreases d.len(),
{
    if d.len() == 0 {
        seq![]
    } else {
        let front = ids_in(d.drop_last());
        match d.last().1 {
            Bencode::Int(n) => if 1 <= n <= 255 {
                ranked_put(front, d.last().0, n as u8)
            } else {
                front
            },
            _ => front,
        }
    }
}

/// The address of four bytes.
pub open spec fn ipv4_of(b: Seq<u8>) -> Option<Ipv4Addr> {
    if b.len() == 4 {
        Some(choose|ip: Ipv4Addr| ip.0@ == b)
    } else {
        None
    }
}

/// The address of sixteen bytes.
pub open spec fn ipv6_of(b: Seq<u8>) -> Option<Ipv6Addr> {
    if b.len() == 16 {
        Some(choose|ip: Ipv6Addr| ip.0@ == b)
    } else {
        None
    }
}

/// The address of four or sixteen bytes.
pub open spec fn ip_of(b: Seq<u8>) -> Option<IpAddr> {
    match (ipv4_of(b), ipv6_of(b)) {
        (Some(ip), _) => Some(IpAddr::V4(ip)),
        (_, Some(ip)) => Some(IpAddr::V6(ip)),
        _ => None,
    }
}

/// What a dictionary says of a peer.
pub open spec fn handshake_of(d: Bencode) -> ExtModel {
    ExtModel {
        supported: match field(d, w_m()) {
            Some(Bencode::Dict(ids)) => ids_in(ids),
            _ => seq![],
        },
        metadata_size: match int_field(d, w_metadata_size()) {
            Some(n) => if n >= 0 {
                Some(n as u64)
            } else {
                None
            },
            None => None,
        },
        client: text_field(d, w_v()),
        yourip: match bytes_field(d, w_yourip()) {
            Some(b) => ip_of(b),
            None => None,
        },
        reqq: match int_field(d, w_reqq()) {
            Some(n) => if n > 0 {
                Some(n as u32)
            } else {
                None
            },
            None => None,
        },
        port: match int_field(d, w_p()) {
            Some(n) => if 0 <= n <= u16::MAX {
                Some(n as u16)
            } else {
                None
            },
            None => None,
        },
        ipv4: match bytes_field(d, w_ipv4()) {
            Some(b) => ipv4_of(b),
            None => None,
        },
        ipv6: match bytes_field(d, w_ipv6()) {
            Some(b) => ipv6_of(b),
            None => None,
        },
    }
}

/// What some bytes say of a peer, where they are a dictionary.
pub open spec fn handshake_in(b: Seq<u8>) -> Option<ExtModel> {
    match parse_all(b, spec_extension_limits()) {
        Ok(Bencode::Dict(d)) => Some(handshake_of(Bencode::Dict(d))),
        _ => None,
    }
}

/// The name and the version of this client.
pub open spec fn client_text() -> Seq<char> {
    "risuko-bt 0.1.0"@
}

proof fn lemma_ipv4_of(ip: Ipv4Addr)
    ensures
        ipv4_of(ip.0@) == Some(ip),
{
    let got = choose|x: Ipv4Addr| x.0@ == ip.0@;
    assert(got.0 =~= ip.0);
}

proof fn lemma_ipv6_of(ip: Ipv6Addr)
    ensures
        ipv6_of(ip.0@) == Some(ip),
{
    let got = choose|x: Ipv6Addr| x.0@ == ip.0@;
    assert(got.0 =~= ip.0);
}

fn read_ipv4(b: &[u8]) -> (r: Option<Ipv4Addr>)
    ensures
        r == ipv4_of(b@),
{
    if b.len() != 4 {
        return None;
    }
    let ip = Ipv4Addr(array_from::<4>(b));
    assert(b@.take(4) =~= b@);
    proof {
        lemma_ipv4_of(ip);
    }
    Some(ip)
}

fn read_ipv6(b: &[u8]) -> (r: Option<Ipv6Addr>)
    ensures
        r == ipv6_of(b@),
{
    if b.len() != 16 {
        return None;
    }
    let ip = Ipv6Addr(array_from::<16>(b));
    assert(b@.take(16) =~= b@);
    proof {
        lemma_ipv6_of(ip);
    }
    Some(ip)
}

fn read_ip(b: &[u8]) -> (r: Option<IpAddr>)
    ensures
        r == ip_of(b@),
{
    match read_ipv4(b) {
        Some(ip) => Some(IpAddr::V4(ip)),
        None => match read_ipv6(b) {
            Some(ip) => Some(IpAddr::V6(ip)),
            None => None,
        },
    }
}

fn read_ids(d: &Vec<(Vec<u8>, Value)>) -> (r: Vec<(Vec<u8>, u8)>)
    ensures
        ranking(r@) == ids_in(model_entries(d@)),
{
    let mut out: Vec<(Vec<u8>, u8)> = Vec::new();
    let ghost all = model_entries(d@);
    let mut i: usize = 0;
    proof {
        lemma_model_entries(d@);
        assert(all.take(0) =~= seq![]);
        assert(ranking(out@) =~= seq![]);
    }
    while i < d.len()
        invariant
            i <= d.len(),
            all == model_entries(d@),
            all.len() == d.len(),
            forall|j: int|
                0 <= j < d.len() ==> #[trigger] all[j] == (d@[j].0@, crate::bencode::model(d@[j].1)),
            ranking(out@) == ids_in(all.take(i as int)),
            ranked(ranking(out@)),
        decreases d.len() - i,
    {
        proof {
            assert(all.take(i + 1).drop_last() =~= all.take(i as int));
            assert(all.take(i + 1).last() == all[i as int]);
        }
        if let Some(n) = d[i].1.as_int() {
            if 1 <= n && n <= 255 {
                let name = copy_range(d[i].0.as_slice(), 0, d[i].0.len());
                assert(name@ =~= d@[i as int].0@);
                put_in_order(&mut out, name, n as u8);
            }
        }
        i += 1;
    }
    assert(all.take(i as int) =~= all);
    out
}

impl Default for ExtHandshake {
    fn default() -> (r: Self)
        ensures
            r@ == (ExtModel {
                supported: seq![],
                metadata_size: None,
                client: None,
                yourip: None,
                reqq: None,
                port: None,
                ipv4: None,
                ipv6: None,
            }),
    {
        let r = ExtHandshake {
            supported: Vec::new(),
            metadata_size: None,
            client: None,
            yourip: None,
            reqq: None,
            port: None,
            ipv4: None,
            ipv6: None,
        };
        assert(r@.supported =~= seq![]);
        r
    }
}

impl ExtHandshake {
    /// Our own handshake; the ids are those that peers are to send us each extension under.
    pub fn new_outgoing(
        ut_metadata_id: u8,
        ut_pex_id: u8,
        metadata_size: Option<u64>,
    ) -> (r: Self)
        ensures
            r@ == (ExtModel {
                supported: ranked_put(
                    ranked_put(seq![], w_ut_metadata(), ut_metadata_id),
                    w_ut_pex(),
                    ut_pex_id,
                ),
                metadata_size,
                client: Some(client_text()),
                yourip: None,
                reqq: None,
                port: None,
                ipv4: None,
                ipv6: None,
            }),
    {
        let mut supported: Vec<(Vec<u8>, u8)> = Vec::new();
        assert(ranking(supported@) =~= seq![]);
        put(&mut supported, ut_metadata(), ut_metadata_id);
        put(&mut supported, ut_pex(), ut_pex_id);
        ExtHandshake {
            supported,
            metadata_size,
            client: Some("risuko-bt 0.1.0".to_string()),
            yourip: None,
            reqq: None,
            port: None,
            ipv4: None,
            ipv6: None,
        }
    }

    /// Tell the peer the address that it is seen under.
    pub fn with_yourip(self, ip: IpAddr) -> (r: Self)
        ensures
            r@ == (ExtModel { yourip: Some(ip), ..self@ }),
    {
        let mut out = self;
        out.yourip = Some(ip);
        out
    }

    pub fn with_holepunch(self, ut_holepunch_id: u8) -> (r: Self)
        ensures
            r@ == (ExtModel {
                supported: ranked_put(self@.supported, w_ut_holepunch(), ut_holepunch_id),
                ..self@
            }),
    {
        let mut out = self;
        put(&mut out.supported, ut_holepunch(), ut_holepunch_id);
        out
    }

    pub fn with_port(self, port: u16) -> (r: Self)
        ensures
            r@ == (ExtModel { port: Some(port), ..self@ }),
    {
        let mut out = self;
        out.port = Some(port);
        out
    }

    pub fn with_ipv4(self, addr: Ipv4Addr) -> (r: Self)
        ensures
            r@ == (ExtModel { ipv4: Some(addr), ..self@ }),
    {
        let mut out = self;
        out.ipv4 = Some(addr);
        out
    }

    pub fn with_ipv6(self, addr: Ipv6Addr) -> (r: Self)
        ensures
            r@ == (ExtModel { ipv6: Some(addr), ..self@ }),
    {
        let mut out = self;
        out.ipv6 = Some(addr);
        out
    }

    fn id_values(&self) -> (r: Value)
        ensures
            r@ == Bencode::Dict(id_entries(self@.supported)),
    {
        let mut d: Vec<(Vec<u8>, Value)> = Vec::new();
        let mut i: usize = 0;
        let ghost all = id_entries(self@.supported);
        assert(all.take(0) =~= seq![]);
        while i < self.supported.len()
            invariant
                i <= self.supported.len(),
                all == id_entries(self@.supported),
                model_entries(d@) == all.take(i as int),
            decreases self.supported.len() - i,
        {
            let name = copy_range(
                self.supported[i].0.as_slice(),
                0,
                self.supported[i].0.len(),
            );
            assert(name@ =~= self.supported@[i as int].0@);
            push_entry(&mut d, name, Value::Int(self.supported[i].1 as i64));
            assert(all.take(i + 1) =~= all.take(i as int).push(all[i as int]));
            i += 1;
        }
        assert(all.take(i as int) =~= all);
        Value::Dict(d)
    }

    pub fn encode(&self) -> (r: Bytes)
        ensures
            shared_bytes(r) == encode(Bencode::Dict(handshake_entries(self@))),
    {
        let mut d: Vec<(Vec<u8>, Value)> = Vec::new();
        put_entry(
            &mut d,
            ipv4(),
            match &self.ipv4 {
                Some(ip) => Some(bytes_value(ip.0.as_slice())),
                None => None,
            },
        );
        put_entry(
            &mut d,
            ipv6(),
            match &self.ipv6 {
                Some(ip) => Some(bytes_value(ip.0.as_slice())),
                None => None,
            },
        );
        put_entry(&mut d, m(), Some(self.id_values()));
        put_entry(
            &mut d,
            metadata_size(),
            match self.metadata_size {
                Some(n) => Some(Value::Int(n as i64)),
                None => None,
            },
        );
        put_entry(
            &mut d,
            p(),
            match self.port {
                Some(n) => Some(Value::Int(n as i64)),
                None => None,
            },
        );
        put_entry(
            &mut d,
            v(),
            match &self.client {
                Some(s) => Some(bytes_value(s.as_str().as_bytes())),
                None => None,
            },
        );
        let mut octets: Vec<u8> = Vec::new();
        if let Some(ip) = &self.yourip {
            ip.push_octets(&mut octets);
        }
        put_entry(
            &mut d,
            yourip(),
            match &self.yourip {
                Some(_) => Some(Value::Bytes(octets)),
                None => None,
            },
        );
        let out = encode_to_vec(&Value::Dict(d));
        bytes_from_vec(out)
    }

    pub fn decode(payload: &[u8]) -> (r: Option<Self>)
        ensures
            match handshake_in(payload@) {
                Some(x) => r matches Some(got) && got@ == x,
                None => r is None,
            },
    {
        let value = match decode_all_external(payload, extension_limits()) {
            Err(_) => {
                return None;
            },
            Ok(value) => value,
        };
        if value.as_dict().is_none() {
            return None;
        }
        let ids = match value.get(m().as_slice()) {
            Some(d) => match d.as_dict() {
                Some(d) => read_ids(d),
                None => Vec::new(),
            },
            None => Vec::new(),
        };
        let size = match value.int_at(metadata_size().as_slice()) {
            Some(n) => if n >= 0 {
                Some(n as u64)
            } else {
                None
            },
            None => None,
        };
        let client = value.text_at(v().as_slice());
        let seen_as = match value.bytes_at(yourip().as_slice()) {
            Some(b) => read_ip(b.as_slice()),
            None => None,
        };
        let queue = match value.int_at(reqq().as_slice()) {
            Some(n) => if n > 0 {
                Some(n as u32)
            } else {
                None
            },
            None => None,
        };
        let port = match value.int_at(p().as_slice()) {
            Some(n) => if 0 <= n && n <= 65535 {
                Some(n as u16)
            } else {
                None
            },
            None => None,
        };
        let addr4 = match value.bytes_at(ipv4().as_slice()) {
            Some(b) => read_ipv4(b.as_slice()),
            None => None,
        };
        let addr6 = match value.bytes_at(ipv6().as_slice()) {
            Some(b) => read_ipv6(b.as_slice()),
            None => None,
        };
        let out = ExtHandshake {
            supported: ids,
            metadata_size: size,
            client,
            yourip: seen_as,
            reqq: queue,
            port,
            ipv4: addr4,
            ipv6: addr6,
        };
        assert(out@.supported =~= handshake_of(value@).supported);
        Some(out)
    }

    fn id_of(&self, name: Vec<u8>) -> (r: Option<u8>)
        ensures
            r == spec_id_of(self@, name@),
    {
        match index_of(&self.supported, &name) {
            Some(i) => Some(self.supported[i].1),
            None => None,
        }
    }

    pub fn ut_metadata_id(&self) -> (r: Option<u8>)
        ensures
            r == spec_id_of(self@, w_ut_metadata()),
    {
        self.id_of(ut_metadata())
    }

    pub fn ut_pex_id(&self) -> (r: Option<u8>)
        ensures
            r == spec_id_of(self@, w_ut_pex()),
    {
        self.id_of(ut_pex())
    }

    pub fn ut_holepunch_id(&self) -> (r: Option<u8>)
        ensures
            r == spec_id_of(self@, w_ut_holepunch()),
    {
        self.id_of(ut_holepunch())
    }
}

/// The id of an extension.
pub open spec fn spec_id_of(x: ExtModel, name: Seq<u8>) -> Option<u8> {
    if ranked_has(x.supported, name) {
        Some(x.supported[rank(x.supported, name)].1)
    } else {
        None
    }
}

/// However often an extension is named, it is read once: the names that are read rise.
pub proof fn names_rise(d: Seq<(Seq<u8>, Bencode)>)
    ensures
        ranked(ids_in(d)),
    decreases d.len(),
{
    if d.len() > 0 {
        names_rise(d.drop_last());
        if let Bencode::Int(n) = d.last().1 {
            ranked_put_keeps_order(ids_in(d.drop_last()), d.last().0, n as u8);
        }
    }
}

proof fn lemma_ids(s: Seq<(Seq<u8>, u8)>)
    requires
        ranked(s),
        forall|i: int| 0 <= i < s.len() ==> (#[trigger] s[i]).1 >= 1,
    ensures
        canonical_entries(id_entries(s)),
        size_entries(id_entries(s)) == s.len(),
        height_entries(id_entries(s)) == 0,
        ids_in(id_entries(s)) == s,
    decreases s.len(),
{
    if s.len() == 0 {
        assert(id_entries(s) =~= seq![]);
        assert(ids_in(id_entries(s)) =~= s);
    } else {
        let front = s.drop_last();
        assert(ranked(front)) by {
            assert forall|i: int, j: int| 0 <= i < j < front.len() implies lex_less(
                (#[trigger] front[i]).0,
                (#[trigger] front[j]).0,
            ) by {
                assert(front[i] == s[i] && front[j] == s[j]);
            }
        }
        assert forall|i: int| 0 <= i < front.len() implies (#[trigger] front[i]).1 >= 1 by {
            assert(front[i] == s[i]);
        }
        lemma_ids(front);
        let key = s.last().0;
        let value = Bencode::Int(s.last().1 as int);
        let d = id_entries(front);
        assert forall|i: int| 0 <= i < d.len() implies lex_less((#[trigger] d[i]).0, key) by {
            assert(s[i] == front[i]);
            assert(lex_less(s[i].0, s[s.len() - 1].0));
        }
        adding_an_entry(d, key, Some(value));
        let all = id_entries(s);
        assert(all =~= with_entry(d, key, Some(value)));
        assert(all.drop_last() =~= d);
        assert(s[s.len() - 1].1 >= 1);
        crate::ranked::lemma_rank(front, key);
        let at = rank(front, key);
        if at < front.len() {
            assert(front[at] == s[at]);
            assert(lex_less(s[at].0, s[s.len() - 1].0));
        }
        assert(ranked_put(front, key, s.last().1) =~= s);
    }
}

/// A dictionary of seven entries, each there where it has a value.
spec fn assembled(k: Seq<Seq<u8>>, v: Seq<Option<Bencode>>) -> Seq<(Seq<u8>, Bencode)> {
    let d = with_entry(seq![], k[0], v[0]);
    let d = with_entry(d, k[1], v[1]);
    let d = with_entry(d, k[2], v[2]);
    let d = with_entry(d, k[3], v[3]);
    let d = with_entry(d, k[4], v[4]);
    let d = with_entry(d, k[5], v[5]);
    with_entry(d, k[6], v[6])
}

spec fn size_option(v: Option<Bencode>) -> nat {
    match v {
        Some(v) => size(v),
        None => 0,
    }
}

proof fn lemma_assembled(k: Seq<Seq<u8>>, v: Seq<Option<Bencode>>, other: Seq<u8>)
    requires
        k.len() == 7,
        v.len() == 7,
        forall|i: int| 0 <= i < 6 ==> lex_less(#[trigger] k[i], k[i + 1]),
        forall|i: int, j: int| 0 <= i < j < 7 ==> #[trigger] k[i] != #[trigger] k[j],
        forall|i: int| 0 <= i < 7 ==> #[trigger] k[i] != other,
        forall|i: int|
            0 <= i < 7 ==> (#[trigger] v[i] matches Some(x) ==> canonical(x) && height(x) <= 1),
    ensures
        forall|i: int| 0 <= i < 7 ==> lookup(assembled(k, v), #[trigger] k[i]) == v[i],
        lookup(assembled(k, v), other) is None,
        canonical_entries(assembled(k, v)),
        height_entries(assembled(k, v)) <= 1,
        size_entries(assembled(k, v)) == size_option(v[0]) + size_option(v[1]) + size_option(v[2])
            + size_option(v[3]) + size_option(v[4]) + size_option(v[5]) + size_option(v[6]),
{
    let d0: Seq<(Seq<u8>, Bencode)> = seq![];
    assert(canonical_entries(d0));
    assert(size_entries(d0) == 0);
    assert(height_entries(d0) == 0);
    assert(lookup(d0, other) is None);
    let k0 = k[0];
    let k1 = k[1];
    let k2 = k[2];
    let k3 = k[3];
    let k4 = k[4];
    let k5 = k[5];
    let k6 = k[6];
    assert(lex_less(k0, k1) && lex_less(k1, k2) && lex_less(k2, k3) && lex_less(k3, k4)
        && lex_less(k4, k5) && lex_less(k5, k6));
    adding_an_entry(d0, k0, v[0]);
    let d1 = with_entry(d0, k0, v[0]);
    adding_an_entry(d1, k1, v[1]);
    let d2 = with_entry(d1, k1, v[1]);
    adding_an_entry(d2, k2, v[2]);
    let d3 = with_entry(d2, k2, v[2]);
    adding_an_entry(d3, k3, v[3]);
    let d4 = with_entry(d3, k3, v[3]);
    adding_an_entry(d4, k4, v[4]);
    let d5 = with_entry(d4, k4, v[4]);
    adding_an_entry(d5, k5, v[5]);
    let d6 = with_entry(d5, k5, v[5]);
    adding_an_entry(d6, k6, v[6]);
    let d = with_entry(d6, k6, v[6]);
    assert(d == assembled(k, v));
    assert(lookup(d, k0) == v[0]);
    assert(lookup(d, k1) == v[1]);
    assert(lookup(d, k2) == v[2]);
    assert(lookup(d, k3) == v[3]);
    assert(lookup(d, k4) == v[4]);
    assert(lookup(d, k5) == v[5]);
    assert(lookup(d, k6) == v[6]);
    assert(lookup(d, other) is None);
}

/// Reading a handshake gives back what was written; the length of the queue is never written.
#[verifier::rlimit(40)]
#[verifier::spinoff_prover]
pub proof fn handshake_round_trip(x: ExtModel)
    requires
        ranked(x.supported),
        forall|i: int| 0 <= i < x.supported.len() ==> (#[trigger] x.supported[i]).1 >= 1,
        x.metadata_size matches Some(n) ==> n <= i64::MAX,
        size(Bencode::Dict(handshake_entries(x))) <= spec_extension_limits().max_items,
        encode(Bencode::Dict(handshake_entries(x))).len() <= spec_extension_limits().max_bytes,
    ensures
        handshake_in(encode(Bencode::Dict(handshake_entries(x)))) == Some(
            ExtModel { reqq: None, ..x },
        ),
{
    lemma_ids(x.supported);
    lemma_key_order();
    let v4: Option<Bencode> = match x.ipv4 {
        Some(ip) => Some(Bencode::Bytes(ip.0@)),
        None => None,
    };
    let v6: Option<Bencode> = match x.ipv6 {
        Some(ip) => Some(Bencode::Bytes(ip.0@)),
        None => None,
    };
    let ids: Option<Bencode> = Some(Bencode::Dict(id_entries(x.supported)));
    let sz: Option<Bencode> = match x.metadata_size {
        Some(n) => Some(Bencode::Int((n as i64) as int)),
        None => None,
    };
    let port: Option<Bencode> = match x.port {
        Some(n) => Some(Bencode::Int(n as int)),
        None => None,
    };
    let client: Option<Bencode> = match x.client {
        Some(s) => Some(Bencode::Bytes(vstd::utf8::encode_utf8(s))),
        None => None,
    };
    let seen: Option<Bencode> = match x.yourip {
        Some(ip) => Some(Bencode::Bytes(ip.octets_of())),
        None => None,
    };
    let d = handshake_entries(x);
    let val = Bencode::Dict(d);
    let keys = seq![w_ipv4(), w_ipv6(), w_m(), w_metadata_size(), w_p(), w_v(), w_yourip()];
    let values = seq![v4, v6, ids, sz, port, client, seen];
    lemma_assembled(keys, values, w_reqq());
    assert(d == assembled(keys, values)) by {
        assert(handshake_entries(x) == assembled(keys, values));
    }
    assert(forall|i: int| 0 <= i < 7 ==> lookup(d, #[trigger] keys[i]) == values[i]);
    assert(keys[0] == w_ipv4() && keys[1] == w_ipv6() && keys[2] == w_m() && keys[3]
        == w_metadata_size() && keys[4] == w_p() && keys[5] == w_v() && keys[6] == w_yourip());
    decode_inverts_encode(val, seq![], spec_extension_limits());
    let got = handshake_of(val);
    if let Some(ip) = x.ipv4 {
        lemma_ipv4_of(ip);
    }
    if let Some(ip) = x.ipv6 {
        lemma_ipv6_of(ip);
    }
    if let Some(ip) = x.yourip {
        match ip {
            IpAddr::V4(a) => {
                lemma_ipv4_of(a);
            },
            IpAddr::V6(a) => {
                lemma_ipv6_of(a);
            },
        }
    }
    if let Some(t) = x.client {
        vstd::utf8::encode_utf8_valid_utf8(t);
        vstd::utf8::encode_utf8_decode_utf8(t);
    }
    assert(got == ExtModel { reqq: None, ..x });
}

proof fn lemma_key_order()
    ensures
        lex_less(w_ipv4(), w_ipv6()),
        lex_less(w_ipv6(), w_m()),
        lex_less(w_m(), w_metadata_size()),
        lex_less(w_metadata_size(), w_p()),
        lex_less(w_p(), w_v()),
        lex_less(w_v(), w_yourip()),
        w_ipv4() != w_ipv6(),
        w_ipv4() != w_m(),
        w_ipv4() != w_metadata_size(),
        w_ipv4() != w_p(),
        w_ipv4() != w_v(),
        w_ipv4() != w_yourip(),
        w_ipv6() != w_m(),
        w_ipv6() != w_metadata_size(),
        w_ipv6() != w_p(),
        w_ipv6() != w_v(),
        w_ipv6() != w_yourip(),
        w_m() != w_metadata_size(),
        w_m() != w_p(),
        w_m() != w_v(),
        w_m() != w_yourip(),
        w_metadata_size() != w_p(),
        w_metadata_size() != w_v(),
        w_metadata_size() != w_yourip(),
        w_p() != w_v(),
        w_p() != w_yourip(),
        w_v() != w_yourip(),
        w_reqq() != w_ipv4(),
        w_reqq() != w_ipv6(),
        w_reqq() != w_m(),
        w_reqq() != w_metadata_size(),
        w_reqq() != w_p(),
        w_reqq() != w_v(),
        w_reqq() != w_yourip(),
{
    lex_less_where_they_differ(w_ipv4(), w_ipv6(), 3);
    lex_less_where_they_differ(w_ipv6(), w_m(), 0);
    lex_less_where_they_differ(w_m(), w_metadata_size(), 1);
    lex_less_where_they_differ(w_metadata_size(), w_p(), 0);
    lex_less_where_they_differ(w_p(), w_v(), 0);
    lex_less_where_they_differ(w_v(), w_yourip(), 0);
    assert(w_ipv4()[0] == 105 && w_ipv6()[0] == 105 && w_m()[0] == 109 && w_metadata_size()[0]
        == 109 && w_p()[0] == 112 && w_v()[0] == 118 && w_yourip()[0] == 121 && w_reqq()[0] == 114);
}

/// True when the entry at `i` is the last under a name that gives it an id from 1 to 255.
pub open spec fn gives_id(d: Seq<(Seq<u8>, Bencode)>, name: Seq<u8>, i: int, id: u8) -> bool {
    &&& 0 <= i < d.len()
    &&& d[i].0 == name
    &&& id > 0
    &&& d[i].1 == Bencode::Int(id as int)
    &&& forall|j: int|
        i < j < d.len() && (#[trigger] d[j]).0 == name ==> !(d[j].1 matches Bencode::Int(n) && 1 <= n
            <= 255)
}

/// A peer has exactly the extensions that it names with an id from 1 to 255, under the last such id.
pub proof fn which_extensions_a_peer_has(d: Seq<(Seq<u8>, Bencode)>)
    ensures
        ranked(ids_in(d)),
        forall|name: Seq<u8>, id: u8| #[trigger]
            ids_in(d).contains((name, id)) <==> exists|i: int| gives_id(d, name, i, id),
    decreases d.len(),
{
    names_rise(d);
    if d.len() > 0 {
        let front = d.drop_last();
        let before = ids_in(front);
        let out = ids_in(d);
        let last = d.len() - 1;
        which_extensions_a_peer_has(front);
        assert(d[last] == d.last());
        let counts = d.last().1 matches Bencode::Int(n) && 1 <= n <= 255;
        let key = d.last().0;
        if counts {
            ranked_put_members(before, key, d.last().1->Int_0 as u8);
        }
        assert forall|name: Seq<u8>, id: u8| #[trigger] out.contains((name, id)) <==> exists|i: int|
            gives_id(d, name, i, id) by {
            assert(before.contains((name, id)) <==> exists|i: int| gives_id(front, name, i, id));
            if counts && name == key {
                let n = d.last().1->Int_0;
                if exists|i: int| gives_id(d, name, i, id) {
                    let i = choose|i: int| gives_id(d, name, i, id);
                    assert(i == last);
                }
                if id == n as u8 {
                    assert(gives_id(d, name, last, id));
                }
            } else {
                if exists|i: int| gives_id(front, name, i, id) {
                    let i = choose|i: int| gives_id(front, name, i, id);
                    assert(front[i] == d[i]);
                    assert forall|j: int| i < j < d.len() && (#[trigger] d[j]).0 == name implies !(
                    d[j].1 matches Bencode::Int(n) && 1 <= n <= 255) by {
                        if j < last {
                            assert(front[j] == d[j]);
                        }
                    }
                    assert(gives_id(d, name, i, id));
                }
                if exists|i: int| gives_id(d, name, i, id) {
                    let i = choose|i: int| gives_id(d, name, i, id);
                    assert(i < last);
                    assert(front[i] == d[i]);
                    assert forall|j: int| i < j < front.len() && (#[trigger] front[j]).0
                        == name implies !(front[j].1 matches Bencode::Int(n) && 1 <= n <= 255) by {
                        assert(front[j] == d[j]);
                    }
                    assert(gives_id(front, name, i, id));
                }
            }
        }
    } else {
        assert forall|name: Seq<u8>, id: u8| #[trigger] ids_in(d).contains((name, id)) <==> exists|
            i: int,
        |
            gives_id(d, name, i, id) by {}
    }
}

/// What a peer says of itself is read from the keys that name it; a number out of its range and
/// an address of the wrong length count as not said.
pub proof fn what_a_peer_says_of_itself(v: Bencode)
    ensures
        ({
            let x = handshake_of(v);
            &&& field(v, seq![109u8]) matches Some(Bencode::Dict(ids)) ==> x.supported == ids_in(ids)
            &&& !(field(v, seq![109u8]) matches Some(Bencode::Dict(ids))) ==> x.supported.len() == 0
            &&& x.metadata_size is Some <==> (int_field(v, seq![109u8, 101, 116, 97, 100, 97, 116, 97, 95, 115, 105, 122, 101]) matches Some(n) && n
                >= 0)
            &&& x.metadata_size matches Some(n) ==> (int_field(v, seq![109u8, 101, 116, 97, 100, 97, 116, 97, 95, 115, 105, 122, 101])->0 <= u64::MAX
                ==> n == int_field(v, seq![109u8, 101, 116, 97, 100, 97, 116, 97, 95, 115, 105, 122, 101])->0)
            &&& x.client == text_field(v, seq![118u8])
            &&& x.port is Some <==> (int_field(v, seq![112u8]) matches Some(n) && 0 <= n <= 65535)
            &&& x.port matches Some(n) ==> int_field(v, seq![112u8]) == Some(n as int)
            &&& x.reqq is Some <==> (int_field(v, seq![114u8, 101, 113, 113]) matches Some(n) && n > 0)
            &&& x.yourip is Some <==> (bytes_field(v, seq![121u8, 111, 117, 114, 105, 112]) matches Some(b) && (b.len() == 4
                || b.len() == 16))
            &&& x.ipv4 is Some <==> (bytes_field(v, seq![105u8, 112, 118, 52]) matches Some(b) && b.len() == 4)
            &&& x.ipv6 is Some <==> (bytes_field(v, seq![105u8, 112, 118, 54]) matches Some(b) && b.len() == 16)
        }),
{
}

/// The id of an extension is the one that stands under its name, and there is none where the name
/// does not stand; the names are "ut_metadata", "ut_pex" and "ut_holepunch".
pub proof fn which_id_an_extension_has(x: ExtModel, name: Seq<u8>)
    requires
        ranked(x.supported),
    ensures
        spec_id_of(x, name) is Some <==> exists|i: int|
            0 <= i < x.supported.len() && (#[trigger] x.supported[i]).0 == name,
        spec_id_of(x, name) matches Some(id) ==> x.supported.contains((name, id)),
        w_ut_metadata() == seq![117u8, 116, 95, 109, 101, 116, 97, 100, 97, 116, 97],
        w_ut_pex() == seq![117u8, 116, 95, 112, 101, 120],
        w_ut_holepunch() == seq![117u8, 116, 95, 104, 111, 108, 101, 112, 117, 110, 99, 104],
{
    crate::ranked::ranked_has_its_keys(x.supported, name);
    crate::ranked::lemma_rank(x.supported, name);
    if ranked_has(x.supported, name) {
        let at = rank(x.supported, name);
        assert(x.supported[at] == (name, x.supported[at].1));
    }
}

} // verus!
