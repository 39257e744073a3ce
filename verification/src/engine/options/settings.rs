//! What the options say, setting by setting.

use vstd::prelude::*;

use crate::engine::json::{json_map, value_under, Json, Number, Object, Value};
use crate::engine::options::{
    text_under, EngineOptions, OptionMap, DEFAULT_ED2K_KAD_PORT, DEFAULT_ED2K_PORT,
    DEFAULT_PBH_LISTEN_PORT,
};
use crate::net::literal::{parts_of, split_parts};
use crate::text::{
    chars_views, from_chars, number_in, parse_number, same_text, text_views, to_chars, trim_chars,
    trimmed,
};

verus! {

/// The natural number under a name, written as a number or as a text.
pub open spec fn natural_under(m: OptionMap, key: Seq<char>) -> Option<u64> {
    match value_under(m, key) {
        Some(Json::Number(n)) => n.spec_u64(),
        Some(Json::Text(s)) => match number_in(s, u64::MAX as nat) {
            Some(n) => Some(n as u64),
            None => None,
        },
        _ => None,
    }
}

/// The flag under a name: a flag, one of a few words, or a natural number.
pub open spec fn setting_under(m: OptionMap, key: Seq<char>) -> Option<bool> {
    match value_under(m, key) {
        Some(Json::Bool(b)) => Some(b),
        Some(Json::Text(s)) => if s == "true"@ || s == "1"@ || s == "yes"@ {
            Some(true)
        } else if s == "false"@ || s == "0"@ || s == "no"@ {
            Some(false)
        } else {
            None
        },
        Some(Json::Number(n)) => match n.spec_u64() {
            Some(v) => Some(v != 0),
            None => None,
        },
        _ => None,
    }
}

/// A value, or what stands for it where there is none.
pub open spec fn or_else<T>(v: Option<T>, other: T) -> T {
    match v {
        Some(x) => x,
        None => other,
    }
}

/// The text under a name, or what stands for it.
pub open spec fn text_or(m: OptionMap, key: Seq<char>, other: Seq<char>) -> Seq<char> {
    match value_under(m, key) {
        Some(Json::Text(s)) => s,
        _ => other,
    }
}

/// A number that counts where it is not zero.
pub open spec fn nonzero(v: Option<u64>) -> Option<u64> {
    match v {
        Some(0) => None,
        _ => v,
    }
}

/// Why a setting cannot be used.
#[derive(Debug, Clone, Copy, PartialEq, Eq, Structural)]
pub enum OptionsError {
    /// The setting is not an integer.
    NotAnInteger,
    /// The setting is an integer, but none that a port can have.
    OutOfRange(u64),
    /// The two ports have to differ.
    SamePort(u16),
    /// A secret has to be set.
    NoSecret,
}

/// The integer that a port is set to.
pub open spec fn port_number(v: Json) -> Option<u64> {
    match v {
        Json::Number(n) => n.spec_u64(),
        Json::Text(s) => match number_in(trimmed(s), u64::MAX as nat) {
            Some(n) => Some(n as u64),
            None => None,
        },
        _ => None,
    }
}

/// The port under a name: the default where it is not set, and an error where it is set to
/// nothing that a port can have.
pub open spec fn checked_port(m: OptionMap, key: Seq<char>, default: u16) -> Result<
    u16,
    OptionsError,
> {
    match value_under(m, key) {
        None => Ok(default),
        Some(v) => match port_number(v) {
            None => Err(OptionsError::NotAnInteger),
            Some(n) => if n == 0 || n > u16::MAX {
                Err(OptionsError::OutOfRange(n))
            } else {
                Ok(n as u16)
            },
        },
    }
}

/// A second control port, and the secret that it asks for.
#[derive(Debug, Clone)]
pub struct PbhRpcConfig {
    pub port: u16,
    pub secret: String,
}

/// The second control port, where it is enabled: not the first one, and never without a secret.
pub open spec fn control_port(m: OptionMap, rpc_port: u16) -> Result<
    Option<(u16, Seq<char>)>,
    OptionsError,
> {
    if !or_else(setting_under(m, "pbh-enable"@), false) {
        Ok(None)
    } else {
        match checked_port(m, "pbh-listen-port"@, DEFAULT_PBH_LISTEN_PORT) {
            Err(e) => Err(e),
            Ok(port) => if port == rpc_port {
                Err(OptionsError::SamePort(port))
            } else if text_under(m, "pbh-rpc-secret"@).len() == 0 {
                Err(OptionsError::NoSecret)
            } else {
                Ok(Some((port, text_under(m, "pbh-rpc-secret"@))))
            },
        }
    }
}

/// The parts between commas, without white space around them and without the empty ones.
pub open spec fn names_in(parts: Seq<Seq<char>>) -> Seq<Seq<char>>
    decreases parts.len(),
{
    if parts.len() == 0 {
        seq![]
    } else {
        let front = names_in(parts.drop_last());
        if trimmed(parts.last()).len() == 0 {
            front
        } else {
            front.push(trimmed(parts.last()))
        }
    }
}

/// The map that pairs of texts make.
pub open spec fn pairs_map(s: Seq<(String, String)>) -> Map<Seq<char>, Seq<char>>
    decreases s.len(),
{
    if s.len() == 0 {
        Map::empty()
    } else {
        pairs_map(s.drop_last()).insert(s.last().0@, s.last().1@)
    }
}

/// The names that stand for texts.
pub open spec fn texts_in(m: OptionMap) -> Map<Seq<char>, Seq<char>> {
    Map::new(|k: Seq<char>| m.contains_key(k) && m[k] is Text, |k: Seq<char>| m[k]->Text_0)
}

fn read_number(s: &str, trims: bool) -> (r: Option<u64>)
    ensures
        match number_in(
            if trims {
                trimmed(s@)
            } else {
                s@
            },
            u64::MAX as nat,
        ) {
            Some(n) => r == Some(n as u64),
            None => r is None,
        },
{
    let c = to_chars(s);
    if trims {
        let t = trim_chars(c.as_slice());
        parse_number(t.as_slice(), u64::MAX)
    } else {
        parse_number(c.as_slice(), u64::MAX)
    }
}

/// True when one of the first `n` entries stands under `k`.
spec fn named_before(s: Seq<(String, Value)>, n: int, k: Seq<char>) -> bool {
    exists|j: int| 0 <= j < n && (#[trigger] s[j]).0@ == k
}

proof fn lemma_named(s: Seq<(String, Value)>, k: Seq<char>)
    ensures
        json_map(s).contains_key(k) ==> named_before(s, s.len() as int, k),
    decreases s.len(),
{
    if s.len() > 0 && json_map(s).contains_key(k) {
        if s.last().0@ == k {
            assert(s[s.len() - 1].0@ == k);
        } else {
            lemma_named(s.drop_last(), k);
            let j = choose|j: int| 0 <= j < s.len() - 1 && (#[trigger] s.drop_last()[j]).0@ == k;
            assert(s[j].0@ == k);
        }
    }
}

fn collect_texts(o: &Object) -> (r: Vec<(String, String)>)
    ensures
        pairs_map(r@) == texts_in(o@),
{
    let mut out: Vec<(String, String)> = Vec::new();
    let ghost all = o.entries@;
    let mut i: usize = 0;
    assert(pairs_map(out@) =~= Map::new(
        |k: Seq<char>| named_before(all, 0, k) && texts_in(o@).contains_key(k),
        |k: Seq<char>| texts_in(o@)[k],
    ));
    while i < o.entries.len()
        invariant
            i <= o.entries.len(),
            all == o.entries@,
            pairs_map(out@) == Map::new(
                |k: Seq<char>| named_before(all, i as int, k) && texts_in(o@).contains_key(k),
                |k: Seq<char>| texts_in(o@)[k],
            ),
        decreases o.entries.len() - i,
    {
        let name = o.entries[i].0.as_str();
        let ghost before = out@;
        if let Some(v) = o.get(name) {
            if let Some(t) = v.as_str() {
                out.push((name.to_string(), t.to_string()));
                assert(out@.drop_last() =~= before);
            }
        }
        proof {
            let next = Map::new(
                |k: Seq<char>| named_before(all, i + 1, k) && texts_in(o@).contains_key(k),
                |k: Seq<char>| texts_in(o@)[k],
            );
            assert forall|k: Seq<char>| named_before(all, i + 1, k) implies named_before(
                all,
                i as int,
                k,
            ) || k == name@ by {
                let j = choose|j: int| 0 <= j < i + 1 && (#[trigger] all[j]).0@ == k;
                if j < i {
                    assert(named_before(all, i as int, k));
                }
            }
            assert(all[i as int].0@ == name@);
            assert(named_before(all, i + 1, name@));
            assert forall|k: Seq<char>| named_before(all, i as int, k) implies named_before(
                all,
                i + 1,
                k,
            ) by {
                let j = choose|j: int| 0 <= j < i && (#[trigger] all[j]).0@ == k;
                assert(all[j].0@ == k);
            }
            assert(pairs_map(out@) =~= next);
        }
        i += 1;
    }
    proof {
        assert forall|k: Seq<char>| texts_in(o@).contains_key(k) implies named_before(
            all,
            i as int,
            k,
        ) by {
            lemma_named(all, k);
        }
        assert(pairs_map(out@) =~= texts_in(o@));
    }
    out
}

impl EngineOptions {
    pub fn get_str(&self, key: &str) -> (r: Option<&str>)
        ensures
            match value_under(self@, key@) {
                Some(Json::Text(s)) => r matches Some(t) && t@ == s,
                _ => r is None,
            },
    {
        match self.global.get(key) {
            Some(v) => v.as_str(),
            None => None,
        }
    }

    fn get_text_or(&self, key: &str, other: &str) -> (r: String)
        ensures
            r@ == text_or(self@, key@, other@),
    {
        match self.get_str(key) {
            Some(s) => s.to_string(),
            None => other.to_string(),
        }
    }

    pub fn get_u64(&self, key: &str) -> (r: Option<u64>)
        ensures
            r == natural_under(self@, key@),
    {
        match self.global.get(key) {
            Some(Value::Number(n)) => n.as_u64(),
            Some(Value::Text(s)) => read_number(s.as_str(), false),
            _ => None,
        }
    }

    /// The flag under a name, in one of the forms that a flag is given in.
    pub fn get_bool(&self, key: &str) -> (r: Option<bool>)
        ensures
            r == setting_under(self@, key@),
    {
        match self.global.get(key) {
            Some(Value::Bool(b)) => Some(*b),
            Some(Value::Text(s)) => {
                let s = s.as_str();
                if same_text(s, "true") || same_text(s, "1") || same_text(s, "yes") {
                    Some(true)
                } else if same_text(s, "false") || same_text(s, "0") || same_text(s, "no") {
                    Some(false)
                } else {
                    None
                }
            },
            Some(Value::Number(n)) => match n.as_u64() {
                Some(v) => Some(v != 0),
                None => None,
            },
            _ => None,
        }
    }

    fn get_bool_or(&self, key: &str, other: bool) -> (r: bool)
        ensures
            r == or_else(setting_under(self@, key@), other),
    {
        match self.get_bool(key) {
            Some(b) => b,
            None => other,
        }
    }

    fn get_nonzero(&self, key: &str) -> (r: Option<u64>)
        ensures
            r == nonzero(natural_under(self@, key@)),
    {
        match self.get_u64(key) {
            Some(n) => if n == 0 {
                None
            } else {
                Some(n)
            },
            None => None,
        }
    }

    fn get_port(&self, key: &str, default: u16) -> (r: Result<u16, OptionsError>)
        ensures
            r == checked_port(self@, key@, default),
    {
        let value = match self.global.get(key) {
            None => {
                return Ok(default);
            },
            Some(v) => v,
        };
        let number = match value {
            Value::Number(n) => n.as_u64(),
            Value::Text(s) => read_number(s.as_str(), true),
            _ => None,
        };
        match number {
            None => Err(OptionsError::NotAnInteger),
            Some(n) => if n == 0 || n > 65535 {
                Err(OptionsError::OutOfRange(n))
            } else {
                Ok(n as u16)
            },
        }
    }

    pub fn set(&mut self, key: String, value: Value)
        ensures
            final(self)@ == old(self)@.insert(key@, value@),
    {
        self.global.insert(key, value);
    }

    pub fn dir(&self) -> (r: String)
        ensures
            r@ == text_or(self@, "dir"@, "."@),
    {
        self.get_text_or("dir", ".")
    }

    pub fn max_concurrent_downloads(&self) -> (r: usize)
        ensures
            r == or_else(natural_under(self@, "max-concurrent-downloads"@), 5) as usize,
    {
        match self.get_u64("max-concurrent-downloads") {
            Some(n) => n as usize,
            None => 5,
        }
    }

    pub fn rpc_listen_port(&self) -> (r: u16)
        ensures
            r == or_else(natural_under(self@, "rpc-listen-port"@), 16800) as u16,
    {
        match self.get_u64("rpc-listen-port") {
            Some(n) => n as u16,
            None => 16800,
        }
    }

    pub fn rpc_host(&self) -> (r: String)
        ensures
            r@ == text_or(self@, "rpc-host"@, "127.0.0.1"@),
    {
        self.get_text_or("rpc-host", "127.0.0.1")
    }

    pub fn rpc_secret(&self) -> (r: String)
        ensures
            r@ == text_or(self@, "rpc-secret"@, ""@),
    {
        self.get_text_or("rpc-secret", "")
    }

    pub fn pbh_enable(&self) -> (r: bool)
        ensures
            r == or_else(setting_under(self@, "pbh-enable"@), false),
    {
        self.get_bool_or("pbh-enable", false)
    }

    pub fn pbh_listen_port_checked(&self) -> (r: Result<u16, OptionsError>)
        ensures
            r == checked_port(self@, "pbh-listen-port"@, DEFAULT_PBH_LISTEN_PORT),
    {
        self.get_port("pbh-listen-port", DEFAULT_PBH_LISTEN_PORT)
    }

    pub fn pbh_listen_port(&self) -> (r: u16)
        ensures
            r == (match checked_port(self@, "pbh-listen-port"@, DEFAULT_PBH_LISTEN_PORT) {
                Ok(port) => port,
                Err(_) => DEFAULT_PBH_LISTEN_PORT,
            }),
    {
        match self.pbh_listen_port_checked() {
            Ok(port) => port,
            Err(_) => DEFAULT_PBH_LISTEN_PORT,
        }
    }

    pub fn pbh_rpc_secret(&self) -> (r: String)
        ensures
            r@ == text_or(self@, "pbh-rpc-secret"@, ""@),
    {
        self.get_text_or("pbh-rpc-secret", "")
    }

    pub fn pbh_rpc_config(&self, rpc_port: u16) -> (r: Result<Option<PbhRpcConfig>, OptionsError>)
        ensures
            match control_port(self@, rpc_port) {
                Err(e) => r == Err::<Option<PbhRpcConfig>, OptionsError>(e),
                Ok(None) => r matches Ok(None),
                Ok(Some((port, secret))) => r matches Ok(Some(c)) && c.port == port && c.secret@
                    == secret,
            },
    {
        if !self.pbh_enable() {
            return Ok(None);
        }
        let port = match self.pbh_listen_port_checked() {
            Err(e) => {
                return Err(e);
            },
            Ok(port) => port,
        };
        if port == rpc_port {
            return Err(OptionsError::SamePort(port));
        }
        let secret = self.pbh_rpc_secret();
        proof {
            reveal_strlit("");
            assert(""@ =~= seq![]);
        }
        if same_text(secret.as_str(), "") {
            return Err(OptionsError::NoSecret);
        }
        assert(secret@.len() > 0) by {
            if secret@.len() == 0 {
                assert(secret@ =~= ""@);
            }
        }
        Ok(Some(PbhRpcConfig { port, secret }))
    }

    pub fn seed_time(&self) -> (r: u64)
        ensures
            r == or_else(natural_under(self@, "seed-time"@), 0),
    {
        match self.get_u64("seed-time") {
            Some(n) => n,
            None => 0,
        }
    }

    /// Keep seeding until the user stops it, whatever the other limits say.
    pub fn keep_seeding(&self) -> (r: bool)
        ensures
            r == or_else(setting_under(self@, "keep-seeding"@), false),
    {
        self.get_bool_or("keep-seeding", false)
    }

    /// The most outstanding requests per peer; zero is no limit of its own.
    pub fn bt_max_outstanding_per_peer(&self) -> (r: Option<usize>)
        ensures
            r == (match nonzero(natural_under(self@, "bt-max-outstanding-per-peer"@)) {
                Some(n) => Some(n as usize),
                None => None,
            }),
    {
        match self.get_nonzero("bt-max-outstanding-per-peer") {
            Some(n) => Some(n as usize),
            None => None,
        }
    }

    /// The most connections per torrent; zero is no limit of its own.
    pub fn bt_max_peers_per_torrent(&self) -> (r: Option<usize>)
        ensures
            r == (match nonzero(natural_under(self@, "bt-max-peers-per-torrent"@)) {
                Some(n) => Some(n as usize),
                None => None,
            }),
    {
        match self.get_nonzero("bt-max-peers-per-torrent") {
            Some(n) => Some(n as usize),
            None => None,
        }
    }

    pub fn bt_upload_rate_limit(&self) -> (r: Option<u64>)
        ensures
            r == nonzero(natural_under(self@, "bt-upload-rate-limit"@)),
    {
        self.get_nonzero("bt-upload-rate-limit")
    }

    pub fn bt_enable_upnp(&self) -> (r: bool)
        ensures
            r == or_else(setting_under(self@, "bt-enable-upnp"@), true),
    {
        self.get_bool_or("bt-enable-upnp", true)
    }

    /// For how many seconds a port mapping is asked for; zero is no time of its own.
    pub fn bt_upnp_lease(&self) -> (r: Option<u64>)
        ensures
            r == nonzero(natural_under(self@, "bt-upnp-lease"@)),
    {
        self.get_nonzero("bt-upnp-lease")
    }

    pub fn bt_encryption_policy(&self) -> (r: &'static str)
        ensures
            r@ == (match value_under(self@, "bt-encryption-policy"@) {
                Some(Json::Text(s)) => if s == "plaintext"@ || s == "require"@ {
                    s
                } else {
                    "prefer"@
                },
                _ => "prefer"@,
            }),
    {
        match self.get_str("bt-encryption-policy") {
            Some(s) => if same_text(s, "plaintext") {
                "plaintext"
            } else if same_text(s, "require") {
                "require"
            } else {
                "prefer"
            },
            None => "prefer",
        }
    }

    pub fn bt_listen_v6(&self) -> (r: bool)
        ensures
            r == or_else(setting_under(self@, "bt-listen-v6"@), false),
    {
        self.get_bool_or("bt-listen-v6", false)
    }

    pub fn bt_enable_lsd(&self) -> (r: bool)
        ensures
            r == or_else(setting_under(self@, "bt-enable-lsd"@), true),
    {
        self.get_bool_or("bt-enable-lsd", true)
    }

    pub fn purge_record_on_start(&self) -> (r: bool)
        ensures
            r == or_else(setting_under(self@, "purge-record-on-start"@), false),
    {
        self.get_bool_or("purge-record-on-start", false)
    }

    pub fn ed2k_servers(&self) -> (r: Vec<String>)
        ensures
            text_views(r@) == names_in(parts_of(text_or(self@, "ed2k-server"@, ""@), ',')),
    {
        let text = self.get_text_or("ed2k-server", "");
        let c = to_chars(text.as_str());
        let parts = split_parts(c.as_slice(), ',');
        let mut out: Vec<String> = Vec::new();
        let mut i: usize = 0;
        let ghost all = chars_views(parts@);
        assert(all.take(0) =~= seq![]);
        assert(text_views(out@) =~= seq![]);
        while i < parts.len()
            invariant
                i <= parts.len(),
                all == chars_views(parts@),
                text_views(out@) == names_in(all.take(i as int)),
            decreases parts.len() - i,
        {
            assert(all.take(i + 1).drop_last() =~= all.take(i as int));
            let t = trim_chars(parts[i].as_slice());
            if t.len() > 0 {
                let ghost before = out@;
                let name = from_chars(t.as_slice());
                out.push(name);
                assert(text_views(out@) =~= text_views(before).push(name@));
            }
            i += 1;
        }
        assert(all.take(i as int) =~= all);
        out
    }

    pub fn ed2k_port(&self) -> (r: u16)
        ensures
            r == (match natural_under(self@, "ed2k-port"@) {
                Some(n) => if 0 < n <= u16::MAX {
                    n as u16
                } else {
                    DEFAULT_ED2K_PORT
                },
                None => DEFAULT_ED2K_PORT,
            }),
    {
        match self.get_u64("ed2k-port") {
            Some(n) => if 0 < n && n <= 65535 {
                n as u16
            } else {
                DEFAULT_ED2K_PORT
            },
            None => DEFAULT_ED2K_PORT,
        }
    }

    pub fn ed2k_enable_kad(&self) -> (r: bool)
        ensures
            r == or_else(setting_under(self@, "ed2k-enable-kad"@), true),
    {
        self.get_bool_or("ed2k-enable-kad", true)
    }

    /// The port of the overlay: the default where it is not set, and an error where it is set to
    /// nothing that a port can have, so that the start can report it.
    pub fn ed2k_kad_port_checked(&self) -> (r: Result<u16, OptionsError>)
        ensures
            r == checked_port(self@, "ed2k-kad-port"@, DEFAULT_ED2K_KAD_PORT),
    {
        self.get_port("ed2k-kad-port", DEFAULT_ED2K_KAD_PORT)
    }

    /// The port of the overlay for callers that cannot report an error.
    pub fn ed2k_kad_port(&self) -> (r: u16)
        ensures
            r == (match checked_port(self@, "ed2k-kad-port"@, DEFAULT_ED2K_KAD_PORT) {
                Ok(port) => port,
                Err(_) => DEFAULT_ED2K_KAD_PORT,
            }),
    {
        match self.ed2k_kad_port_checked() {
            Ok(port) => port,
            Err(_) => DEFAULT_ED2K_KAD_PORT,
        }
    }

    /// Which directory files of a kind go to; of two entries under one name the later counts.
    pub fn file_category_dirs(&self) -> (r: Vec<(String, String)>)
        ensures
            pairs_map(r@) == (match value_under(self@, "file-category-dirs"@) {
                Some(Json::Object(m)) => texts_in(m),
                _ => Map::empty(),
            }),
    {
        let o = match self.global.get("file-category-dirs") {
            Some(Value::Object(o)) => o,
            _ => {
                return Vec::new();
            },
        };
        collect_texts(o)
    }
}

proof fn lemma_pushed_item<T>(s: Seq<T>, last: T, x: T)
    ensures
        s.push(last).contains(x) <==> s.contains(x) || x == last,
{
    let t = s.push(last);
    assert(t[s.len() as int] == last);
    if s.contains(x) {
        let i = choose|i: int| 0 <= i < s.len() && s[i] == x;
        assert(t[i] == x);
    }
    if t.contains(x) {
        let i = choose|i: int| 0 <= i < t.len() && t[i] == x;
        if i < s.len() {
            assert(s[i] == x);
        }
    }
}

/// A port is the default where it is not set; where it is set it has to be a number from 1 to
/// 65535.
pub proof fn which_ports_are_accepted(m: OptionMap, key: Seq<char>, default: u16)
    ensures
        !m.contains_key(key) ==> checked_port(m, key, default) == Ok::<u16, OptionsError>(default),
        m.contains_key(key) ==> {
            let n = port_number(m[key]);
            &&& checked_port(m, key, default) is Ok <==> n is Some && 1 <= n->0 <= 65535
            &&& checked_port(m, key, default) matches Ok(p) ==> n == Some(p as u64)
            &&& n is None ==> checked_port(m, key, default) == Err::<u16, OptionsError>(
                OptionsError::NotAnInteger,
            )
            &&& n is Some && (n->0 == 0 || n->0 > 65535) ==> checked_port(m, key, default) == Err::<
                u16,
                OptionsError,
            >(OptionsError::OutOfRange(n->0))
        },
{
}

/// The second control port is opened only where it is enabled, on another port than the first, and
/// never without a secret.
pub proof fn when_the_second_port_is_opened(m: OptionMap, rpc_port: u16)
    ensures
        ({
            let r = control_port(m, rpc_port);
            let on = setting_under(m, "pbh-enable"@) == Some(true);
            &&& !on ==> r == Ok::<Option<(u16, Seq<char>)>, OptionsError>(None)
            &&& r matches Ok(Some(p)) ==> on && p.0 != rpc_port && p.1.len() > 0 && checked_port(
                m,
                "pbh-listen-port"@,
                DEFAULT_PBH_LISTEN_PORT,
            ) == Ok::<u16, OptionsError>(p.0) && p.1 == text_under(m, "pbh-rpc-secret"@)
            &&& on ==> !(r matches Ok(None))
            &&& on && checked_port(m, "pbh-listen-port"@, DEFAULT_PBH_LISTEN_PORT) == Ok::<
                u16,
                OptionsError,
            >(rpc_port) ==> r is Err
            &&& on && text_under(m, "pbh-rpc-secret"@).len() == 0 ==> r is Err
        }),
{
}

/// Every name between commas is read, without the white space around it; empty ones are passed
/// over.
pub proof fn which_names_are_read(parts: Seq<Seq<char>>)
    ensures
        forall|x: Seq<char>| #[trigger]
            names_in(parts).contains(x) <==> x.len() > 0 && exists|i: int|
                0 <= i < parts.len() && x == trimmed(#[trigger] parts[i]),
        names_in(parts).len() <= parts.len(),
    decreases parts.len(),
{
    if parts.len() > 0 {
        let front = parts.drop_last();
        which_names_are_read(front);
        let before = names_in(front);
        let last = parts.len() - 1;
        assert(parts[last] == parts.last());
        assert forall|x: Seq<char>| #[trigger] names_in(parts).contains(x) <==> x.len() > 0
            && exists|i: int| 0 <= i < parts.len() && x == trimmed(#[trigger] parts[i]) by {
            lemma_pushed_item(before, trimmed(parts.last()), x);
            if before.contains(x) {
                let i = choose|i: int| 0 <= i < front.len() && x == trimmed(#[trigger] front[i]);
                assert(parts[i] == front[i]);
            }
            if x.len() > 0 && exists|i: int|
                0 <= i < parts.len() && x == trimmed(#[trigger] parts[i]) {
                let i = choose|i: int| 0 <= i < parts.len() && x == trimmed(#[trigger] parts[i]);
                if i < last {
                    assert(parts[i] == front[i]);
                    assert(before.contains(x));
                }
            }
        }
    }
}

/// A flag is what it says: a flag itself, one of the words for it, or a number that is zero or not.
pub proof fn what_counts_as_a_setting(m: OptionMap, key: Seq<char>)
    ensures
        !m.contains_key(key) ==> setting_under(m, key) is None,
        m.contains_key(key) ==> {
            &&& m[key] matches Json::Bool(b) ==> setting_under(m, key) == Some(b)
            &&& m[key] matches Json::Text(s) ==> (setting_under(m, key) == Some(true) <==> s
                == "true"@ || s == "1"@ || s == "yes"@)
            &&& m[key] matches Json::Text(s) ==> (s == "false"@ || s == "0"@ || s == "no"@
                ==> setting_under(m, key) == Some(false) || s == "true"@ || s == "1"@ || s == "yes"@)
            &&& m[key] matches Json::Text(s) ==> (setting_under(m, key) is Some ==> s == "true"@ || s
                == "1"@ || s == "yes"@ || s == "false"@ || s == "0"@ || s == "no"@)
            &&& m[key] is Null || m[key] is Array || m[key] is Object ==> setting_under(
                m,
                key,
            ) is None
        },
{
}

} // verus!
