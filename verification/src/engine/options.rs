//! The options of the engine: what the system and the user configure, and what a task adds.

use vstd::prelude::*;

use crate::engine::json::{json_list, json_map, json_of, value_under, Json, Number, Object, Value};
use crate::text::{
    chars_at, equal_ignoring_case, lower_chars, lowered, same_ignoring_case, same_text, text_at,
    to_chars, trim, trimmed,
};

pub mod settings;

verus! {

pub const DEFAULT_ED2K_PORT: u16 = 4662;

pub const DEFAULT_ED2K_KAD_PORT: u16 = 4672;

pub const DEFAULT_PBH_LISTEN_PORT: u16 = 16801;

/// Options by their names.
pub type OptionMap = Map<Seq<char>, Json>;

/// True of the names that the user's overrides cannot set.
pub open spec fn reserved(key: Seq<char>) -> bool {
    let k = lowered(key);
    text_at(k, 0, "rpc-"@) || text_at(k, k.len() - "-port"@.len(), "-port"@) || text_at(
        k,
        k.len() - "-secret"@.len(),
        "-secret"@,
    )
}

fn ends_in(c: &[char], suffix: &str) -> (r: bool)
    ensures
        r == text_at(c@, c@.len() - suffix@.len(), suffix@),
{
    let s = to_chars(suffix);
    if s.len() > c.len() {
        return false;
    }
    chars_at(c, c.len() - s.len(), s.as_slice())
}

fn is_reserved_engine_key(key: &str) -> (r: bool)
    ensures
        r == reserved(key@),
{
    let k = lower_chars(key);
    let prefix = to_chars("rpc-");
    chars_at(k.as_slice(), 0, prefix.as_slice()) || ends_in(k.as_slice(), "-port") || ends_in(
        k.as_slice(),
        "-secret",
    )
}

/// True of the names that the user's configuration sets directly.
pub open spec fn forwarded(key: Seq<char>) -> bool {
    key == "rpc-host"@ || key == "m3u8-output-format"@ || key == "keep-seeding"@ || key
        == "bt-create-subfolder"@ || key == "bt-enable-upnp"@ || key == "bt-upnp-lease"@ || key
        == "bt-encryption-policy"@ || key == "bt-listen-v6"@ || key == "bt-enable-lsd"@ || key
        == "purge-record-on-start"@ || key == "task-routing-rules"@ || key == "file-category-dirs"@
        || key == "max-worker-retries"@ || key == "usenet-profiles"@ || key
        == "usenet-archive-limits"@ || key == "usenet-cleanup-mode"@ || key == "pbh-enable"@ || key
        == "pbh-listen-port"@ || key == "pbh-rpc-secret"@
}

fn is_forwarded(key: &str) -> (r: bool)
    ensures
        r == forwarded(key@),
{
    same_text(key, "rpc-host") || same_text(key, "m3u8-output-format") || same_text(
        key,
        "keep-seeding",
    ) || same_text(key, "bt-create-subfolder") || same_text(key, "bt-enable-upnp") || same_text(
        key,
        "bt-upnp-lease",
    ) || same_text(key, "bt-encryption-policy") || same_text(key, "bt-listen-v6") || same_text(
        key,
        "bt-enable-lsd",
    ) || same_text(key, "purge-record-on-start") || same_text(key, "task-routing-rules")
        || same_text(key, "file-category-dirs") || same_text(key, "max-worker-retries")
        || same_text(key, "usenet-profiles") || same_text(key, "usenet-archive-limits")
        || same_text(key, "usenet-cleanup-mode") || same_text(key, "pbh-enable") || same_text(
        key,
        "pbh-listen-port",
    ) || same_text(key, "pbh-rpc-secret")
}

/// The options that the user's configuration sets directly.
pub open spec fn forwarded_part(m: OptionMap) -> OptionMap {
    Map::new(|k: Seq<char>| m.contains_key(k) && forwarded(k), |k: Seq<char>| m[k])
}

/// The options that the user's overrides can set.
pub open spec fn unreserved_part(m: OptionMap) -> OptionMap {
    Map::new(|k: Seq<char>| m.contains_key(k) && !reserved(k), |k: Seq<char>| m[k])
}

/// The options with the user's overrides, where these are an object.
pub open spec fn with_overrides(global: OptionMap, user: OptionMap) -> OptionMap {
    match value_under(user, "engine-overrides"@) {
        Some(Json::Object(o)) => global.union_prefer_right(unreserved_part(o)),
        _ => global,
    }
}

fn copy_options(into: &mut Object, from: &Object)
    ensures
        final(into)@ == old(into)@.union_prefer_right(from@),
{
    let ghost all = from.entries@;
    let ghost start = into@;
    let mut i: usize = 0;
    assert(all.take(0) =~= seq![]);
    assert(start.union_prefer_right(Map::empty()) =~= start);
    while i < from.entries.len()
        invariant
            i <= from.entries.len(),
            all == from.entries@,
            into@ == start.union_prefer_right(json_map(all.take(i as int))),
        decreases from.entries.len() - i,
    {
        assert(all.take(i + 1).drop_last() =~= all.take(i as int));
        let value = from.entries[i].1.clone();
        into.insert(from.entries[i].0.as_str().to_string(), value);
        assert(into@ =~= start.union_prefer_right(json_map(all.take(i + 1))));
        i += 1;
    }
    assert(all.take(i as int) =~= all);
}

fn copy_forwarded(into: &mut Object, from: &Object)
    ensures
        final(into)@ == old(into)@.union_prefer_right(forwarded_part(from@)),
{
    let ghost all = from.entries@;
    let ghost start = into@;
    let mut i: usize = 0;
    assert(all.take(0) =~= seq![]);
    assert(start.union_prefer_right(forwarded_part(Map::empty())) =~= start);
    while i < from.entries.len()
        invariant
            i <= from.entries.len(),
            all == from.entries@,
            into@ == start.union_prefer_right(forwarded_part(json_map(all.take(i as int)))),
        decreases from.entries.len() - i,
    {
        assert(all.take(i + 1).drop_last() =~= all.take(i as int));
        if is_forwarded(from.entries[i].0.as_str()) {
            let value = from.entries[i].1.clone();
            into.insert(from.entries[i].0.as_str().to_string(), value);
        }
        assert(into@ =~= start.union_prefer_right(forwarded_part(json_map(all.take(i + 1)))));
        i += 1;
    }
    assert(all.take(i as int) =~= all);
}

fn copy_unreserved(into: &mut Object, from: &Object)
    ensures
        final(into)@ == old(into)@.union_prefer_right(unreserved_part(from@)),
{
    let ghost all = from.entries@;
    let ghost start = into@;
    let mut i: usize = 0;
    assert(all.take(0) =~= seq![]);
    assert(start.union_prefer_right(unreserved_part(Map::empty())) =~= start);
    while i < from.entries.len()
        invariant
            i <= from.entries.len(),
            all == from.entries@,
            into@ == start.union_prefer_right(unreserved_part(json_map(all.take(i as int)))),
        decreases from.entries.len() - i,
    {
        assert(all.take(i + 1).drop_last() =~= all.take(i as int));
        if !is_reserved_engine_key(from.entries[i].0.as_str()) {
            let value = from.entries[i].1.clone();
            into.insert(from.entries[i].0.as_str().to_string(), value);
        }
        assert(into@ =~= start.union_prefer_right(unreserved_part(json_map(all.take(i + 1)))));
        i += 1;
    }
    assert(all.take(i as int) =~= all);
}

/// Set what the user's overrides can set.
pub fn apply_engine_overrides(global: &mut Object, user: &Object)
    ensures
        final(global)@ == with_overrides(old(global)@, user@),
{
    if let Some(v) = user.get("engine-overrides") {
        if let Some(o) = v.as_object() {
            copy_unreserved(global, o);
        }
    }
}

/// What counts as true: a flag, a number that is not zero, or a word that says so.
pub open spec fn truth(v: Json) -> bool {
    match v {
        Json::Bool(b) => b,
        Json::Number(n) => n.spec_i64() matches Some(i) && i != 0,
        Json::Text(s) => {
            let t = trimmed(s);
            same_ignoring_case(t, "true"@) || same_ignoring_case(t, "1"@) || same_ignoring_case(
                t,
                "yes"@,
            ) || same_ignoring_case(t, "on"@)
        },
        _ => false,
    }
}

pub fn value_as_bool(value: &Value) -> (r: bool)
    ensures
        r == truth(value@),
{
    match value {
        Value::Bool(b) => *b,
        Value::Number(n) => match n.as_i64() {
            Some(i) => i != 0,
            None => false,
        },
        Value::Text(s) => {
            let t = trim(s.as_str());
            equal_ignoring_case(t.as_str(), "true") || equal_ignoring_case(t.as_str(), "1")
                || equal_ignoring_case(t.as_str(), "yes") || equal_ignoring_case(t.as_str(), "on")
        },
        _ => false,
    }
}

/// The object under a name.
pub open spec fn object_under(m: OptionMap, key: Seq<char>) -> Option<OptionMap> {
    match value_under(m, key) {
        Some(Json::Object(o)) => Some(o),
        _ => None,
    }
}

/// The text under a name; empty where there is none.
pub open spec fn text_under(m: OptionMap, key: Seq<char>) -> Seq<char> {
    match value_under(m, key) {
        Some(Json::Text(s)) => s,
        _ => seq![],
    }
}

/// True when what stands under a name counts as true.
pub open spec fn flag_under(m: OptionMap, key: Seq<char>) -> bool {
    match value_under(m, key) {
        Some(v) => truth(v),
        None => false,
    }
}

fn get_object<'a>(o: &'a Object, key: &str) -> (r: Option<&'a Object>)
    ensures
        match object_under(o@, key@) {
            Some(m) => r matches Some(p) && p@ == m,
            None => r is None,
        },
{
    match o.get(key) {
        Some(v) => v.as_object(),
        None => None,
    }
}

fn get_text(o: &Object, key: &str) -> (r: String)
    ensures
        r@ == text_under(o@, key@),
{
    match o.get(key) {
        Some(v) => match v.as_str() {
            Some(s) => s.to_string(),
            None => String::new(),
        },
        None => String::new(),
    }
}

fn get_flag(o: &Object, key: &str) -> (r: bool)
    ensures
        r == flag_under(o@, key@),
{
    match o.get(key) {
        Some(v) => value_as_bool(v),
        None => false,
    }
}

/// A proxy profile: what it says, where it is there at all.
pub open spec fn profile_of(v: Json, key: Seq<char>) -> OptionMap {
    match v {
        Json::Object(m) => match object_under(m, key) {
            Some(o) => o,
            None => Map::empty(),
        },
        _ => Map::empty(),
    }
}

/// The server of a profile; empty where the profile is off.
pub open spec fn active_server(profile: OptionMap) -> Seq<char> {
    if flag_under(profile, "enable"@) {
        trimmed(text_under(profile, "server"@))
    } else {
        seq![]
    }
}

/// What goes past the server of a profile; empty where there is no active server.
pub open spec fn active_bypass(profile: OptionMap) -> Seq<char> {
    if active_server(profile).len() > 0 {
        text_under(profile, "bypass"@)
    } else {
        seq![]
    }
}

/// The server that a profile names for datagrams only.
pub open spec fn udp_override(profile: OptionMap) -> Seq<char> {
    match object_under(profile, "udp"@) {
        Some(udp) => trimmed(text_under(udp, "server"@)),
        None => seq![],
    }
}

/// The server for datagrams: the profile's own one for them, or that for connections; empty where
/// the profile is off.
pub open spec fn active_udp_server(profile: OptionMap) -> Seq<char> {
    if !flag_under(profile, "enable"@) {
        seq![]
    } else if udp_override(profile).len() > 0 {
        udp_override(profile)
    } else {
        active_server(profile)
    }
}

/// What goes past the server for datagrams.
pub open spec fn active_udp_bypass(profile: OptionMap) -> Seq<char> {
    if active_udp_server(profile).len() == 0 {
        seq![]
    } else if udp_override(profile).len() > 0 {
        match object_under(profile, "udp"@) {
            Some(udp) => text_under(udp, "bypass"@),
            None => seq![],
        }
    } else {
        text_under(profile, "bypass"@)
    }
}

/// The options with the route of peer traffic as a profile says.
pub open spec fn with_p2p_profile(m: OptionMap, profile: OptionMap) -> OptionMap {
    m.insert("p2p-proxy"@, Json::Text(active_server(profile))).insert(
        "p2p-no-proxy"@,
        Json::Text(active_bypass(profile)),
    ).insert("p2p-udp-proxy"@, Json::Text(active_udp_server(profile))).insert(
        "p2p-udp-no-proxy"@,
        Json::Text(active_udp_bypass(profile)),
    )
}

/// The options with the route of downloads as a profile says.
pub open spec fn with_http_profile(m: OptionMap, profile: OptionMap) -> OptionMap {
    m.insert("all-proxy"@, Json::Text(active_server(profile))).insert(
        "no-proxy"@,
        Json::Text(active_bypass(profile)),
    )
}

fn get_profile(v: &Value, key: &str) -> (r: Object)
    ensures
        r@ == profile_of(v@, key@),
{
    match v.as_object() {
        Some(o) => match get_object(o, key) {
            Some(p) => p.clone(),
            None => Object::new(),
        },
        None => Object::new(),
    }
}

fn server_of(profile: &Object) -> (r: String)
    ensures
        r@ == active_server(profile@),
{
    if get_flag(profile, "enable") {
        trim(get_text(profile, "server").as_str())
    } else {
        String::new()
    }
}

fn bypass_of(profile: &Object) -> (r: String)
    ensures
        r@ == active_bypass(profile@),
{
    if !is_empty_text(server_of(profile).as_str()) {
        get_text(profile, "bypass")
    } else {
        String::new()
    }
}

fn is_empty_text(s: &str) -> (r: bool)
    ensures
        r == (s@.len() == 0),
{
    let c = to_chars(s);
    c.len() == 0
}

fn put_p2p_profile(m: &mut Object, profile: &Object)
    ensures
        final(m)@ == with_p2p_profile(old(m)@, profile@),
{
    let enabled = get_flag(profile, "enable");
    let server = server_of(profile);
    let bypass = bypass_of(profile);
    let udp_server = match get_object(profile, "udp") {
        Some(udp) => trim(get_text(udp, "server").as_str()),
        None => String::new(),
    };
    let own = !is_empty_text(udp_server.as_str());
    let route = if !enabled {
        String::new()
    } else if own {
        udp_server
    } else {
        server.as_str().to_string()
    };
    let past = if is_empty_text(route.as_str()) {
        String::new()
    } else if own {
        match get_object(profile, "udp") {
            Some(udp) => get_text(udp, "bypass"),
            None => String::new(),
        }
    } else {
        get_text(profile, "bypass")
    };
    m.insert_text("p2p-proxy", server.as_str());
    m.insert_text("p2p-no-proxy", bypass.as_str());
    m.insert_text("p2p-udp-proxy", route.as_str());
    m.insert_text("p2p-udp-no-proxy", past.as_str());
}

fn put_http_profile(m: &mut Object, profile: &Object)
    ensures
        final(m)@ == with_http_profile(old(m)@, profile@),
{
    let server = server_of(profile);
    let bypass = bypass_of(profile);
    m.insert_text("all-proxy", server.as_str());
    m.insert_text("no-proxy", bypass.as_str());
}

/// How the user's proxy setting is read: its profiles in one form, and which of them it sets on
/// purpose.
#[derive(Debug)]
pub struct ProxyReading {
    pub normalized: Value,
    pub http_is_explicit: bool,
    pub p2p_is_explicit: bool,
}

/// The mathematical value of a [`ProxyReading`].
pub struct ProxyModel {
    pub normalized: Json,
    pub http_is_explicit: bool,
    pub p2p_is_explicit: bool,
}

impl View for ProxyReading {
    type V = ProxyModel;

    open spec fn view(&self) -> ProxyModel {
        ProxyModel {
            normalized: self.normalized@,
            http_is_explicit: self.http_is_explicit,
            p2p_is_explicit: self.p2p_is_explicit,
        }
    }
}

/// True when a profile is for downloads too.
pub open spec fn covers_downloads(profile: OptionMap) -> bool {
    match value_under(profile, "scope"@) {
        Some(Json::Array(items)) => items.contains(Json::Text("download"@)),
        _ => false,
    }
}

/// The options with the route of downloads as a profile says, where it is for them.
pub open spec fn with_download_profile(m: OptionMap, profile: OptionMap) -> OptionMap {
    if covers_downloads(profile) {
        with_http_profile(m, profile)
    } else {
        with_http_profile(m, Map::empty())
    }
}

/// The options with the routes that the user's proxy setting names.
pub open spec fn with_user_proxy(m: OptionMap, proxy: ProxyModel) -> OptionMap {
    let http = profile_of(proxy.normalized, "http"@);
    let p2p = profile_of(proxy.normalized, "p2p"@);
    let routed = if flag_under(http, "enable"@) || proxy.http_is_explicit {
        with_download_profile(m, http)
    } else {
        m
    };
    if proxy.p2p_is_explicit {
        with_p2p_profile(routed, p2p)
    } else {
        routed
    }
}

/// The options that the system's configuration and the user's make.
pub open spec fn configured(system: OptionMap, user: OptionMap, proxy: ProxyModel) -> OptionMap {
    let m = with_overrides(system.union_prefer_right(forwarded_part(user)), user);
    if user.contains_key("proxy"@) {
        with_user_proxy(m, proxy)
    } else {
        m
    }
}

fn has_download_scope(profile: &Object) -> (r: bool)
    ensures
        r == covers_downloads(profile@),
{
    let items = match profile.get("scope") {
        Some(Value::Array(items)) => items,
        _ => {
            return false;
        },
    };
    let mut i: usize = 0;
    proof {
        lemma_list(items@);
    }
    while i < items.len()
        invariant
            i <= items.len(),
            value_under(profile@, "scope"@) == Some(Json::Array(json_list(items@))),
            json_list(items@).len() == items.len(),
            forall|j: int| 0 <= j < items.len() ==> #[trigger] json_list(items@)[j] == json_of(items@[j]),
            forall|j: int|
                0 <= j < i ==> #[trigger] json_list(items@)[j] != Json::Text("download"@),
        decreases items.len() - i,
    {
        assert(json_list(items@)[i as int] == json_of(items@[i as int]));
        if let Some(s) = items[i].as_str() {
            if same_text(s, "download") {
                assert(json_list(items@)[i as int] == Json::Text("download"@));
                return true;
            }
        }
        i += 1;
    }
    false
}

proof fn lemma_list(s: Seq<Value>)
    ensures
        json_list(s).len() == s.len(),
        forall|j: int| 0 <= j < s.len() ==> #[trigger] json_list(s)[j] == json_of(s[j]),
    decreases s.len(),
{
    if s.len() > 0 {
        lemma_list(s.drop_last());
    }
}

/// What marks the options of a task that has a route of its own.
pub const TASK_P2P_PROXY_OVERRIDE_KEY: &'static str = "risuko-task-p2p-proxy-override";

/// The options that are applied to every task.
#[derive(Debug, Clone)]
pub struct EngineOptions {
    pub global: Object,
}

impl View for EngineOptions {
    type V = OptionMap;

    open spec fn view(&self) -> OptionMap {
        self.global@
    }
}

/// True when a task names a route for downloads.
pub open spec fn has_http_route(task: OptionMap) -> bool {
    task.contains_key("all-proxy"@) || task.contains_key("no-proxy"@) || task.contains_key("proxy"@)
}

/// The profile for peer traffic inside a task's proxy setting.
pub open spec fn nested_p2p(task: OptionMap) -> Option<Json> {
    match object_under(task, "proxy"@) {
        Some(proxy) => value_under(proxy, "p2p"@),
        None => None,
    }
}

/// True when a task names a route for peer traffic.
pub open spec fn has_p2p_route(task: OptionMap) -> bool {
    task.contains_key("p2p-proxy"@) || task.contains_key("p2p-no-proxy"@) || task.contains_key(
        "p2p-udp-proxy"@,
    ) || task.contains_key("p2p-udp-no-proxy"@) || nested_p2p(task) is Some
}

/// True when a task names a route for datagrams.
pub open spec fn has_udp_route(task: OptionMap) -> bool {
    task.contains_key("p2p-udp-proxy"@) || task.contains_key("p2p-udp-no-proxy"@) || (nested_p2p(
        task,
    ) matches Some(Json::Object(p2p)) && p2p.contains_key("udp"@))
}

/// The options with a value that the task does not give itself.
pub open spec fn unless_given(
    m: OptionMap,
    task: OptionMap,
    key: Seq<char>,
    text: Seq<char>,
) -> OptionMap {
    if task.contains_key(key) {
        m
    } else {
        m.insert(key, Json::Text(text))
    }
}

/// The options with one server for everything.
pub open spec fn with_one_server(m: OptionMap, task: OptionMap, server: Seq<char>) -> OptionMap {
    let m = m.insert("all-proxy"@, Json::Text(server)).insert("p2p-proxy"@, Json::Text(server));
    let m = unless_given(m, task, "no-proxy"@, seq![]);
    let m = unless_given(m, task, "p2p-no-proxy"@, seq![]);
    let m = unless_given(m, task, "p2p-udp-proxy"@, server);
    unless_given(m, task, "p2p-udp-no-proxy"@, seq![])
}

/// The options with the routes of those profiles that are there.
pub open spec fn with_profiles(m: OptionMap, normalized: Json) -> OptionMap {
    match normalized {
        Json::Object(n) => {
            let m = match object_under(n, "http"@) {
                Some(http) => with_http_profile(m, http),
                None => m,
            };
            match object_under(n, "p2p"@) {
                Some(p2p) => with_p2p_profile(m, p2p),
                None => m,
            }
        },
        _ => m,
    }
}

/// The options with one value under a second name too.
pub open spec fn also_under(m: OptionMap, from: Seq<char>, to: Seq<char>) -> OptionMap {
    match value_under(m, from) {
        Some(v) => m.insert(to, v),
        None => m,
    }
}

/// The options with peer traffic on the route of downloads.
pub open spec fn p2p_like_http(m: OptionMap) -> OptionMap {
    also_under(
        also_under(
            also_under(
                also_under(m, "all-proxy"@, "p2p-proxy"@),
                "no-proxy"@,
                "p2p-no-proxy"@,
            ),
            "all-proxy"@,
            "p2p-udp-proxy"@,
        ),
        "no-proxy"@,
        "p2p-udp-no-proxy"@,
    )
}

/// The options with datagrams on the route of connections.
pub open spec fn udp_like_tcp(m: OptionMap) -> OptionMap {
    also_under(
        also_under(m, "p2p-proxy"@, "p2p-udp-proxy"@),
        "p2p-no-proxy"@,
        "p2p-udp-no-proxy"@,
    )
}

/// The options of a task: its own over the global ones. A route for downloads counts for peer
/// traffic too, and one for connections for datagrams, unless the task names another.
pub open spec fn merged(global: OptionMap, task: OptionMap, normalized: Json) -> OptionMap {
    let m = global.union_prefer_right(task);
    let m = match value_under(task, "proxy"@) {
        Some(Json::Text(server)) => with_one_server(m, task, server),
        Some(Json::Object(_)) => with_profiles(m, normalized),
        _ => m,
    };
    let m = if has_http_route(task) && !has_p2p_route(task) {
        p2p_like_http(m)
    } else {
        m
    };
    let m = if has_p2p_route(task) && !has_udp_route(task) {
        udp_like_tcp(m)
    } else {
        m
    };
    if has_http_route(task) || has_p2p_route(task) {
        m.insert(TASK_P2P_PROXY_OVERRIDE_KEY@, Json::Bool(true))
    } else {
        m
    }
}

fn put_unless_given(m: &mut Object, task: &Object, key: &str, text: &str)
    ensures
        final(m)@ == unless_given(old(m)@, task@, key@, text@),
{
    if !task.contains_key(key) {
        m.insert_text(key, text);
    }
}

fn put_also_under(m: &mut Object, from: &str, to: &str)
    ensures
        final(m)@ == also_under(old(m)@, from@, to@),
{
    let value = match m.get(from) {
        Some(v) => Some(v.clone()),
        None => None,
    };
    if let Some(v) = value {
        m.insert(to.to_string(), v);
    }
}

impl EngineOptions {
    /// Put together the system's configuration and the user's. `proxy` is how the user's proxy
    /// setting is read; it does not count where there is none.
    pub fn from_config(system: &Object, user: &Object, proxy: &ProxyReading) -> (r: Self)
        ensures
            r@ == configured(system@, user@, proxy@),
    {
        let mut global = system.clone();
        copy_forwarded(&mut global, user);
        apply_engine_overrides(&mut global, user);
        if user.contains_key("proxy") {
            let http = get_profile(&proxy.normalized, "http");
            let p2p = get_profile(&proxy.normalized, "p2p");
            if get_flag(&http, "enable") || proxy.http_is_explicit {
                if has_download_scope(&http) {
                    put_http_profile(&mut global, &http);
                } else {
                    put_http_profile(&mut global, &Object::new());
                }
            }
            if proxy.p2p_is_explicit {
                put_p2p_profile(&mut global, &p2p);
            }
        }
        EngineOptions { global }
    }

    /// Merge the options of a task over the global ones. `normalized` is how the task's proxy
    /// setting is read, where it is an object.
    pub fn merge_task_options(&self, task_opts: &Object, normalized: &Value) -> (r: Object)
        ensures
            r@ == merged(self@, task_opts@, normalized@),
    {
        let mut m = self.global.clone();
        copy_options(&mut m, task_opts);
        let nested = match get_object(task_opts, "proxy") {
            Some(proxy) => proxy.get("p2p"),
            None => None,
        };
        let nested_udp = match nested {
            Some(v) => match v.as_object() {
                Some(p2p) => p2p.contains_key("udp"),
                None => false,
            },
            None => false,
        };
        let http_route = task_opts.contains_key("all-proxy") || task_opts.contains_key("no-proxy")
            || task_opts.contains_key("proxy");
        let p2p_route = task_opts.contains_key("p2p-proxy") || task_opts.contains_key(
            "p2p-no-proxy",
        ) || task_opts.contains_key("p2p-udp-proxy") || task_opts.contains_key("p2p-udp-no-proxy")
            || nested.is_some();
        let udp_route = task_opts.contains_key("p2p-udp-proxy") || task_opts.contains_key(
            "p2p-udp-no-proxy",
        ) || nested_udp;
        match task_opts.get("proxy") {
            Some(Value::Text(server)) => {
                m.insert_text("all-proxy", server.as_str());
                m.insert_text("p2p-proxy", server.as_str());
                put_unless_given(&mut m, task_opts, "no-proxy", "");
                put_unless_given(&mut m, task_opts, "p2p-no-proxy", "");
                put_unless_given(&mut m, task_opts, "p2p-udp-proxy", server.as_str());
                put_unless_given(&mut m, task_opts, "p2p-udp-no-proxy", "");
            },
            Some(Value::Object(_)) => {
                if let Some(n) = normalized.as_object() {
                    if let Some(http) = get_object(n, "http") {
                        put_http_profile(&mut m, http);
                    }
                    if let Some(p2p) = get_object(n, "p2p") {
                        put_p2p_profile(&mut m, p2p);
                    }
                }
            },
            _ => {},
        }
        proof {
            reveal_strlit("");
            assert(""@ =~= seq![]);
        }
        if http_route && !p2p_route {
            put_also_under(&mut m, "all-proxy", "p2p-proxy");
            put_also_under(&mut m, "no-proxy", "p2p-no-proxy");
            put_also_under(&mut m, "all-proxy", "p2p-udp-proxy");
            put_also_under(&mut m, "no-proxy", "p2p-udp-no-proxy");
        }
        if p2p_route && !udp_route {
            put_also_under(&mut m, "p2p-proxy", "p2p-udp-proxy");
            put_also_under(&mut m, "p2p-no-proxy", "p2p-udp-no-proxy");
        }
        if http_route || p2p_route {
            m.insert(TASK_P2P_PROXY_OVERRIDE_KEY.to_string(), Value::Bool(true));
        }
        m
    }
}

/// True of the names of the routes, and of the mark of a task that has one.
pub open spec fn names_a_route(k: Seq<char>) -> bool {
    k == "all-proxy"@ || k == "no-proxy"@ || k == "p2p-proxy"@ || k == "p2p-no-proxy"@ || k
        == "p2p-udp-proxy"@ || k == "p2p-udp-no-proxy"@
}

/// A task that sets nothing has the global options.
pub proof fn tasks_that_set_nothing(global: OptionMap, normalized: Json)
    ensures
        merged(global, Map::empty(), normalized) == global,
{
    assert(global.union_prefer_right(Map::empty()) =~= global);
}

/// But for the routes, what a task sets counts, and what it does not set is global.
pub proof fn task_options_win(global: OptionMap, task: OptionMap, normalized: Json, k: Seq<char>)
    requires
        !names_a_route(k),
        k != TASK_P2P_PROXY_OVERRIDE_KEY@,
    ensures
        value_under(merged(global, task, normalized), k) == (if task.contains_key(k) {
            Some(task[k])
        } else {
            value_under(global, k)
        }),
{
}

/// A task is marked when it has a route of its own; where it has none, the mark is as it was.
pub proof fn tasks_with_routes_are_marked(global: OptionMap, task: OptionMap, normalized: Json)
    ensures
        has_http_route(task) || has_p2p_route(task) ==> value_under(
            merged(global, task, normalized),
            TASK_P2P_PROXY_OVERRIDE_KEY@,
        ) == Some(Json::Bool(true)),
        !has_http_route(task) && !has_p2p_route(task) ==> merged(global, task, normalized)
            == global.union_prefer_right(task),
{
}

proof fn lemma_route_names()
    ensures
        "all-proxy"@ != "no-proxy"@,
        "all-proxy"@ != "p2p-proxy"@,
        "all-proxy"@ != "p2p-no-proxy"@,
        "all-proxy"@ != "p2p-udp-proxy"@,
        "all-proxy"@ != "p2p-udp-no-proxy"@,
        "no-proxy"@ != "p2p-proxy"@,
        "no-proxy"@ != "p2p-no-proxy"@,
        "no-proxy"@ != "p2p-udp-proxy"@,
        "no-proxy"@ != "p2p-udp-no-proxy"@,
        "p2p-proxy"@ != "p2p-no-proxy"@,
        "p2p-proxy"@ != "p2p-udp-proxy"@,
        "p2p-proxy"@ != "p2p-udp-no-proxy"@,
        "p2p-no-proxy"@ != "p2p-udp-proxy"@,
        "p2p-no-proxy"@ != "p2p-udp-no-proxy"@,
        "p2p-udp-proxy"@ != "p2p-udp-no-proxy"@,
        "risuko-task-p2p-proxy-override"@.len() == 30,
        forall|k: Seq<char>| #[trigger]
            names_a_route(k) ==> k.len() > 6 && k.len() < 20 && k.last() == 'y' && (k[0] == 'a'
                || k[0] == 'n' || k[0] == 'p'),
{
    reveal_strlit("all-proxy");
    reveal_strlit("no-proxy");
    reveal_strlit("p2p-proxy");
    reveal_strlit("p2p-no-proxy");
    reveal_strlit("p2p-udp-proxy");
    reveal_strlit("p2p-udp-no-proxy");
    reveal_strlit("risuko-task-p2p-proxy-override");
    assert("all-proxy"@[0] == 'a');
    assert("p2p-proxy"@[0] == 'p');
    assert("p2p-proxy"@.len() == 9 && "all-proxy"@.len() == 9 && "no-proxy"@.len() == 8
        && "p2p-no-proxy"@.len() == 12 && "p2p-udp-proxy"@.len() == 13
        && "p2p-udp-no-proxy"@.len() == 16);
}

/// Where a task names a route for downloads alone, peer traffic takes it too.
pub proof fn downloads_lead_the_way(global: OptionMap, task: OptionMap, normalized: Json)
    requires
        has_http_route(task),
        !has_p2p_route(task),
        value_under(merged(global, task, normalized), "all-proxy"@) is Some,
        value_under(merged(global, task, normalized), "no-proxy"@) is Some,
    ensures
        ({
            let m = merged(global, task, normalized);
            &&& m["p2p-proxy"@] == m["all-proxy"@]
            &&& m["p2p-udp-proxy"@] == m["all-proxy"@]
            &&& m["p2p-no-proxy"@] == m["no-proxy"@]
            &&& m["p2p-udp-no-proxy"@] == m["no-proxy"@]
        }),
{
    lemma_route_names();
    assert("all-proxy"@.len() < 20) by {
        assert(names_a_route("all-proxy"@));
    }
    assert("no-proxy"@.len() < 20) by {
        assert(names_a_route("no-proxy"@));
    }
    assert(names_a_route("p2p-proxy"@));
    assert(names_a_route("p2p-no-proxy"@));
    assert(names_a_route("p2p-udp-proxy"@));
    assert(names_a_route("p2p-udp-no-proxy"@));
}

/// Where a task names a route for connections alone, datagrams take it too.
pub proof fn connections_lead_the_way(global: OptionMap, task: OptionMap, normalized: Json)
    requires
        has_p2p_route(task),
        !has_udp_route(task),
        value_under(merged(global, task, normalized), "p2p-proxy"@) is Some,
        value_under(merged(global, task, normalized), "p2p-no-proxy"@) is Some,
    ensures
        ({
            let m = merged(global, task, normalized);
            &&& m["p2p-udp-proxy"@] == m["p2p-proxy"@]
            &&& m["p2p-udp-no-proxy"@] == m["p2p-no-proxy"@]
        }),
{
    lemma_route_names();
    assert(names_a_route("p2p-proxy"@));
    assert(names_a_route("p2p-no-proxy"@));
    assert(names_a_route("p2p-udp-proxy"@));
    assert(names_a_route("p2p-udp-no-proxy"@));
}

/// What is reserved stays as the system configures it, whatever the user's overrides say, but for
/// the settings that the user's configuration sets directly.
pub proof fn reserved_settings_stay(
    system: OptionMap,
    user: OptionMap,
    proxy: ProxyModel,
    k: Seq<char>,
)
    requires
        reserved(k),
        !forwarded(k),
    ensures
        value_under(configured(system, user, proxy), k) == value_under(system, k),
{
    assert(!names_a_route(k)) by {
        if names_a_route(k) {
            lemma_route_names();
            reveal_strlit("rpc-");
            reveal_strlit("-port");
            reveal_strlit("-secret");
            let l = lowered(k);
            assert(l[0] == k[0]);
            assert(l.last() == 'y');
            if text_at(l, 0, "rpc-"@) {
                assert(l.subrange(0, 4)[0] == l[0]);
            }
            if text_at(l, l.len() - "-port"@.len(), "-port"@) {
                assert(l.subrange(l.len() - 5, l.len() as int)[4] == l[l.len() - 1]);
            }
            if text_at(l, l.len() - "-secret"@.len(), "-secret"@) {
                assert(l.subrange(l.len() - 7, l.len() as int)[6] == l[l.len() - 1]);
            }
        }
    }
}

/// What a profile says of the route of connections and datagrams: nothing goes anywhere where it is
/// off; a server for datagrams of its own goes before that for connections, each with what goes
/// past it.
pub proof fn what_a_profile_says(profile: OptionMap)
    ensures
        ({
            let on = profile.contains_key("enable"@) && truth(profile["enable"@]);
            let server = trimmed(text_under(profile, "server"@));
            let own = udp_override(profile);
            &&& active_server(profile) == (if on {
                server
            } else {
                Seq::<char>::empty()
            })
            &&& !on ==> active_udp_server(profile).len() == 0 && active_bypass(profile).len() == 0
                && active_udp_bypass(profile).len() == 0
            &&& on && own.len() > 0 ==> active_udp_server(profile) == own
            &&& on && own.len() == 0 ==> active_udp_server(profile) == server
                && active_udp_bypass(profile) == active_bypass(profile)
            &&& on && server.len() > 0 ==> active_bypass(profile) == text_under(profile, "bypass"@)
            &&& on && server.len() == 0 ==> active_bypass(profile).len() == 0
        }),
{
}

/// The routes that a profile names stand under the keys for them, and nothing else changes.
pub proof fn where_routes_are_set(m: OptionMap, profile: OptionMap, k: Seq<char>)
    ensures
        with_http_profile(m, profile)["all-proxy"@] == Json::Text(active_server(profile)),
        with_http_profile(m, profile)["no-proxy"@] == Json::Text(active_bypass(profile)),
        with_p2p_profile(m, profile)["p2p-proxy"@] == Json::Text(active_server(profile)),
        with_p2p_profile(m, profile)["p2p-no-proxy"@] == Json::Text(active_bypass(profile)),
        with_p2p_profile(m, profile)["p2p-udp-proxy"@] == Json::Text(active_udp_server(profile)),
        with_p2p_profile(m, profile)["p2p-udp-no-proxy"@] == Json::Text(active_udp_bypass(profile)),
        k != "all-proxy"@ && k != "no-proxy"@ ==> with_http_profile(m, profile).contains_key(k)
            == m.contains_key(k) && (m.contains_key(k) ==> with_http_profile(m, profile)[k] == m[k]),
        k != "p2p-proxy"@ && k != "p2p-no-proxy"@ && k != "p2p-udp-proxy"@ && k
            != "p2p-udp-no-proxy"@ ==> with_p2p_profile(m, profile).contains_key(k)
            == m.contains_key(k) && (m.contains_key(k) ==> with_p2p_profile(m, profile)[k] == m[k]),
{
    reveal_strlit("all-proxy");
    reveal_strlit("no-proxy");
    reveal_strlit("p2p-proxy");
    reveal_strlit("p2p-no-proxy");
    reveal_strlit("p2p-udp-proxy");
    reveal_strlit("p2p-udp-no-proxy");
    assert("all-proxy"@.len() == 9 && "no-proxy"@.len() == 8 && "p2p-proxy"@.len() == 9
        && "p2p-no-proxy"@.len() == 12 && "p2p-udp-proxy"@.len() == 13 && "p2p-udp-no-proxy"@.len()
        == 16);
}

/// What counts as true: a flag that is set, a number other than zero, and the words "true", "1",
/// "yes" and "on", however they are spelled.
pub proof fn what_counts_as_true(s: Seq<char>)
    ensures
        truth(Json::Bool(true)) && !truth(Json::Bool(false)),
        !truth(Json::Null),
        truth(Json::Text(s)) <==> same_ignoring_case(trimmed(s), "true"@) || same_ignoring_case(
            trimmed(s),
            "1"@,
        ) || same_ignoring_case(trimmed(s), "yes"@) || same_ignoring_case(trimmed(s), "on"@),
{
}

/// The user's configuration goes over the system's where it may: the settings that it sets directly
/// and, of its overrides, all that are not reserved. What neither names is as the system has it.
pub proof fn what_is_configured(
    system: OptionMap,
    user: OptionMap,
    proxy: ProxyModel,
    k: Seq<char>,
)
    requires
        !user.contains_key("proxy"@),
    ensures
        ({
            let out = configured(system, user, proxy);
            let over = user.contains_key("engine-overrides"@) && user["engine-overrides"@] is Object
                && user["engine-overrides"@]->Object_0.contains_key(k) && !reserved(k);
            &&& over ==> out.contains_key(k) && out[k] == user["engine-overrides"@]->Object_0[k]
            &&& !over && user.contains_key(k) && forwarded(k) ==> out.contains_key(k) && out[k]
                == user[k]
            &&& !over && !(user.contains_key(k) && forwarded(k)) ==> out.contains_key(k)
                == system.contains_key(k) && (system.contains_key(k) ==> out[k] == system[k])
        }),
{
}

} // verus!
