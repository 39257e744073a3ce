use risuko_bt::engine::json::{Number, Object, Value};
use risuko_bt::engine::options::settings::OptionsError;
use risuko_bt::engine::options::{
    value_as_bool, EngineOptions, ProxyReading, DEFAULT_PBH_LISTEN_PORT,
    TASK_P2P_PROXY_OVERRIDE_KEY,
};

fn t(s: &str) -> Value {
    Value::Text(s.to_string())
}

fn n(k: u64) -> Value {
    Value::Number(Number::PosInt(k))
}

fn neg(k: i64) -> Value {
    Value::Number(Number::NegInt(k))
}

fn b(v: bool) -> Value {
    Value::Bool(v)
}

fn list(items: &[&str]) -> Value {
    Value::Array(items.iter().map(|s| t(s)).collect())
}

fn map(entries: Vec<(&str, Value)>) -> Object {
    let mut m = Object::new();
    for (k, v) in entries {
        m.insert(k.to_string(), v);
    }
    m
}

fn obj(entries: Vec<(&str, Value)>) -> Value {
    Value::Object(map(entries))
}

/// No proxy setting.
fn unset() -> ProxyReading {
    ProxyReading {
        normalized: Value::Null,
        http_is_explicit: false,
        p2p_is_explicit: false,
    }
}

/// A proxy setting in the nested form, with the profiles that are set on purpose.
fn nested(proxy: &Value, http_is_explicit: bool, p2p_is_explicit: bool) -> ProxyReading {
    ProxyReading {
        normalized: proxy.clone(),
        http_is_explicit,
        p2p_is_explicit,
    }
}

fn options(system: &Object) -> EngineOptions {
    EngineOptions::from_config(system, &Object::new(), &unset())
}

/// The options of a user who only has a proxy setting.
fn user_proxy(proxy: Value, http_is_explicit: bool, p2p_is_explicit: bool) -> EngineOptions {
    let reading = nested(&proxy, http_is_explicit, p2p_is_explicit);
    EngineOptions::from_config(&Object::new(), &map(vec![("proxy", proxy)]), &reading)
}

fn text<'a>(m: &'a Object, key: &str) -> Option<&'a str> {
    m.get(key).and_then(|v| v.as_str())
}

fn make_system() -> Object {
    map(vec![
        ("dir", t("/downloads")),
        ("max-concurrent-downloads", n(3)),
        ("rpc-listen-port", n(16800)),
        ("rpc-secret", t("secret123")),
        ("seed-ratio", t("1.5")),
        ("ed2k-server", t("srv1,srv2")),
        ("ed2k-port", n(5662)),
    ])
}

fn make_user() -> Object {
    map(vec![
        ("rpc-host", t("0.0.0.0")),
        ("m3u8-output-format", t("mp4")),
        // This key should be ignored (not in the allow list)
        ("dir", t("/user-override")),
    ])
}

// -- from_config --

#[test]
fn from_config_copies_system_keys() {
    let opts = options(&make_system());
    assert_eq!(opts.dir(), "/downloads");
    assert_eq!(opts.max_concurrent_downloads(), 3);
}

#[test]
fn from_config_applies_user_overrides() {
    let opts = EngineOptions::from_config(&make_system(), &make_user(), &unset());
    assert_eq!(opts.rpc_host(), "0.0.0.0");
    assert_eq!(opts.get_str("m3u8-output-format"), Some("mp4"));
    // dir should NOT be overridden from user config
    assert_eq!(opts.dir(), "/downloads");
}

#[test]
fn from_config_applies_engine_overrides_map() {
    let user = map(vec![(
        "engine-overrides",
        obj(vec![
            ("dir", t("/override-dir")),
            ("max-concurrent-downloads", n(12)),
            ("rpc-host", t("10.0.0.2")),
            ("rpc-listen-port", n(17000)),
            ("rpc-secret", t("override-secret")),
        ]),
    )]);

    let opts = EngineOptions::from_config(&make_system(), &user, &unset());
    assert_eq!(opts.dir(), "/override-dir");
    assert_eq!(opts.max_concurrent_downloads(), 12);
    assert_eq!(opts.rpc_host(), "127.0.0.1");
    assert_eq!(opts.rpc_listen_port(), 16800);
    assert_eq!(opts.rpc_secret(), "secret123");
}

#[test]
fn from_config_preserves_system_http_proxy_for_nested_default_profile() {
    let mut system = make_system();
    system.insert("all-proxy".into(), t("http://system-proxy:8080"));
    system.insert("no-proxy".into(), t("localhost,127.0.0.1"));
    let proxy = obj(vec![
        (
            "http",
            obj(vec![
                ("enable", b(false)),
                ("server", t("")),
                ("bypass", t("")),
                (
                    "scope",
                    list(&["download", "update-app", "update-trackers"]),
                ),
            ]),
        ),
        (
            "p2p",
            obj(vec![
                ("enable", b(false)),
                ("server", t("")),
                ("bypass", t("")),
            ]),
        ),
    ]);
    let reading = nested(&proxy, false, false);

    let opts = EngineOptions::from_config(&system, &map(vec![("proxy", proxy)]), &reading);
    assert_eq!(opts.get_str("all-proxy"), Some("http://system-proxy:8080"));
    assert_eq!(opts.get_str("no-proxy"), Some("localhost,127.0.0.1"));
}

#[test]
fn from_config_preserves_system_p2p_proxy_for_nested_default_profile() {
    let mut system = make_system();
    system.insert("p2p-proxy".into(), t("socks5://system-p2p:1080"));
    system.insert("p2p-no-proxy".into(), t("localhost"));
    system.insert("p2p-udp-proxy".into(), t("socks5h://system-p2p-udp:1080"));
    system.insert("p2p-udp-no-proxy".into(), t("127.0.0.1"));
    let proxy = obj(vec![
        (
            "http",
            obj(vec![
                ("enable", b(false)),
                ("server", t("")),
                ("bypass", t("")),
                (
                    "scope",
                    list(&["download", "update-app", "update-trackers"]),
                ),
            ]),
        ),
        (
            "p2p",
            obj(vec![
                ("enable", b(false)),
                ("server", t("")),
                ("bypass", t("")),
                ("udp", obj(vec![("server", t("")), ("bypass", t(""))])),
            ]),
        ),
    ]);
    let reading = nested(&proxy, false, false);

    let opts = EngineOptions::from_config(&system, &map(vec![("proxy", proxy)]), &reading);
    assert_eq!(opts.get_str("p2p-proxy"), Some("socks5://system-p2p:1080"));
    assert_eq!(opts.get_str("p2p-no-proxy"), Some("localhost"));
    assert_eq!(
        opts.get_str("p2p-udp-proxy"),
        Some("socks5h://system-p2p-udp:1080")
    );
    assert_eq!(opts.get_str("p2p-udp-no-proxy"), Some("127.0.0.1"));
}

#[test]
fn from_config_legacy_disabled_proxy_clears_system_http_route() {
    let mut system = make_system();
    system.insert("all-proxy".into(), t("http://system-proxy:8080"));
    system.insert("no-proxy".into(), t("localhost"));
    let legacy = || {
        obj(vec![
            ("enable", b(false)),
            ("server", t("")),
            ("bypass", t("")),
            ("scope", list(&["download"])),
        ])
    };
    // The flat form is that of the profile for downloads, and set on purpose.
    let reading = nested(&obj(vec![("http", legacy())]), true, false);

    let opts = EngineOptions::from_config(&system, &map(vec![("proxy", legacy())]), &reading);
    assert_eq!(opts.get_str("all-proxy"), Some(""));
    assert_eq!(opts.get_str("no-proxy"), Some(""));
}

#[test]
fn profiles_for_other_traffic_leave_downloads_direct() {
    let proxy = obj(vec![(
        "http",
        obj(vec![
            ("enable", b(true)),
            ("server", t(" http://p:1 ")),
            ("bypass", t("localhost")),
            ("scope", list(&["update-app"])),
        ]),
    )]);
    let opts = user_proxy(proxy, false, false);
    assert_eq!(opts.get_str("all-proxy"), Some(""));
    assert_eq!(opts.get_str("no-proxy"), Some(""));

    let proxy = obj(vec![(
        "http",
        obj(vec![
            ("enable", b(true)),
            ("server", t(" http://p:1 ")),
            ("bypass", t("localhost")),
            ("scope", list(&["update-app", "download"])),
        ]),
    )]);
    let opts = user_proxy(proxy, false, false);
    assert_eq!(opts.get_str("all-proxy"), Some("http://p:1"));
    assert_eq!(opts.get_str("no-proxy"), Some("localhost"));
}

// -- getters with defaults --

#[test]
fn getter_defaults_when_empty() {
    let opts = options(&Object::new());
    assert_eq!(opts.dir(), ".");
    assert_eq!(opts.max_concurrent_downloads(), 5);
    assert_eq!(opts.rpc_listen_port(), 16800);
    assert_eq!(opts.rpc_host(), "127.0.0.1");
    assert_eq!(opts.rpc_secret(), "");
    assert_eq!(opts.seed_time(), 0);
    assert!(opts.ed2k_servers().is_empty());
    assert_eq!(opts.ed2k_port(), 4662);
    assert!(opts.ed2k_enable_kad());
    assert_eq!(opts.ed2k_kad_port_checked().unwrap(), 4672);
    assert_eq!(opts.ed2k_kad_port(), 4672);
    assert_eq!(opts.pbh_listen_port_checked().unwrap(), 16801);
    assert_eq!(opts.pbh_listen_port(), 16801);
    assert!(opts.pbh_rpc_config(16800).unwrap().is_none());
}

#[test]
fn p2p_proxy_connector_is_direct_when_profile_is_empty() {
    let opts = options(&Object::new());
    assert!(opts.p2p_proxy_connector().tcp.is_none());
}

#[test]
fn p2p_proxy_connector_uses_an_independent_udp_profile() {
    let opts = user_proxy(
        obj(vec![(
            "p2p",
            obj(vec![
                ("enable", b(true)),
                ("server", t("http://tcp.example:8080")),
                ("bypass", t("tcp.example")),
                (
                    "udp",
                    obj(vec![
                        ("server", t("socks5h://udp.example:1080")),
                        ("bypass", t("udp.example")),
                    ]),
                ),
            ]),
        )]),
        false,
        true,
    );
    assert_eq!(opts.get_str("p2p-proxy"), Some("http://tcp.example:8080"));
    assert_eq!(
        opts.get_str("p2p-udp-proxy"),
        Some("socks5h://udp.example:1080")
    );
    let route = opts.p2p_proxy_connector();
    let tcp = route.tcp.unwrap();
    let udp = route.udp.unwrap();
    assert_eq!(tcp.server, "http://tcp.example:8080");
    assert_eq!(tcp.bypass, "tcp.example");
    assert_eq!(udp.server, "socks5h://udp.example:1080");
    assert_eq!(udp.bypass, "udp.example");
}

#[test]
fn udp_only_p2p_profile_keeps_the_udp_route() {
    let opts = user_proxy(
        obj(vec![(
            "p2p",
            obj(vec![
                ("enable", b(true)),
                ("server", t("")),
                (
                    "udp",
                    obj(vec![
                        ("server", t("socks5h://udp.example:1080")),
                        ("bypass", t("localhost")),
                    ]),
                ),
            ]),
        )]),
        false,
        true,
    );
    assert_eq!(opts.get_str("p2p-proxy"), Some(""));
    assert_eq!(
        opts.get_str("p2p-udp-proxy"),
        Some("socks5h://udp.example:1080")
    );
    let route = opts.p2p_proxy_connector();
    assert!(route.tcp.is_none());
    assert!(route.udp.is_some());
}

#[test]
fn serverless_p2p_profile_has_no_effective_bypass() {
    let opts = user_proxy(
        obj(vec![(
            "p2p",
            obj(vec![
                ("enable", b(true)),
                ("server", t("")),
                ("bypass", t("localhost")),
            ]),
        )]),
        false,
        true,
    );
    assert_eq!(opts.get_str("p2p-proxy"), Some(""));
    assert_eq!(opts.get_str("p2p-no-proxy"), Some(""));
}

#[test]
fn getter_values_from_config() {
    let opts = options(&make_system());
    assert_eq!(opts.rpc_secret(), "secret123");
    assert_eq!(opts.get_str("seed-ratio"), Some("1.5"));
    assert_eq!(opts.ed2k_servers(), vec!["srv1", "srv2"]);
    assert_eq!(opts.ed2k_port(), 5662);
}

#[test]
fn kad_options_parse_and_validate_port() {
    let opts = options(&map(vec![
        ("ed2k-enable-kad", b(false)),
        ("ed2k-kad-port", n(5000)),
    ]));
    assert!(!opts.ed2k_enable_kad());
    assert_eq!(opts.ed2k_kad_port_checked().unwrap(), 5000);

    for invalid in [n(0), n(65536), t("not-a-port"), neg(-1)] {
        let opts = options(&map(vec![("ed2k-kad-port", invalid)]));
        assert!(opts.ed2k_kad_port_checked().is_err());
        assert_eq!(opts.ed2k_kad_port(), 4672);
    }
}

#[test]
fn pbh_options_validate_port_secret_and_collision() {
    let opts = options(&map(vec![
        ("pbh-enable", b(true)),
        ("pbh-listen-port", n(16802)),
        ("pbh-rpc-secret", t("token")),
    ]));
    let cfg = opts.pbh_rpc_config(16800).unwrap().unwrap();
    assert_eq!(cfg.port, 16802);
    assert_eq!(cfg.secret, "token");

    for invalid in [n(0), n(65536), t("not-a-port"), neg(-1)] {
        let opts = options(&map(vec![("pbh-listen-port", invalid)]));
        assert!(opts.pbh_listen_port_checked().is_err());
        assert_eq!(opts.pbh_listen_port(), DEFAULT_PBH_LISTEN_PORT);
    }

    let opts = options(&map(vec![
        ("pbh-enable", b(true)),
        ("pbh-rpc-secret", t("token")),
    ]));
    let err = opts.pbh_rpc_config(16801).unwrap_err();
    assert_eq!(err, OptionsError::SamePort(16801));

    let opts = options(&map(vec![("pbh-enable", b(true))]));
    let err = opts.pbh_rpc_config(16800).unwrap_err();
    assert_eq!(err, OptionsError::NoSecret);
}

#[test]
fn ports_that_are_wrong_say_how() {
    let wrong = |v: Value| {
        options(&map(vec![("pbh-listen-port", v)]))
            .pbh_listen_port_checked()
            .unwrap_err()
    };
    assert_eq!(wrong(t("not-a-port")), OptionsError::NotAnInteger);
    assert_eq!(wrong(n(65536)), OptionsError::OutOfRange(65536));
    assert_eq!(wrong(n(0)), OptionsError::OutOfRange(0));
}

#[test]
fn from_config_forwards_user_pbh_overrides() {
    let user = map(vec![
        ("pbh-enable", b(true)),
        ("pbh-listen-port", n(16802)),
        ("pbh-rpc-secret", t("user-token")),
    ]);
    let opts = EngineOptions::from_config(&Object::new(), &user, &unset());
    let cfg = opts.pbh_rpc_config(16800).unwrap().unwrap();
    assert_eq!(cfg.port, 16802);
    assert_eq!(cfg.secret, "user-token");
}

#[test]
fn get_u64_parses_string() {
    let opts = options(&map(vec![("rpc-listen-port", t("9999"))]));
    assert_eq!(opts.rpc_listen_port(), 9999);
}

// -- set --

#[test]
fn set_overrides_value() {
    let mut opts = options(&make_system());
    opts.set("dir".into(), t("/new"));
    assert_eq!(opts.dir(), "/new");
}

// -- merge_task_options --

#[test]
fn merge_task_options_overrides_globals() {
    let opts = options(&make_system());
    let task = map(vec![("dir", t("/task-dir")), ("out", t("file.zip"))]);

    let merged = opts.merge_task_options(&task, &Value::Null);
    assert_eq!(text(&merged, "dir"), Some("/task-dir"));
    assert_eq!(text(&merged, "out"), Some("file.zip"));
    // Original global key preserved
    assert_eq!(text(&merged, "rpc-secret"), Some("secret123"));
}

#[test]
fn merge_task_options_empty_task_returns_globals() {
    let mut global = make_system();
    global.insert("all-proxy".into(), t("http://http-profile:8080"));
    global.insert("p2p-proxy".into(), t("socks5://p2p-profile:1080"));
    let opts = options(&global);
    let merged = opts.merge_task_options(&Object::new(), &Value::Null);
    assert_eq!(text(&merged, "dir"), Some("/downloads"));
    assert_eq!(text(&merged, "all-proxy"), Some("http://http-profile:8080"));
    assert_eq!(
        text(&merged, "p2p-proxy"),
        Some("socks5://p2p-profile:1080")
    );
    assert!(merged.get(TASK_P2P_PROXY_OVERRIDE_KEY).is_none());
}

#[test]
fn merge_task_options_preserves_explicit_nested_p2p_profile() {
    let mut global = make_system();
    global.insert("p2p-proxy".into(), t("socks5://global:1080"));
    let opts = options(&global);
    let proxy = obj(vec![
        (
            "http",
            obj(vec![
                ("enable", b(true)),
                ("server", t("http://task:8080")),
            ]),
        ),
        (
            "p2p",
            obj(vec![
                ("enable", b(false)),
                ("server", t("socks5://ignored:1080")),
            ]),
        ),
    ]);
    let normalized = proxy.clone();

    let merged = opts.merge_task_options(&map(vec![("proxy", proxy)]), &normalized);
    assert_eq!(text(&merged, "all-proxy"), Some("http://task:8080"));
    assert_eq!(text(&merged, "p2p-proxy"), Some(""));
    assert_eq!(
        merged
            .get(TASK_P2P_PROXY_OVERRIDE_KEY)
            .and_then(|v| v.as_bool()),
        Some(true)
    );
}

#[test]
fn merge_task_options_preserves_nested_udp_override() {
    let mut global = make_system();
    global.insert("p2p-proxy".into(), t("socks5://global:1080"));
    global.insert("p2p-udp-proxy".into(), t("socks5://global-udp:1080"));
    let opts = options(&global);
    let proxy = obj(vec![(
        "p2p",
        obj(vec![
            ("enable", b(true)),
            ("server", t("http://task-tcp:8080")),
            ("bypass", t("task-tcp.example")),
            (
                "udp",
                obj(vec![
                    ("server", t("socks5h://task-udp:1080")),
                    ("bypass", t("task-udp.example")),
                ]),
            ),
        ]),
    )]);
    let normalized = proxy.clone();

    let merged = opts.merge_task_options(&map(vec![("proxy", proxy)]), &normalized);
    assert_eq!(text(&merged, "p2p-proxy"), Some("http://task-tcp:8080"));
    assert_eq!(text(&merged, "p2p-no-proxy"), Some("task-tcp.example"));
    assert_eq!(
        text(&merged, "p2p-udp-proxy"),
        Some("socks5h://task-udp:1080")
    );
    assert_eq!(text(&merged, "p2p-udp-no-proxy"), Some("task-udp.example"));
}

#[test]
fn merge_task_options_nested_empty_udp_inherits_tcp_route() {
    let opts = options(&Object::new());
    let proxy = obj(vec![(
        "p2p",
        obj(vec![
            ("enable", b(true)),
            ("server", t("socks5://task:1080")),
            ("bypass", t("task.example")),
            (
                "udp",
                obj(vec![("server", t("")), ("bypass", t("ignored.example"))]),
            ),
        ]),
    )]);
    let normalized = proxy.clone();

    let merged = opts.merge_task_options(&map(vec![("proxy", proxy)]), &normalized);
    assert_eq!(text(&merged, "p2p-udp-proxy"), Some("socks5://task:1080"));
    assert_eq!(text(&merged, "p2p-udp-no-proxy"), Some("task.example"));
}

#[test]
fn merge_task_options_treats_serverless_profiles_as_direct() {
    let opts = options(&Object::new());
    let proxy = obj(vec![
        (
            "http",
            obj(vec![
                ("enable", b(true)),
                ("server", t("")),
                ("bypass", t("http.example")),
            ]),
        ),
        (
            "p2p",
            obj(vec![
                ("enable", b(true)),
                ("server", t("")),
                ("bypass", t("peer.example")),
            ]),
        ),
    ]);
    let normalized = proxy.clone();

    let merged = opts.merge_task_options(&map(vec![("proxy", proxy)]), &normalized);
    assert_eq!(text(&merged, "all-proxy"), Some(""));
    assert_eq!(text(&merged, "no-proxy"), Some(""));
    assert_eq!(text(&merged, "p2p-proxy"), Some(""));
    assert_eq!(text(&merged, "p2p-no-proxy"), Some(""));
}

#[test]
fn one_server_of_a_task_carries_everything() {
    let opts = options(&map(vec![("p2p-udp-proxy", t("socks5://global:1"))]));
    let task = map(vec![
        ("proxy", t("http://one:1")),
        ("p2p-no-proxy", t("kept.example")),
    ]);
    let merged = opts.merge_task_options(&task, &Value::Null);
    assert_eq!(text(&merged, "all-proxy"), Some("http://one:1"));
    assert_eq!(text(&merged, "p2p-proxy"), Some("http://one:1"));
    assert_eq!(text(&merged, "no-proxy"), Some(""));
    assert_eq!(text(&merged, "p2p-no-proxy"), Some("kept.example"));
    assert_eq!(text(&merged, "p2p-udp-proxy"), Some("http://one:1"));
}

#[test]
fn download_routes_lead_the_other_traffic() {
    let opts = options(&Object::new());
    let task = map(vec![
        ("all-proxy", t("http://d:1")),
        ("no-proxy", t("d.example")),
    ]);
    let merged = opts.merge_task_options(&task, &Value::Null);
    assert_eq!(text(&merged, "p2p-proxy"), Some("http://d:1"));
    assert_eq!(text(&merged, "p2p-no-proxy"), Some("d.example"));
    assert_eq!(text(&merged, "p2p-udp-proxy"), Some("http://d:1"));
    assert_eq!(text(&merged, "p2p-udp-no-proxy"), Some("d.example"));

    let task = map(vec![("p2p-proxy", t("socks5://c:1"))]);
    let merged = opts.merge_task_options(&task, &Value::Null);
    assert_eq!(text(&merged, "p2p-udp-proxy"), Some("socks5://c:1"));
    assert_eq!(text(&merged, "all-proxy"), None);
}

// -- BT accessors --

#[test]
fn get_bool_accepts_native_strings_and_numbers() {
    let opts = options(&map(vec![
        ("a", b(true)),
        ("b", t("true")),
        ("c", t("yes")),
        ("d", t("1")),
        ("e", n(1)),
        ("f", b(false)),
        ("g", t("false")),
        ("h", t("no")),
        ("i", t("0")),
        ("j", n(0)),
        ("k", t("garbage")),
    ]));
    for k in ["a", "b", "c", "d", "e"] {
        assert_eq!(opts.get_bool(k), Some(true), "{k}");
    }
    for k in ["f", "g", "h", "i", "j"] {
        assert_eq!(opts.get_bool(k), Some(false), "{k}");
    }
    assert_eq!(opts.get_bool("k"), None);
    assert_eq!(opts.get_bool("missing"), None);
}

#[test]
fn flags_of_profiles_are_read_loosely() {
    for (value, want) in [
        (b(true), true),
        (t(" ON "), true),
        (t("Yes"), true),
        (t("off"), false),
        (n(2), true),
        (n(0), false),
        (Value::Null, false),
    ] {
        assert_eq!(value_as_bool(&value), want, "{value:?}");
    }
}

#[test]
fn bt_enable_upnp_defaults_true() {
    let opts = options(&Object::new());
    assert!(opts.bt_enable_upnp());
    let opts = options(&map(vec![("bt-enable-upnp", b(false))]));
    assert!(!opts.bt_enable_upnp());
}

#[test]
fn bt_upnp_lease_zero_means_default() {
    let opts = options(&Object::new());
    assert_eq!(opts.bt_upnp_lease(), None);
    let opts = options(&map(vec![("bt-upnp-lease", n(0))]));
    assert_eq!(opts.bt_upnp_lease(), None);
    let opts = options(&map(vec![("bt-upnp-lease", n(120))]));
    assert_eq!(opts.bt_upnp_lease(), Some(120));
}

#[test]
fn bt_encryption_policy_normalises_unknown_to_prefer() {
    let opts = options(&Object::new());
    assert_eq!(opts.bt_encryption_policy(), "prefer");
    for (set, want) in [
        ("plaintext", "plaintext"),
        ("prefer", "prefer"),
        ("require", "require"),
        ("nonsense", "prefer"),
        ("REQUIRE", "prefer"), // case sensitive on purpose
    ] {
        let opts = options(&map(vec![("bt-encryption-policy", t(set))]));
        assert_eq!(opts.bt_encryption_policy(), want, "set={set}");
    }
}

#[test]
fn bt_listen_v6_defaults_false() {
    let opts = options(&Object::new());
    assert!(!opts.bt_listen_v6());
    let opts = options(&map(vec![("bt-listen-v6", b(true))]));
    assert!(opts.bt_listen_v6());
}

#[test]
fn bt_enable_lsd_defaults_true() {
    let opts = options(&Object::new());
    assert!(opts.bt_enable_lsd());
    let opts = options(&map(vec![("bt-enable-lsd", b(false))]));
    assert!(!opts.bt_enable_lsd());
}

#[test]
fn purge_record_on_start_defaults_false() {
    let opts = options(&Object::new());
    assert!(!opts.purge_record_on_start());
}

#[test]
fn purge_record_on_start_from_bool_value() {
    let opts = options(&map(vec![("purge-record-on-start", b(true))]));
    assert!(opts.purge_record_on_start());

    let opts = options(&map(vec![("purge-record-on-start", b(false))]));
    assert!(!opts.purge_record_on_start());
}

#[test]
fn purge_record_on_start_from_string_coercion() {
    for (set, want) in [
        ("true", true),
        ("false", false),
        ("yes", true),
        ("no", false),
        ("1", true),
        ("0", false),
    ] {
        let opts = options(&map(vec![("purge-record-on-start", t(set))]));
        assert_eq!(
            opts.purge_record_on_start(),
            want,
            "string value '{set}' should coerce to {want}"
        );
    }
}

#[test]
fn limits_that_are_zero_do_not_count() {
    let opts = options(&map(vec![
        ("bt-max-peers-per-torrent", n(0)),
        ("keep-seeding", b(true)),
        (
            "file-category-dirs",
            obj(vec![("video", t("/v")), ("music", n(1))]),
        ),
    ]));
    assert_eq!(opts.bt_max_peers_per_torrent(), None);
    assert_eq!(opts.bt_upload_rate_limit(), None);
    assert_eq!(opts.bt_max_outstanding_per_peer(), None);
    assert!(opts.keep_seeding());
    assert!(!opts.pbh_enable());
    assert_eq!(opts.pbh_rpc_secret(), "");
    assert_eq!(
        opts.file_category_dirs(),
        vec![("video".to_string(), "/v".to_string())]
    );
}
