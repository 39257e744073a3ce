use risuko_bt::bencode::Value;
use risuko_bt::net::literal::parse_ip;
use risuko_bt::webseed::link::segments_of;
use risuko_bt::webseed::{
    build_file_url, is_allowed_destination, is_permanent_status, is_retryable_status,
    parse_base_url, parse_content_range, parse_url_list, range_header, validate_range,
    validate_range_response, ByteRange, RangeFetch, WebSeedError, DEFAULT_MAX_RANGE_BYTES,
};

#[test]
fn parses_scalar_and_list_url_list() {
    let scalar = Value::Bytes(b"https://mirror.example/file".to_vec());
    assert_eq!(parse_url_list(&scalar), vec!["https://mirror.example/file"]);

    let with_fragment = Value::Bytes(b"https://mirror.example/file#piece".to_vec());
    assert_eq!(
        parse_url_list(&with_fragment),
        vec!["https://mirror.example/file"]
    );

    let list = Value::List(vec![
        Value::Bytes(b"https://mirror.example/".to_vec()),
        Value::Bytes(b"ftp://mirror.example/file".to_vec()),
        Value::Bytes(b"https://mirror.example/".to_vec()),
        Value::Bytes(vec![0xff]),
    ]);
    assert_eq!(parse_url_list(&list), vec!["https://mirror.example/"]);
}

#[test]
fn rejects_internal_webseed_destinations() {
    for raw in [
        "127.0.0.1",
        "10.0.0.1",
        "169.254.1.1",
        "::1",
        "::127.0.0.1",
        "::ffff:127.0.0.1",
        "fc00::1",
    ] {
        assert!(
            !is_allowed_destination(&parse_ip(raw).unwrap()),
            "accepted {raw}"
        );
    }
    assert!(is_allowed_destination(&parse_ip("192.0.2.1").unwrap()));
    assert!(is_allowed_destination(&parse_ip("::192.0.2.1").unwrap()));
}

#[test]
fn builds_single_and_multi_file_urls() {
    let none: Vec<String> = vec![];
    let path = vec!["dir".to_string(), "a file.bin".to_string()];
    let single = build_file_url("https://mirror.example/pub/", "payload.bin", &none, true).unwrap();
    assert_eq!(single.as_str(), "https://mirror.example/pub/payload.bin");

    let direct = build_file_url(
        "https://mirror.example/payload.bin?download=1",
        "payload.bin",
        &none,
        true,
    )
    .unwrap();
    assert_eq!(
        direct.as_str(),
        "https://mirror.example/payload.bin?download=1"
    );

    let fragment = build_file_url(
        "https://mirror.example/payload.bin#download",
        "payload.bin",
        &none,
        true,
    )
    .unwrap();
    assert_eq!(fragment.as_str(), "https://mirror.example/payload.bin");

    let multi = build_file_url("https://mirror.example/pub/", "root", &path, false).unwrap();
    assert_eq!(
        multi.as_str(),
        "https://mirror.example/pub/root/dir/a%20file.bin"
    );
}

#[test]
fn segments_are_escaped() {
    let none: Vec<String> = vec![];
    let single = build_file_url("https://mirror.example/", "a/b%\\\u{e9}\t?", &none, true).unwrap();
    assert_eq!(
        single.as_str(),
        "https://mirror.example/a%2Fb%25%5C%C3%A9%3F"
    );
    let multi = build_file_url(
        "https://mirror.example/pub/",
        "<root>",
        &vec!["`{}`#\u{7f}".to_string(), "\u{1f600}".to_string()],
        false,
    )
    .unwrap();
    assert_eq!(
        multi.as_str(),
        "https://mirror.example/pub/%3Croot%3E/%60%7B%7D%60%23%7F/%F0%9F%98%80"
    );
}

#[test]
fn rejects_non_root_multi_file_base() {
    let none: Vec<String> = vec![];
    let err = build_file_url("https://mirror.example/root", "root", &none, false);
    assert!(matches!(err, Err(WebSeedError::MultiFileBaseMissingSlash)));
}

#[test]
fn validates_content_range_and_body() {
    let request = validate_range(0, 15, 100, DEFAULT_MAX_RANGE_BYTES).unwrap();
    let got = validate_range_response(
        206,
        Some("bytes 0-15/100"),
        16,
        request,
        DEFAULT_MAX_RANGE_BYTES,
    )
    .unwrap();
    assert_eq!(got, request);

    assert!(matches!(
        validate_range_response(
            200,
            Some("bytes 0-15/100"),
            16,
            request,
            DEFAULT_MAX_RANGE_BYTES,
        ),
        Err(WebSeedError::UnexpectedStatus(200))
    ));
    assert!(matches!(
        validate_range_response(
            206,
            Some("bytes 0-14/100"),
            15,
            request,
            DEFAULT_MAX_RANGE_BYTES,
        ),
        Err(WebSeedError::RangeMismatch)
    ));
}

#[test]
fn rejects_oversized_ranges_and_truncated_bodies() {
    assert_eq!(
        ByteRange {
            start: 2,
            end: 1,
            total: 10,
        }
        .len(),
        0
    );
    assert!(matches!(
        validate_range(0, 100, 101, 100),
        Err(WebSeedError::BodyTooLarge { .. })
    ));
    let request = validate_range(0, 9, 10, 100).unwrap();
    assert!(matches!(
        validate_range_response(206, Some("bytes 0-9/10"), 9, request, 100),
        Err(WebSeedError::BodyLength { .. })
    ));
}

#[test]
fn ranges_are_read_and_written() {
    let range = parse_content_range("bytes 3-7/20").unwrap();
    assert_eq!((range.start, range.end, range.total), (3, 7, 20));
    assert!(parse_content_range("bytes */20").is_err());
    assert!(parse_content_range("items 3-7/20").is_err());
    assert_eq!(range_header(&range), "bytes=3-7");
    assert!(matches!(validate_range(5, 4, 10, 100), Err(WebSeedError::InvalidRange(_))));
}

#[test]
fn written_ranges_are_read_back() {
    for (start, end, total) in [
        (0, 0, 1),
        (3, 7, 20),
        (10, 99, 100),
        (0, u64::MAX - 1, u64::MAX),
        (u64::MAX - 1, u64::MAX - 1, u64::MAX),
    ] {
        let written = format!("bytes {start}-{end}/{total}");
        assert_eq!(
            parse_content_range(&written).unwrap(),
            ByteRange { start, end, total }
        );
    }
    for refused in ["bytes 7-3/20", "bytes 3-20/20", "bytes 0-0/0", "bytes", ""] {
        assert!(matches!(
            parse_content_range(refused),
            Err(WebSeedError::MissingContentRange)
        ));
    }
}

#[test]
fn fetches_collect_exactly_the_range() {
    let request = validate_range(0, 4, 10, 100).unwrap();
    let header = Some("bytes 0-4/10".to_string());
    let mut fetch = RangeFetch::begin(206, header.clone(), Some(5), request, 100).unwrap();
    fetch.on_chunk(b"he").unwrap();
    fetch.on_chunk(b"llo").unwrap();
    assert_eq!(fetch.received(), 5);
    let done = fetch.finish(Some("tag".to_string())).unwrap();
    assert_eq!(&done.body[..], b"hello");
    assert_eq!(done.etag.as_deref(), Some("tag"));

    let mut long = RangeFetch::begin(206, header.clone(), None, request, 5).unwrap();
    long.on_chunk(b"hel").unwrap();
    assert!(matches!(
        long.on_chunk(b"lo!"),
        Err(WebSeedError::BodyTooLarge { actual: 6, limit: 5 })
    ));
    assert!(matches!(
        RangeFetch::begin(206, header.clone(), Some(101), request, 100),
        Err(WebSeedError::BodyTooLarge { actual: 101, limit: 100 })
    ));

    let mut short = RangeFetch::begin(206, header, None, request, 100).unwrap();
    short.on_chunk(b"hel").unwrap();
    assert!(short.finish(None).is_err());
    let mut bare = RangeFetch::begin(206, None, None, request, 100).unwrap();
    bare.on_chunk(b"hello").unwrap();
    assert!(matches!(
        bare.finish(None),
        Err(WebSeedError::MissingContentRange)
    ));
}

#[test]
fn statuses_are_sorted_out() {
    assert!(is_retryable_status(503));
    assert!(!is_retryable_status(404));
    assert!(is_permanent_status(404));
    assert!(!is_permanent_status(503));
}

#[test]
fn base_urls_are_checked() {
    assert!(matches!(parse_base_url("ftp://x/"), Err(WebSeedError::UnsupportedScheme)));
    assert!(matches!(parse_base_url("not a url"), Err(WebSeedError::InvalidUrl(_))));
    assert_eq!(
        parse_base_url("https://mirror.example/a/").unwrap().as_str(),
        "https://mirror.example/a/"
    );
    let none: Vec<String> = vec![];
    assert_eq!(segments_of("/pub/", "f", &none, true).unwrap(), vec!["f"]);
}
