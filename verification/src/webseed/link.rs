//! The addresses of web seeds, and of the files on them.

use vstd::prelude::*;

use crate::bencode::{lemma_model_list, model, model_list, text_in, Bencode, Value};
use crate::text::{same_text, text_views, to_chars, trim, trimmed};
use crate::webseed::{WebSeedError, WebSeedFault};

verus! {

/// The most bytes that a URL may have.
pub const MAX_URL_BYTES: u64 = 4_294_967_295;

/// The normal form of an absolute URL, or why it is none.
pub uninterp spec fn url_parsed(raw: Seq<char>) -> Result<Seq<char>, Seq<char>>;

/// The scheme of a URL; empty where the text is none.
pub uninterp spec fn url_scheme_of(text: Seq<char>) -> Seq<char>;

/// The host of a URL that has one.
pub uninterp spec fn url_host_of(text: Seq<char>) -> Option<Seq<char>>;

/// The path of a URL; empty where the text is none.
pub uninterp spec fn url_path_of(text: Seq<char>) -> Seq<char>;

/// A URL without its fragment; the text itself where it is none.
pub uninterp spec fn url_without_fragment(text: Seq<char>) -> Seq<char>;

/// A URL with further segments behind its path, in place of an empty last one; nothing where its
/// path has no segments.
pub uninterp spec fn url_with_segments(text: Seq<char>, segments: Seq<Seq<char>>) -> Option<
    Seq<char>,
>;

/// `url::Url::parse`: the normal form of the URL, or the message of the error.
#[verifier::external_body]
fn url_parse(raw: &str) -> (r: Result<String, String>)
    ensures
        match url_parsed(raw@) {
            Ok(t) => r matches Ok(s) && s@ == t,
            Err(m) => r matches Err(s) && s@ == m,
        },
{
    url::Url::parse(raw).map(String::from).map_err(|e| e.to_string())
}

/// `url::Url::scheme`, of a text that is parsed for it.
#[verifier::external_body]
fn url_scheme(text: &str) -> (r: String)
    ensures
        r@ == url_scheme_of(text@),
{
    url::Url::parse(text).map(|u| u.scheme().to_string()).unwrap_or_default()
}

/// `url::Url::host_str`, of a text that is parsed for it.
#[verifier::external_body]
fn url_host(text: &str) -> (r: Option<String>)
    ensures
        match url_host_of(text@) {
            Some(h) => r matches Some(s) && s@ == h,
            None => r is None,
        },
{
    url::Url::parse(text).ok().and_then(|u| u.host_str().map(str::to_string))
}

/// `url::Url::path`, of a text that is parsed for it.
#[verifier::external_body]
fn url_path(text: &str) -> (r: String)
    ensures
        r@ == url_path_of(text@),
{
    url::Url::parse(text).map(|u| u.path().to_string()).unwrap_or_default()
}

/// `url::Url::set_fragment` with no fragment, of a text that is parsed for it.
#[verifier::external_body]
fn url_strip_fragment(text: &str) -> (r: String)
    ensures
        r@ == url_without_fragment(text@),
{
    match url::Url::parse(text) {
        Ok(mut u) => {
            u.set_fragment(None);
            u.into()
        },
        Err(_) => text.to_string(),
    }
}

/// `url::Url::path_segments_mut` with `pop_if_empty` and `extend`, of a text that is parsed for
/// it. The crate counts the bytes of a URL in 32 bits and panics beyond. Where the path ends in a
/// slash, a segment adds a slash and its escaped form, but for one slash that is there already.
#[verifier::external_body]
fn url_push_segments(text: &str, segments: &Vec<String>) -> (r: Option<String>)
    requires
        ends_in_slash(url_path_of(text@)),
        short_enough(text@, text_views(segments@)),
    ensures
        match url_with_segments(text@, text_views(segments@)) {
            Some(t) => r matches Some(s) && s@ == t,
            None => r is None,
        },
{
    let mut u = url::Url::parse(text).ok()?;
    u.path_segments_mut().ok()?.pop_if_empty().extend(segments);
    Some(u.into())
}

/// True of the paths that end in a slash.
pub open spec fn ends_in_slash(path: Seq<char>) -> bool {
    path.len() > 0 && path.last() == '/'
}

/// How many bytes a character takes.
pub open spec fn utf8_width(c: char) -> nat {
    let n = c as int;
    if n < 0x80 {
        1
    } else if n < 0x800 {
        2
    } else if n < 0x10000 {
        3
    } else {
        4
    }
}

/// How many bytes a text takes.
pub open spec fn utf8_length(s: Seq<char>) -> nat
    decreases s.len(),
{
    if s.len() == 0 {
        0
    } else {
        utf8_length(s.drop_last()) + utf8_width(s.last())
    }
}

/// True of the ASCII characters that are escaped in a segment of a path.
pub open spec fn is_escaped(c: char) -> bool {
    (c as int) <= 0x20 || c as int == 0x7f || c == '"' || c == '#' || c == '%' || c == '/' || c == '<'
        || c == '>' || c == '?' || c == '\\' || c == '`' || c == '{' || c == '}'
}

/// How many bytes a character takes in a segment of a path: three for each byte that is escaped,
/// and none for a tab or a line break, which are left out.
pub open spec fn escaped_width(c: char) -> nat {
    if c == '\t' || c == '\n' || c == '\r' {
        0
    } else if c as int >= 0x80 {
        3 * utf8_width(c)
    } else if is_escaped(c) {
        3
    } else {
        1
    }
}

/// How many bytes a segment of a path takes.
pub open spec fn escaped_length(s: Seq<char>) -> nat
    decreases s.len(),
{
    if s.len() == 0 {
        0
    } else {
        escaped_length(s.drop_last()) + escaped_width(s.last())
    }
}

/// How many bytes the segments of a path take, each with a slash.
pub open spec fn segments_length(s: Seq<Seq<char>>) -> nat
    decreases s.len(),
{
    if s.len() == 0 {
        0
    } else {
        segments_length(s.drop_last()) + 1 + escaped_length(s.last())
    }
}

/// True of the schemes and hosts that a web seed may have.
pub open spec fn usable(scheme: Seq<char>, host: Option<Seq<char>>) -> bool {
    (scheme == "http"@ || scheme == "https"@) && host is Some
}

/// True of the schemes and hosts that a web seed may have.
pub fn is_usable(scheme: &str, host: &Option<String>) -> (r: bool)
    ensures
        r == usable(
            scheme@,
            match host {
                Some(h) => Some(h@),
                None => None,
            },
        ),
{
    (same_text(scheme, "http") || same_text(scheme, "https")) && host.is_some()
}

/// The normal form of the address of a web seed.
pub open spec fn base_of(raw: Seq<char>) -> Result<Seq<char>, WebSeedFault> {
    match url_parsed(trimmed(raw)) {
        Err(m) => Err(WebSeedFault::InvalidUrl(m)),
        Ok(t) => if usable(url_scheme_of(t), url_host_of(t)) {
            Ok(url_without_fragment(t))
        } else {
            Err(WebSeedFault::UnsupportedScheme)
        },
    }
}

/// The address of a web seed, or of a file on one, in its normal form.
#[derive(Debug, Clone, PartialEq, Eq)]
pub struct Url {
    text: String,
}

impl View for Url {
    type V = Seq<char>;

    closed spec fn view(&self) -> Seq<char> {
        self.text@
    }
}

impl Url {
    pub fn as_str(&self) -> (r: &str)
        ensures
            r@ == self@,
    {
        self.text.as_str()
    }
}

/// Validate and normalize the address of a web seed.
pub fn parse_base_url(raw: &str) -> (r: Result<Url, WebSeedError>)
    ensures
        match base_of(raw@) {
            Ok(t) => r matches Ok(u) && u@ == t,
            Err(fault) => r matches Err(e) && e@ == fault,
        },
{
    let text = match url_parse(trim(raw).as_str()) {
        Ok(text) => text,
        Err(message) => {
            return Err(WebSeedError::InvalidUrl(message));
        },
    };
    let scheme = url_scheme(text.as_str());
    let host = url_host(text.as_str());
    if !is_usable(scheme.as_str(), &host) {
        return Err(WebSeedError::UnsupportedScheme);
    }
    Ok(Url { text: url_strip_fragment(text.as_str()) })
}

/// The normal forms of the addresses that can be used, each once, in the order of the list.
pub open spec fn usable_urls(items: Seq<Bencode>) -> Seq<Seq<char>>
    decreases items.len(),
{
    if items.len() == 0 {
        seq![]
    } else {
        let front = usable_urls(items.drop_last());
        match text_in(items.last()) {
            None => front,
            Some(raw) => match base_of(raw) {
                Err(_) => front,
                Ok(t) => with_text(front, t),
            },
        }
    }
}

/// The texts with one more, unless it is among them.
pub open spec fn with_text(list: Seq<Seq<char>>, t: Seq<char>) -> Seq<Seq<char>> {
    if list.contains(t) {
        list
    } else {
        list.push(t)
    }
}

/// The addresses of web seeds in a torrent: one, or a list.
pub open spec fn url_list(v: Bencode) -> Seq<Seq<char>> {
    match v {
        Bencode::Bytes(_) => usable_urls(seq![v]),
        Bencode::List(items) => usable_urls(items),
        _ => seq![],
    }
}

/// Add a text, unless it is in the list.
pub fn push_distinct(list: &mut Vec<String>, text: String)
    ensures
        text_views(final(list)@) == with_text(text_views(old(list)@), text@),
{
    let mut i: usize = 0;
    while i < list.len()
        invariant
            i <= list.len(),
            list@ == old(list)@,
            forall|j: int| 0 <= j < i ==> text_views(list@)[j] != text@,
        decreases list.len() - i,
    {
        if same_text(list[i].as_str(), text.as_str()) {
            assert(text_views(list@)[i as int] == text@);
            return;
        }
        i += 1;
    }
    list.push(text);
    assert(text_views(list@) =~= text_views(old(list)@).push(text@));
}

fn push_usable(out: &mut Vec<String>, item: &Value)
    ensures
        text_views(final(out)@) == (match text_in(item@) {
            None => text_views(old(out)@),
            Some(raw) => match base_of(raw) {
                Err(_) => text_views(old(out)@),
                Ok(t) => with_text(text_views(old(out)@), t),
            },
        }),
{
    match item.as_str() {
        Some(raw) => match parse_base_url(raw.as_str()) {
            Ok(u) => {
                push_distinct(out, u.text);
            },
            Err(_) => {},
        },
        None => {},
    }
}

/// The addresses of web seeds in a torrent.
pub fn parse_url_list(value: &Value) -> (r: Vec<String>)
    ensures
        text_views(r@) == url_list(value@),
{
    let mut out: Vec<String> = Vec::new();
    assert(text_views(out@) =~= seq![]);
    match value {
        Value::Bytes(_) => {
            push_usable(&mut out, value);
            proof {
                let one = seq![value@];
                assert(one.drop_last() =~= seq![]);
                assert(one.last() == value@);
                assert(usable_urls(one.drop_last()) =~= seq![]);
                assert(value@ is Bytes);
            }
        },
        Value::List(items) => {
            let ghost all = model_list(items@);
            proof {
                lemma_model_list(items@);
                assert(all.take(0) =~= seq![]);
            }
            let mut i: usize = 0;
            while i < items.len()
                invariant
                    i <= items.len(),
                    all == model_list(items@),
                    all.len() == items.len(),
                    forall|j: int| 0 <= j < items.len() ==> #[trigger] all[j] == model(items@[j]),
                    text_views(out@) == usable_urls(all.take(i as int)),
                decreases items.len() - i,
            {
                proof {
                    assert(all.take(i + 1).drop_last() =~= all.take(i as int));
                    assert(all.take(i + 1).last() == all[i as int]);
                }
                push_usable(&mut out, &items[i]);
                i += 1;
            }
            assert(all.take(i as int) =~= all);
        },
        _ => {},
    }
    out
}

/// True of the names that may not be a part of a path.
pub open spec fn unsafe_segment(s: Seq<char>) -> bool {
    s.len() == 0 || s == "."@ || s == ".."@
}

/// The segments that a file adds to the address of a web seed: none where the address is that of
/// the file itself.
pub open spec fn file_segments(
    base_path: Seq<char>,
    name: Seq<char>,
    path: Seq<Seq<char>>,
    single_file: bool,
) -> Result<Seq<Seq<char>>, WebSeedFault> {
    let rooted = ends_in_slash(base_path);
    if single_file {
        if rooted {
            Ok(seq![name])
        } else {
            Ok(seq![])
        }
    } else if rooted {
        Ok(seq![name] + path)
    } else {
        Err(WebSeedFault::MultiFileBaseMissingSlash)
    }
}

/// The segments that a file adds to the address of a web seed.
pub fn segments_of(base_path: &str, name: &str, path: &Vec<String>, single_file: bool) -> (r:
    Result<Vec<String>, WebSeedError>)
    ensures
        match file_segments(base_path@, name@, text_views(path@), single_file) {
            Ok(s) => r matches Ok(v) && text_views(v@) == s,
            Err(fault) => r matches Err(e) && e@ == fault,
        },
{
    let chars = to_chars(base_path);
    let rooted = chars.len() > 0 && chars[chars.len() - 1] == '/';
    let mut out: Vec<String> = Vec::new();
    assert(text_views(out@) =~= seq![]);
    if single_file {
        if rooted {
            out.push(name.to_owned());
            assert(text_views(out@) =~= seq![name@]);
        }
        return Ok(out);
    }
    if !rooted {
        return Err(WebSeedError::MultiFileBaseMissingSlash);
    }
    out.push(name.to_owned());
    let mut i: usize = 0;
    let ghost tail = text_views(path@);
    assert(text_views(out@) =~= seq![name@] + tail.take(0));
    while i < path.len()
        invariant
            i <= path.len(),
            tail == text_views(path@),
            text_views(out@) == seq![name@] + tail.take(i as int),
        decreases path.len() - i,
    {
        let ghost before = out@;
        out.push(path[i].clone());
        proof {
            assert(text_views(out@) =~= text_views(before).push(tail[i as int]));
            assert(text_views(out@) =~= seq![name@] + tail.take(i + 1));
        }
        i += 1;
    }
    assert(text_views(out@) =~= seq![name@] + tail);
    Ok(out)
}

/// True when one of the segments may not be a part of a path.
pub open spec fn has_unsafe(segments: Seq<Seq<char>>) -> bool {
    exists|i: int| 0 <= i < segments.len() && unsafe_segment(#[trigger] segments[i])
}

fn any_unsafe(segments: &Vec<String>) -> (r: bool)
    ensures
        r == has_unsafe(text_views(segments@)),
{
    let mut i: usize = 0;
    while i < segments.len()
        invariant
            i <= segments.len(),
            forall|j: int| 0 <= j < i ==> !unsafe_segment(#[trigger] text_views(segments@)[j]),
        decreases segments.len() - i,
    {
        let empty = to_chars(segments[i].as_str()).len() == 0;
        if empty || same_text(segments[i].as_str(), ".") || same_text(segments[i].as_str(), "..") {
            assert(unsafe_segment(text_views(segments@)[i as int]));
            return true;
        }
        assert(!unsafe_segment(text_views(segments@)[i as int]));
        i += 1;
    }
    false
}

/// True when an address whose path ends in a slash is no longer than the longest URL once it has
/// the further segments.
pub open spec fn short_enough(text: Seq<char>, segments: Seq<Seq<char>>) -> bool {
    match url_parsed(text) {
        Ok(t) => utf8_length(t) + segments_length(segments) - 1 <= MAX_URL_BYTES,
        Err(_) => true,
    }
}

proof fn lemma_utf8_grows(s: Seq<char>, i: int)
    requires
        0 <= i <= s.len(),
    ensures
        utf8_length(s.take(i)) <= utf8_length(s),
    decreases s.len(),
{
    if i < s.len() {
        lemma_utf8_grows(s.drop_last(), i);
        assert(s.drop_last().take(i) =~= s.take(i));
    } else {
        assert(s.take(i) =~= s);
    }
}

proof fn lemma_escaped_grows(s: Seq<char>, i: int)
    requires
        0 <= i <= s.len(),
    ensures
        escaped_length(s.take(i)) <= escaped_length(s),
    decreases s.len(),
{
    if i < s.len() {
        lemma_escaped_grows(s.drop_last(), i);
        assert(s.drop_last().take(i) =~= s.take(i));
    } else {
        assert(s.take(i) =~= s);
    }
}

proof fn lemma_segments_grow(s: Seq<Seq<char>>, i: int)
    requires
        0 <= i <= s.len(),
    ensures
        segments_length(s.take(i)) <= segments_length(s),
    decreases s.len(),
{
    if i < s.len() {
        lemma_segments_grow(s.drop_last(), i);
        assert(s.drop_last().take(i) =~= s.take(i));
    } else {
        assert(s.take(i) =~= s);
    }
}

fn width_of(c: char) -> (r: u64)
    ensures
        r == utf8_width(c),
        r <= 4,
{
    let n: u32 = c as u32;
    if n < 0x80 {
        1
    } else if n < 0x800 {
        2
    } else if n < 0x10000 {
        3
    } else {
        4
    }
}

fn escaped_width_of(c: char) -> (r: u64)
    ensures
        r == escaped_width(c),
        r <= 12,
{
    let n: u32 = c as u32;
    if c == '\t' || c == '\n' || c == '\r' {
        0
    } else if n >= 0x80 {
        3 * width_of(c)
    } else if n <= 0x20 || n == 0x7f || c == '"' || c == '#' || c == '%' || c == '/' || c == '<' || c
        == '>' || c == '?' || c == '\\' || c == '`' || c == '{' || c == '}' {
        3
    } else {
        1
    }
}

/// How many bytes a text takes; nothing where there are more than a URL may have.
fn count_bytes(s: &str) -> (r: Option<u64>)
    ensures
        match r {
            Some(n) => n == utf8_length(s@) && n <= MAX_URL_BYTES + 1,
            None => utf8_length(s@) > MAX_URL_BYTES + 1,
        },
{
    let c = to_chars(s);
    let mut total: u64 = 0;
    let mut i: usize = 0;
    assert(c@.take(0) =~= seq![]);
    while i < c.len()
        invariant
            i <= c.len(),
            c@ == s@,
            total == utf8_length(c@.take(i as int)),
            total <= MAX_URL_BYTES + 1,
        decreases c.len() - i,
    {
        proof {
            assert(c@.take(i + 1).drop_last() =~= c@.take(i as int));
            assert(c@.take(i + 1).last() == c@[i as int]);
            lemma_utf8_grows(c@, i + 1);
        }
        total = total + width_of(c[i]);
        if total > MAX_URL_BYTES + 1 {
            return None;
        }
        i += 1;
    }
    assert(c@.take(i as int) =~= c@);
    Some(total)
}

/// How many bytes a segment takes; nothing where there are more than a URL may have.
fn count_escaped(s: &str) -> (r: Option<u64>)
    ensures
        match r {
            Some(n) => n == escaped_length(s@) && n <= MAX_URL_BYTES + 1,
            None => escaped_length(s@) > MAX_URL_BYTES + 1,
        },
{
    let c = to_chars(s);
    let mut total: u64 = 0;
    let mut i: usize = 0;
    assert(c@.take(0) =~= seq![]);
    while i < c.len()
        invariant
            i <= c.len(),
            c@ == s@,
            total == escaped_length(c@.take(i as int)),
            total <= MAX_URL_BYTES + 1,
        decreases c.len() - i,
    {
        proof {
            assert(c@.take(i + 1).drop_last() =~= c@.take(i as int));
            assert(c@.take(i + 1).last() == c@[i as int]);
            lemma_escaped_grows(c@, i + 1);
        }
        total = total + escaped_width_of(c[i]);
        if total > MAX_URL_BYTES + 1 {
            return None;
        }
        i += 1;
    }
    assert(c@.take(i as int) =~= c@);
    Some(total)
}

fn is_short_enough(text: &str, segments: &Vec<String>) -> (r: bool)
    ensures
        r == short_enough(text@, text_views(segments@)),
{
    let ghost all = text_views(segments@);
    let normal = match url_parse(text) {
        Ok(t) => t,
        Err(_) => {
            return true;
        },
    };
    let mut total: u64 = match count_bytes(normal.as_str()) {
        Some(n) => n,
        None => {
            return false;
        },
    };
    let ghost own = total;
    let mut i: usize = 0;
    assert(all.take(0) =~= seq![]);
    while i < segments.len()
        invariant
            i <= segments.len(),
            all == text_views(segments@),
            url_parsed(text@) == Ok::<Seq<char>, Seq<char>>(normal@),
            own == utf8_length(normal@),
            total == own + segments_length(all.take(i as int)),
            total <= MAX_URL_BYTES + 1,
        decreases segments.len() - i,
    {
        proof {
            assert(all.take(i + 1).drop_last() =~= all.take(i as int));
            assert(all.take(i + 1).last() == all[i as int]);
            lemma_segments_grow(all, i + 1);
        }
        let n: u64 = match count_escaped(segments[i].as_str()) {
            Some(n) => n,
            None => {
                return false;
            },
        };
        total = total + 1 + n;
        if total > MAX_URL_BYTES + 1 {
            return false;
        }
        i += 1;
    }
    assert(all.take(i as int) =~= all);
    true
}

/// The address of a file of a torrent on a web seed.
pub open spec fn file_url(
    base: Seq<char>,
    name: Seq<char>,
    path: Seq<Seq<char>>,
    single_file: bool,
) -> Result<Seq<char>, WebSeedFault> {
    if name.len() == 0 {
        Err(WebSeedFault::InvalidUrl("empty torrent name"@))
    } else {
        match base_of(base) {
            Err(fault) => Err(fault),
            Ok(text) => match file_segments(url_path_of(text), name, path, single_file) {
                Err(fault) => Err(fault),
                Ok(segments) => if segments.len() == 0 {
                    Ok(text)
                } else if !short_enough(text, segments) {
                    Err(WebSeedFault::InvalidUrl("URL is too long"@))
                } else {
                    match url_with_segments(text, segments) {
                        None => Err(
                            WebSeedFault::InvalidUrl("URL cannot contain path segments"@),
                        ),
                        Some(t) => if has_unsafe(segments) {
                            Err(WebSeedFault::InvalidUrl("unsafe path component"@))
                        } else {
                            Ok(t)
                        },
                    }
                },
            },
        }
    }
}

/// The address of a file of a torrent on a web seed.
pub fn build_file_url(base: &str, torrent_name: &str, path: &Vec<String>, single_file_mode: bool) -> (r:
    Result<Url, WebSeedError>)
    ensures
        match file_url(base@, torrent_name@, text_views(path@), single_file_mode) {
            Ok(t) => r matches Ok(u) && u@ == t,
            Err(fault) => r matches Err(e) && e@ == fault,
        },
{
    if to_chars(torrent_name).len() == 0 {
        return Err(WebSeedError::InvalidUrl("empty torrent name".to_owned()));
    }
    let url = match parse_base_url(base) {
        Ok(url) => url,
        Err(e) => {
            return Err(e);
        },
    };
    let base_path = url_path(url.text.as_str());
    let segments = match segments_of(base_path.as_str(), torrent_name, path, single_file_mode) {
        Ok(segments) => segments,
        Err(e) => {
            return Err(e);
        },
    };
    if segments.len() == 0 {
        assert(text_views(segments@).len() == 0);
        return Ok(url);
    }
    assert(text_views(segments@).len() > 0);
    if !is_short_enough(url.text.as_str(), &segments) {
        return Err(WebSeedError::InvalidUrl("URL is too long".to_owned()));
    }
    match url_push_segments(url.text.as_str(), &segments) {
        None => Err(WebSeedError::InvalidUrl("URL cannot contain path segments".to_owned())),
        Some(text) => {
            if any_unsafe(&segments) {
                return Err(WebSeedError::InvalidUrl("unsafe path component".to_owned()));
            }
            Ok(Url { text })
        },
    }
}

/// Where a file stands on a web seed: at the address itself where that is the address of the one
/// file; below it under the name of the torrent, and the path of the file where there are several.
/// Several files need an address that ends in a slash.
pub proof fn where_a_file_stands(
    base_path: Seq<char>,
    name: Seq<char>,
    path: Seq<Seq<char>>,
    single_file: bool,
)
    ensures
        ({
            let slash = base_path.len() > 0 && base_path[base_path.len() - 1] == '/';
            let out = file_segments(base_path, name, path, single_file);
            &&& out is Err <==> !single_file && !slash
            &&& single_file && !slash ==> out->Ok_0.len() == 0
            &&& single_file && slash ==> out->Ok_0 == seq![name]
            &&& !single_file && slash ==> out->Ok_0 == seq![name] + path
            &&& out is Err ==> out->Err_0 is MultiFileBaseMissingSlash
        }),
{
}

/// Only addresses over HTTP with a host can be those of web seeds; each is used in its normal form,
/// without a fragment.
pub proof fn which_addresses_are_used(raw: Seq<char>)
    ensures
        base_of(raw) is Ok <==> (url_parsed(trimmed(raw)) matches Ok(t) && (url_scheme_of(t)
            == "http"@ || url_scheme_of(t) == "https"@) && url_host_of(t) is Some),
        base_of(raw) matches Ok(u) ==> u == url_without_fragment(url_parsed(trimmed(raw))->Ok_0),
        url_parsed(trimmed(raw)) is Err ==> base_of(raw) is Err && base_of(raw)->Err_0
            is InvalidUrl,
        url_parsed(trimmed(raw)) is Ok && base_of(raw) is Err ==> base_of(raw)->Err_0
            is UnsupportedScheme,
{
}

/// A file has an address exactly where its torrent has a name, the web seed can be used, no part of
/// the path leads elsewhere, and the address is not too long; it is that of the web seed with the
/// parts behind it.
pub proof fn which_files_have_an_address(
    base: Seq<char>,
    name: Seq<char>,
    path: Seq<Seq<char>>,
    single_file: bool,
)
    ensures
        ({
            let out = file_url(base, name, path, single_file);
            &&& name.len() == 0 ==> out is Err
            &&& base_of(base) is Err ==> out is Err
            &&& out matches Ok(u) ==> {
                let text = base_of(base)->Ok_0;
                let parts = file_segments(url_path_of(text), name, path, single_file)->Ok_0;
                &&& parts.len() == 0 ==> u == text
                &&& parts.len() > 0 ==> url_with_segments(text, parts) == Some(u)
                &&& forall|i: int|
                    0 <= i < parts.len() ==> (#[trigger] parts[i]).len() > 0 && parts[i] != "."@
                        && parts[i] != ".."@
            }
        }),
{
    let out = file_url(base, name, path, single_file);
    if out is Ok {
        let text = base_of(base)->Ok_0;
        let parts = file_segments(url_path_of(text), name, path, single_file)->Ok_0;
        assert forall|i: int| 0 <= i < parts.len() implies (#[trigger] parts[i]).len() > 0
            && parts[i] != "."@ && parts[i] != ".."@ by {
            assert(!unsafe_segment(parts[i]));
        }
    }
}

} // verus!
