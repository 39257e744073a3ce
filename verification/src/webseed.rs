//! Web seeds: servers that hold the files of a torrent, and the ranges that they are asked for.

use bytes::{Bytes, BytesMut};
use vstd::prelude::*;

use crate::buf::{
    buffer_as_slice, buffer_bytes, buffer_extend, buffer_freeze, buffer_with_capacity,
    bytes_clone, shared_bytes,
};
use crate::net::{IpAddr, Ipv4Addr};
use crate::text::{
    decimal_number, decimal_numbers_read_back, equal_ignoring_case, find_char, first_char,
    from_chars, is_space, is_white, lemma_first_char, lemma_trimmed_stays, number_in,
    parse_number, push_decimal, same_ignoring_case, sub_chars, to_chars, trim_chars, trimmed,
};

pub mod link;

pub use crate::webseed::link::{build_file_url, parse_base_url, parse_url_list, Url};

verus! {

/// The most that is asked for at a time.
pub const DEFAULT_MAX_RANGE_BYTES: u64 = 16_777_216;

/// True of the addresses that a web seed may have: not those of this machine or its network.
pub open spec fn allowed_v4(ip: Ipv4Addr) -> bool {
    !ip.spec_unspecified() && !ip.spec_loopback() && !ip.spec_private() && !ip.spec_link_local()
        && !ip.spec_multicast() && !ip.spec_broadcast()
}

/// True of the addresses that a web seed may have: not those of this machine or its network, in
/// whatever form they are written.
pub open spec fn allowed(ip: IpAddr) -> bool {
    match ip {
        IpAddr::V4(v4) => allowed_v4(v4),
        IpAddr::V6(v6) => !v6.spec_unspecified() && !v6.spec_loopback() && (
        if v6.spec_carries_ipv4() {
            exists|v4: Ipv4Addr| #[trigger] allowed_v4(v4) && v4.0@ == v6.0@.subrange(12, 16)
        } else {
            !v6.spec_unicast_link_local() && !v6.spec_unique_local() && !v6.spec_multicast()
        }),
    }
}

fn is_allowed_v4(ip: &Ipv4Addr) -> (r: bool)
    ensures
        r == allowed_v4(*ip),
{
    !ip.is_unspecified() && !ip.is_loopback() && !ip.is_private() && !ip.is_link_local()
        && !ip.is_multicast() && !ip.is_broadcast()
}

pub fn is_allowed_destination(ip: &IpAddr) -> (r: bool)
    ensures
        r == allowed(*ip),
{
    match ip {
        IpAddr::V4(v4) => is_allowed_v4(v4),
        IpAddr::V6(v6) => {
            if v6.is_unspecified() || v6.is_loopback() {
                return false;
            }
            match v6.to_ipv4() {
                Some(v4) => {
                    proof {
                        assert forall|other: Ipv4Addr|
                            other.0@ == v6.0@.subrange(12, 16) implies #[trigger] allowed_v4(other)
                            == allowed_v4(v4) by {
                            assert(other.0 =~= v4.0);
                        }
                    }
                    is_allowed_v4(&v4)
                },
                None => !v6.is_unicast_link_local() && !v6.is_unique_local()
                    && !v6.is_multicast(),
            }
        },
    }
}

/// Why a web seed cannot be used.
#[derive(Debug, Clone, PartialEq, Eq)]
pub enum WebSeedError {
    InvalidUrl(String),
    MultiFileBaseMissingSlash,
    UnsupportedScheme,
    InvalidRange(String),
    UnexpectedStatus(u16),
    MissingContentRange,
    BodyTooLarge { actual: u64, limit: u64 },
    BodyLength { actual: u64, expected: u64 },
    RangeMismatch,
    TotalLengthMismatch { actual: u64, expected: u64 },
    Http(String),
}

/// The mathematical value of a [`WebSeedError`].
pub enum WebSeedFault {
    InvalidUrl(Seq<char>),
    MultiFileBaseMissingSlash,
    UnsupportedScheme,
    InvalidRange(Seq<char>),
    UnexpectedStatus(u16),
    MissingContentRange,
    BodyTooLarge { actual: u64, limit: u64 },
    BodyLength { actual: u64, expected: u64 },
    RangeMismatch,
    TotalLengthMismatch { actual: u64, expected: u64 },
    Http(Seq<char>),
}

impl View for WebSeedError {
    type V = WebSeedFault;

    open spec fn view(&self) -> WebSeedFault {
        match *self {
            WebSeedError::InvalidUrl(m) => WebSeedFault::InvalidUrl(m@),
            WebSeedError::MultiFileBaseMissingSlash => WebSeedFault::MultiFileBaseMissingSlash,
            WebSeedError::UnsupportedScheme => WebSeedFault::UnsupportedScheme,
            WebSeedError::InvalidRange(m) => WebSeedFault::InvalidRange(m@),
            WebSeedError::UnexpectedStatus(s) => WebSeedFault::UnexpectedStatus(s),
            WebSeedError::MissingContentRange => WebSeedFault::MissingContentRange,
            WebSeedError::BodyTooLarge { actual, limit } => WebSeedFault::BodyTooLarge {
                actual,
                limit,
            },
            WebSeedError::BodyLength { actual, expected } => WebSeedFault::BodyLength {
                actual,
                expected,
            },
            WebSeedError::RangeMismatch => WebSeedFault::RangeMismatch,
            WebSeedError::TotalLengthMismatch { actual, expected } => {
                WebSeedFault::TotalLengthMismatch { actual, expected }
            },
            WebSeedError::Http(m) => WebSeedFault::Http(m@),
        }
    }
}

/// A byte range with both its ends, of a file of a known length.
#[derive(Debug, Clone, Copy, PartialEq, Eq, Structural)]
pub struct ByteRange {
    pub start: u64,
    pub end: u64,
    pub total: u64,
}

impl ByteRange {
    /// How many bytes the range covers.
    pub open spec fn covers(self) -> int {
        if self.start > self.end {
            0
        } else {
            self.end - self.start + 1
        }
    }

    pub fn len(self) -> (r: u64)
        requires
            self.covers() <= u64::MAX,
        ensures
            r == self.covers(),
    {
        if self.is_empty() {
            0
        } else {
            self.end - self.start + 1
        }
    }

    pub fn is_empty(self) -> (r: bool)
        ensures
            r == (self.start > self.end),
    {
        self.start > self.end
    }
}

/// True of the ranges that lie inside their file.
pub open spec fn lies_inside(start: u64, end: u64, total: u64) -> bool {
    total != 0 && start <= end < total
}

/// How a range is written in a message.
pub open spec fn range_text(start: u64, end: u64, total: u64) -> Seq<char> {
    "bytes "@ + decimal_number(start as nat) + "-"@ + decimal_number(end as nat) + "/"@
        + decimal_number(total as nat)
}

fn write_range(start: u64, end: u64, total: u64) -> (r: String)
    ensures
        r@ == range_text(start, end, total),
{
    let mut out = "bytes ".to_owned();
    push_decimal(&mut out, start);
    out.append("-");
    push_decimal(&mut out, end);
    out.append("/");
    push_decimal(&mut out, total);
    out
}

pub fn validate_range(start: u64, end: u64, total: u64, max_bytes: u64) -> (r: Result<
    ByteRange,
    WebSeedError,
>)
    ensures
        if !lies_inside(start, end, total) {
            r matches Err(e) && e@ == WebSeedFault::InvalidRange(range_text(start, end, total))
        } else if end - start + 1 > max_bytes {
            r matches Err(e) && e@ == (WebSeedFault::BodyTooLarge {
                actual: (end - start + 1) as u64,
                limit: max_bytes,
            })
        } else {
            r == Ok::<ByteRange, WebSeedError>(ByteRange { start, end, total })
        },
{
    if total == 0 || start > end || end >= total {
        return Err(WebSeedError::InvalidRange(write_range(start, end, total)));
    }
    let range = ByteRange { start, end, total };
    if range.len() > max_bytes {
        return Err(WebSeedError::BodyTooLarge { actual: range.len(), limit: max_bytes });
    }
    Ok(range)
}

/// Where white space first stands; the length where there is none.
pub open spec fn first_space(s: Seq<char>) -> int
    decreases s.len(),
{
    if s.len() == 0 {
        0
    } else if is_space(s[0]) {
        0
    } else {
        1 + first_space(s.drop_first())
    }
}

fn find_space(s: &[char]) -> (r: usize)
    ensures
        r == first_space(s@),
        r <= s.len(),
{
    let mut i: usize = 0;
    assert(s@.skip(0) =~= s@);
    while i < s.len() && !is_white(s[i])
        invariant
            i <= s.len(),
            first_space(s@) == i + first_space(s@.skip(i as int)),
        decreases s.len() - i,
    {
        assert(s@.skip(i as int).drop_first() =~= s@.skip(i + 1));
        i += 1;
    }
    i
}

/// The two parts of a text around the first `c`.
pub open spec fn split_at_char(s: Seq<char>, c: char) -> Option<(Seq<char>, Seq<char>)> {
    let i = first_char(s, c);
    if i < s.len() {
        Some((s.take(i), s.skip(i + 1)))
    } else {
        None
    }
}

fn split_char(s: &Vec<char>, c: char) -> (r: Option<(Vec<char>, Vec<char>)>)
    ensures
        match split_at_char(s@, c) {
            Some((a, b)) => r matches Some((x, y)) && x@ == a && y@ == b,
            None => r is None,
        },
{
    let i: usize = find_char(s.as_slice(), c, 0);
    assert(s@.skip(0) =~= s@);
    if i == s.len() {
        return None;
    }
    let a = sub_chars(s.as_slice(), 0, i);
    let b = sub_chars(s.as_slice(), i + 1, s.len());
    assert(a@ =~= s@.take(i as int));
    assert(b@ =~= s@.skip(i + 1));
    Some((a, b))
}

/// The number in a text that white space may surround.
pub open spec fn padded_number(s: Seq<char>) -> Option<nat> {
    number_in(trimmed(s), u64::MAX as nat)
}

fn parse_padded(s: &Vec<char>) -> (r: Option<u64>)
    ensures
        match padded_number(s@) {
            Some(n) => r == Some(n as u64) && n <= u64::MAX,
            None => r is None,
        },
{
    parse_number(trim_chars(s.as_slice()).as_slice(), u64::MAX)
}

/// The range that a `Content-Range` header tells: the unit, white space, the ends, and the length
/// of the whole.
pub open spec fn told_range(value: Seq<char>) -> Option<ByteRange> {
    let v = trimmed(value);
    let gap = first_space(v);
    if gap >= v.len() || !same_ignoring_case(v.take(gap), "bytes"@) {
        None
    } else {
        match split_at_char(trimmed(v.skip(gap + 1)), '/') {
            None => None,
            Some((range, total)) => match split_at_char(trimmed(range), '-') {
                None => None,
                Some((start, end)) => match (
                    padded_number(start),
                    padded_number(end),
                    padded_number(total),
                ) {
                    (Some(s), Some(e), Some(t)) => if t != 0 && s <= e < t {
                        Some(ByteRange { start: s as u64, end: e as u64, total: t as u64 })
                    } else {
                        None
                    },
                    _ => None,
                },
            },
        }
    }
}

fn read_content_range(value: &str) -> (r: Option<ByteRange>)
    ensures
        r == told_range(value@),
{
    let v = trim_chars(to_chars(value).as_slice());
    let gap: usize = find_space(v.as_slice());
    if gap == v.len() {
        return None;
    }
    let unit = sub_chars(v.as_slice(), 0, gap);
    assert(unit@ =~= v@.take(gap as int));
    if !equal_ignoring_case(from_chars(unit.as_slice()).as_str(), "bytes") {
        return None;
    }
    let rest = sub_chars(v.as_slice(), gap + 1, v.len());
    assert(rest@ =~= v@.skip(gap + 1));
    let (range, total) = match split_char(&trim_chars(rest.as_slice()), '/') {
        Some(p) => p,
        None => {
            return None;
        },
    };
    let (start, end) = match split_char(&trim_chars(range.as_slice()), '-') {
        Some(p) => p,
        None => {
            return None;
        },
    };
    match (parse_padded(&start), parse_padded(&end), parse_padded(&total)) {
        (Some(s), Some(e), Some(t)) => {
            if t == 0 || s > e || e >= t {
                return None;
            }
            Some(ByteRange { start: s, end: e, total: t })
        },
        _ => None,
    }
}

pub fn parse_content_range(value: &str) -> (r: Result<ByteRange, WebSeedError>)
    ensures
        match told_range(value@) {
            Some(range) => r == Ok::<ByteRange, WebSeedError>(range),
            None => r matches Err(e) && e@ == WebSeedFault::MissingContentRange,
        },
{
    match read_content_range(value) {
        Some(range) => Ok(range),
        None => Err(WebSeedError::MissingContentRange),
    }
}

/// The characters of a header that may be absent.
pub open spec fn header_view(h: Option<&str>) -> Option<Seq<char>> {
    match h {
        Some(s) => Some(s@),
        None => None,
    }
}

/// Whether the answer to a request for a range is the one that was asked for: the status comes
/// first, and the length of the body last.
pub open spec fn judged(
    status: u16,
    content_range: Option<Seq<char>>,
    body_len: u64,
    requested: ByteRange,
    max_body: u64,
) -> Result<ByteRange, WebSeedFault> {
    if status != 206 {
        Err(WebSeedFault::UnexpectedStatus(status))
    } else if body_len > max_body {
        Err(WebSeedFault::BodyTooLarge { actual: body_len, limit: max_body })
    } else {
        match content_range {
            None => Err(WebSeedFault::MissingContentRange),
            Some(header) => match told_range(header) {
                None => Err(WebSeedFault::MissingContentRange),
                Some(told) => if told.total != requested.total {
                    Err(
                        WebSeedFault::TotalLengthMismatch {
                            actual: told.total,
                            expected: requested.total,
                        },
                    )
                } else if told != requested {
                    Err(WebSeedFault::RangeMismatch)
                } else if body_len != told.covers() {
                    Err(
                        WebSeedFault::BodyLength {
                            actual: body_len,
                            expected: told.covers() as u64,
                        },
                    )
                } else {
                    Ok(told)
                },
            },
        }
    }
}

/// The result of a check, with its error as a mathematical value.
pub open spec fn outcome<T>(r: Result<T, WebSeedError>) -> Result<T, WebSeedFault> {
    match r {
        Ok(v) => Ok(v),
        Err(e) => Err(e@),
    }
}

pub fn validate_range_response(
    status: u16,
    content_range: Option<&str>,
    body_len: u64,
    requested: ByteRange,
    max_body: u64,
) -> (r: Result<ByteRange, WebSeedError>)
    ensures
        outcome(r) == judged(status, header_view(content_range), body_len, requested, max_body),
{
    if status != 206 {
        return Err(WebSeedError::UnexpectedStatus(status));
    }
    if body_len > max_body {
        return Err(WebSeedError::BodyTooLarge { actual: body_len, limit: max_body });
    }
    let header = match content_range {
        Some(header) => header,
        None => {
            return Err(WebSeedError::MissingContentRange);
        },
    };
    let returned = match read_content_range(header) {
        Some(range) => range,
        None => {
            return Err(WebSeedError::MissingContentRange);
        },
    };
    if returned.total != requested.total {
        return Err(
            WebSeedError::TotalLengthMismatch {
                actual: returned.total,
                expected: requested.total,
            },
        );
    }
    if returned.start != requested.start || returned.end != requested.end {
        return Err(WebSeedError::RangeMismatch);
    }
    let expected: u64 = returned.len();
    if body_len != expected {
        return Err(WebSeedError::BodyLength { actual: body_len, expected });
    }
    Ok(returned)
}

pub fn is_retryable_status(status: u16) -> (r: bool)
    ensures
        r == (status == 408 || status == 425 || status == 429 || status == 500 || status == 502
            || status == 503 || status == 504),
{
    status == 408 || status == 425 || status == 429 || status == 500 || status == 502 || status
        == 503 || status == 504
}

pub fn is_permanent_status(status: u16) -> (r: bool)
    ensures
        r == (status == 400 || status == 401 || status == 403 || status == 404 || status == 405
            || status == 410 || status == 416),
{
    status == 400 || status == 401 || status == 403 || status == 404 || status == 405 || status
        == 410 || status == 416
}

/// The value of the `Range` header of a request.
pub fn range_header(requested: &ByteRange) -> (r: String)
    ensures
        r@ == "bytes="@ + decimal_number(requested.start as nat) + "-"@ + decimal_number(
            requested.end as nat,
        ),
{
    let mut out = "bytes=".to_owned();
    push_decimal(&mut out, requested.start);
    out.append("-");
    push_decimal(&mut out, requested.end);
    out
}

/// The body of an answer while it arrives.
#[derive(Debug)]
pub struct RangeFetch {
    status: u16,
    content_range: Option<String>,
    requested: ByteRange,
    max_body: u64,
    collected: BytesMut,
}

/// The bytes of a range, and the tag of the file that they come from.
#[derive(Debug)]
pub struct RangeResponse {
    pub body: Bytes,
    pub etag: Option<String>,
}

impl Clone for RangeResponse {
    fn clone(&self) -> (r: Self)
        ensures
            shared_bytes(r.body) == shared_bytes(self.body),
            match self.etag {
                Some(s) => r.etag matches Some(t) && t@ == s@,
                None => r.etag is None,
            },
    {
        RangeResponse {
            body: bytes_clone(&self.body),
            etag: match &self.etag {
                Some(s) => Some(s.as_str().to_string()),
                None => None,
            },
        }
    }
}

/// The mathematical value of a [`RangeFetch`].
#[verifier::ext_equal]
pub struct FetchModel {
    pub status: u16,
    pub content_range: Option<Seq<char>>,
    pub requested: ByteRange,
    pub max_body: u64,
    pub collected: Seq<u8>,
}

impl View for RangeFetch {
    type V = FetchModel;

    closed spec fn view(&self) -> FetchModel {
        FetchModel {
            status: self.status,
            content_range: match self.content_range {
                Some(s) => Some(s@),
                None => None,
            },
            requested: self.requested,
            max_body: self.max_body,
            collected: buffer_bytes(self.collected),
        }
    }
}

impl RangeFetch {
    /// True of every fetch: no more is held than is allowed.
    pub open spec fn wf(self) -> bool {
        self@.collected.len() <= self@.max_body
    }

    /// The head of an answer came: an unexpected status ends the fetch, and so does a length that
    /// is announced and too large.
    pub fn begin(
        status: u16,
        content_range: Option<String>,
        content_length: Option<u64>,
        requested: ByteRange,
        max_body: u64,
    ) -> (r: Result<Self, WebSeedError>)
        ensures
            if status != 206 {
                r matches Err(e) && e@ == WebSeedFault::UnexpectedStatus(status)
            } else if content_length matches Some(n) && n > max_body {
                r matches Err(e) && e@ == (WebSeedFault::BodyTooLarge {
                    actual: content_length->0,
                    limit: max_body,
                })
            } else {
                r matches Ok(f) && f.wf() && f@ == (FetchModel {
                    status,
                    content_range: match content_range {
                        Some(s) => Some(s@),
                        None => None,
                    },
                    requested,
                    max_body,
                    collected: seq![],
                })
            },
    {
        if status != 206 {
            return Err(WebSeedError::UnexpectedStatus(status));
        }
        match content_length {
            Some(length) => {
                if length > max_body {
                    return Err(WebSeedError::BodyTooLarge { actual: length, limit: max_body });
                }
            },
            None => {},
        }
        Ok(
            RangeFetch {
                status,
                content_range,
                requested,
                max_body,
                collected: buffer_with_capacity(0),
            },
        )
    }

    /// More of the body came.
    pub fn on_chunk(&mut self, chunk: &[u8]) -> (r: Result<(), WebSeedError>)
        requires
            old(self).wf(),
            old(self)@.collected.len() + chunk.len() <= isize::MAX,
        ensures
            final(self).wf(),
            if old(self)@.collected.len() + chunk@.len() > old(self)@.max_body {
                *final(self) == *old(self) && (r matches Err(e) && e@ == (
                WebSeedFault::BodyTooLarge {
                    actual: (old(self)@.collected.len() + chunk@.len()) as u64,
                    limit: old(self)@.max_body,
                }))
            } else {
                r is Ok && final(self)@ == (FetchModel {
                    collected: old(self)@.collected + chunk@,
                    ..old(self)@
                })
            },
    {
        let next: usize = buffer_as_slice(&self.collected).len() + chunk.len();
        if next as u64 > self.max_body {
            return Err(WebSeedError::BodyTooLarge { actual: next as u64, limit: self.max_body });
        }
        buffer_extend(&mut self.collected, chunk);
        Ok(())
    }

    /// How many bytes have arrived.
    pub fn received(&self) -> (r: usize)
        ensures
            r == self@.collected.len(),
    {
        buffer_as_slice(&self.collected).len()
    }

    /// The body is complete: it is the range that was asked for, or it is refused.
    pub fn finish(self, etag: Option<String>) -> (r: Result<RangeResponse, WebSeedError>)
        requires
            self.wf(),
        ensures
            match judged(
                self@.status,
                self@.content_range,
                self@.collected.len() as u64,
                self@.requested,
                self@.max_body,
            ) {
                Ok(_) => r matches Ok(out) && shared_bytes(out.body) == self@.collected && out.etag
                    == etag,
                Err(fault) => r matches Err(e) && e@ == fault,
            },
    {
        let len: u64 = buffer_as_slice(&self.collected).len() as u64;
        let header = match &self.content_range {
            Some(s) => Some(s.as_str()),
            None => None,
        };
        match validate_range_response(self.status, header, len, self.requested, self.max_body) {
            Ok(_) => Ok(RangeResponse { body: buffer_freeze(self.collected), etag }),
            Err(e) => Err(e),
        }
    }
}

/// An answer is accepted only where it is the range that was asked for, complete, and no longer
/// than allowed.
pub proof fn accepted_answers_are_the_range(
    status: u16,
    content_range: Option<Seq<char>>,
    body_len: u64,
    requested: ByteRange,
    max_body: u64,
)
    requires
        judged(status, content_range, body_len, requested, max_body) is Ok,
    ensures
        judged(status, content_range, body_len, requested, max_body) == Ok::<
            ByteRange,
            WebSeedFault,
        >(requested),
        body_len == requested.covers() <= max_body,
        requested.start <= requested.end < requested.total,
{
}

proof fn lemma_first_space(s: Seq<char>, i: int)
    requires
        0 <= i <= s.len(),
        forall|j: int| 0 <= j < i ==> !is_space(#[trigger] s[j]),
        i < s.len() ==> is_space(s[i]),
    ensures
        first_space(s) == i,
    decreases s.len(),
{
    if s.len() > 0 && i > 0 {
        lemma_first_space(s.drop_first(), i - 1);
    }
}

/// A range that lies inside its file reads back as it was written in a header; any other is
/// refused.
pub proof fn written_ranges_read_back(start: u64, end: u64, total: u64)
    ensures
        told_range(range_text(start, end, total)) == (if lies_inside(start, end, total) {
            Some(ByteRange { start, end, total })
        } else {
            None
        }),
{
    let a = decimal_number(start as nat);
    let b = decimal_number(end as nat);
    let c = decimal_number(total as nat);
    decimal_numbers_read_back(start as nat, u64::MAX as nat);
    decimal_numbers_read_back(end as nat, u64::MAX as nat);
    decimal_numbers_read_back(total as nat, u64::MAX as nat);
    reveal_strlit("bytes ");
    reveal_strlit("bytes");
    reveal_strlit("-");
    reveal_strlit("/");
    let range = a + seq!['-'] + b;
    let rest = range + seq!['/'] + c;
    let v = "bytes "@ + rest;
    assert("-"@ =~= seq!['-']);
    assert("/"@ =~= seq!['/']);
    assert(range_text(start, end, total) =~= v);
    assert('0' <= a[0] <= '9');
    assert('0' <= b[b.len() - 1] <= '9');
    assert('0' <= c[c.len() - 1] <= '9');
    assert(v[0] == 'b');
    assert(v.last() == c.last());
    lemma_trimmed_stays(v);
    assert(v[5] == ' ');
    lemma_first_space(v, 5);
    assert(v.take(5) =~= "bytes"@);
    assert(v.skip(6) =~= rest);
    assert(rest[0] == a[0]);
    assert(rest.last() == c.last());
    lemma_trimmed_stays(rest);
    let k = range.len() as int;
    assert(rest[k] == '/');
    assert forall|j: int| 0 <= j < k implies rest[j] != '/' by {
        if j < a.len() {
            assert(rest[j] == a[j]);
        } else if j > a.len() {
            assert(rest[j] == b[j - a.len() - 1]);
        }
    }
    lemma_first_char(rest, '/', k);
    assert(rest.take(k) =~= range);
    assert(rest.skip(k + 1) =~= c);
    assert(range[0] == a[0]);
    assert(range.last() == b.last());
    lemma_trimmed_stays(range);
    let n = a.len() as int;
    assert(range[n] == '-');
    assert forall|j: int| 0 <= j < n implies range[j] != '-' by {
        assert(range[j] == a[j]);
    }
    lemma_first_char(range, '-', n);
    assert(range.take(n) =~= a);
    assert(range.skip(n + 1) =~= b);
    assert('0' <= a[a.len() - 1] <= '9');
    assert('0' <= b[0] <= '9');
    assert('0' <= c[0] <= '9');
    lemma_trimmed_stays(a);
    lemma_trimmed_stays(b);
    lemma_trimmed_stays(c);
}

/// Whatever a header says, a range that is read from it lies inside its file.
pub proof fn told_ranges_lie_inside(value: Seq<char>)
    ensures
        told_range(value) matches Some(r) ==> lies_inside(r.start, r.end, r.total),
{
}

/// A web seed may not stand at an address of this machine, of a private network, of a link or of a
/// group, nor at that of nobody or of everybody.
pub proof fn which_addresses_are_allowed(ip: Ipv4Addr)
    ensures
        ({
            let (a, b) = (ip.0@[0], ip.0@[1]);
            allowed(IpAddr::V4(ip)) <==> !(a == 127 || a == 10 || (a == 172 && 16 <= b <= 31) || (a
                == 192 && b == 168) || (a == 169 && b == 254) || (224 <= a <= 239) || (a == 0 && b
                == 0 && ip.0@[2] == 0 && ip.0@[3] == 0) || (a == 255 && b == 255 && ip.0@[2] == 255
                && ip.0@[3] == 255))
        }),
{
    let b = ip.0@;
    assert(b.len() == 4);
    if b[0] == 0 && b[1] == 0 && b[2] == 0 && b[3] == 0 {
        assert(ip.spec_unspecified());
    }
    if ip.spec_unspecified() {
        assert(b[0] == 0 && b[1] == 0 && b[2] == 0 && b[3] == 0);
    }
}

/// An answer is accepted exactly where its status is 206, its header tells the range that was asked
/// for, and its body is just as long, and no longer than allowed. The first thing that is wrong
/// decides the error.
pub proof fn which_answers_are_accepted(
    status: u16,
    content_range: Option<Seq<char>>,
    body_len: u64,
    requested: ByteRange,
    max_body: u64,
)
    ensures
        ({
            let r = judged(status, content_range, body_len, requested, max_body);
            let told = match content_range {
                Some(h) => told_range(h),
                None => None,
            };
            &&& r is Ok <==> status == 206 && body_len <= max_body && told == Some(requested)
                && requested.start <= requested.end && body_len == requested.end - requested.start
                + 1
            &&& status != 206 ==> r == Err::<ByteRange, WebSeedFault>(
                WebSeedFault::UnexpectedStatus(status),
            )
            &&& status == 206 && body_len > max_body ==> r is Err && r->Err_0 is BodyTooLarge
            &&& status == 206 && body_len <= max_body && told is None ==> r == Err::<
                ByteRange,
                WebSeedFault,
            >(WebSeedFault::MissingContentRange)
            &&& status == 206 && body_len <= max_body && told is Some && told->0.total
                != requested.total ==> r is Err && r->Err_0 is TotalLengthMismatch
            &&& status == 206 && body_len <= max_body && told is Some && told->0.total
                == requested.total && told->0 != requested ==> r == Err::<ByteRange, WebSeedFault>(
                WebSeedFault::RangeMismatch,
            )
        }),
{
    if let Some(h) = content_range {
        told_ranges_lie_inside(h);
    }
}

} // verus!
