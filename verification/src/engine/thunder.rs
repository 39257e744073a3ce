//! Links that are wrapped: an envelope in base64 around another link.

use base64::engine::general_purpose::STANDARD;
use base64::Engine;
use vstd::prelude::*;

use crate::text::{
    ascii_lower, chars_at, equal_ignoring_case, find_char, first_char, from_chars, is_space,
    lemma_first_char, lemma_trimmed_stays, read_text, same_ignoring_case, sub_chars, text_at,
    text_of, to_chars, trim_chars, trimmed,
};

verus! {

/// What base64 with the standard alphabet and padding stands for; absent where it is malformed.
pub uninterp spec fn base64_decoded(text: Seq<u8>) -> Option<Seq<u8>>;

/// `base64::Engine::decode` of the `STANDARD` engine: the bytes that the text stands for, or an
/// error where it is malformed.
#[verifier::external_body]
fn decode_base64(text: &[u8]) -> (r: Option<Vec<u8>>)
    ensures
        match base64_decoded(text@) {
            Some(b) => r matches Some(v) && v@ == b,
            None => r is None,
        },
{
    STANDARD.decode(text).ok()
}

/// True of magnet links.
pub open spec fn names_magnet(uri: Seq<char>) -> bool {
    let s = trimmed(uri);
    s.len() >= 7 && same_ignoring_case(s.take(7), "magnet:"@)
}

pub fn is_magnet_uri(uri: &str) -> (r: bool)
    ensures
        r == names_magnet(uri@),
{
    let c = to_chars(uri);
    let s = trim_chars(c.as_slice());
    if s.len() < 7 {
        return false;
    }
    let head = sub_chars(s.as_slice(), 0, 7);
    assert(head@ =~= s@.take(7));
    equal_ignoring_case(from_chars(head.as_slice()).as_str(), "magnet:")
}

/// True of wrapped links, without white space around them.
pub open spec fn names_thunder(s: Seq<char>) -> bool {
    s.len() >= 10 && same_ignoring_case(s.take(7), "thunder"@) && text_at(s, 7, "://"@)
}

fn starts_thunder(s: &Vec<char>) -> (r: bool)
    ensures
        r == names_thunder(s@),
{
    if s.len() < 10 {
        return false;
    }
    let head = sub_chars(s.as_slice(), 0, 7);
    assert(head@ =~= s@.take(7));
    let mark = to_chars("://");
    equal_ignoring_case(from_chars(head.as_slice()).as_str(), "thunder") && chars_at(
        s.as_slice(),
        7,
        mark.as_slice(),
    )
}

pub fn is_thunder_uri(uri: &str) -> (r: bool)
    ensures
        r == names_thunder(trimmed(uri@)),
{
    let c = to_chars(uri);
    let s = trim_chars(c.as_slice());
    starts_thunder(&s)
}

/// A text without the closing brackets and full stops at its end.
pub open spec fn without_punctuation(s: Seq<char>) -> Seq<char>
    decreases s.len(),
{
    if s.len() > 0 && (s.last() == ')' || s.last() == '.') {
        without_punctuation(s.drop_last())
    } else {
        s
    }
}

/// A character of the alphabet for links, as that of the standard alphabet.
pub open spec fn standard_char(c: char) -> char {
    if c == '-' {
        '+'
    } else if c == '_' {
        '/'
    } else {
        c
    }
}

/// True of the characters of the standard alphabet.
pub open spec fn in_alphabet(c: char) -> bool {
    'A' <= c <= 'Z' || 'a' <= c <= 'z' || '0' <= c <= '9' || c == '+' || c == '/'
}

/// How many padding characters a text ends in; absent where it is no base64.
pub open spec fn padding_of(s: Seq<char>) -> Option<nat>
    decreases s.len(),
{
    if s.len() == 0 {
        Some(0)
    } else {
        match padding_of(s.drop_last()) {
            Some(n) => if n == 0 && in_alphabet(s.last()) {
                Some(0)
            } else if n < 2 && s.last() == '=' {
                Some(n + 1)
            } else {
                None
            },
            None => None,
        }
    }
}

/// True when a text is base64, but for padding that is missing.
pub open spec fn is_base64(s: Seq<char>) -> bool {
    s.len() > 0 && padding_of(s) is Some
}

/// A text with padding up to a multiple of four characters.
pub open spec fn padded(s: Seq<char>) -> Seq<char> {
    s + Seq::new(((4 - (s.len() as int) % 4) % 4) as nat, |i: int| '=')
}

/// The base64 inside a wrapped link.
pub open spec fn thunder_payload(uri: Seq<char>) -> Option<Seq<char>> {
    let s = trimmed(uri);
    if !names_thunder(s) {
        None
    } else {
        let raw = without_punctuation(s.skip(10));
        let text = Seq::new(raw.len(), |i: int| standard_char(raw[i]));
        if is_base64(text) {
            Some(padded(text))
        } else {
            None
        }
    }
}

proof fn lemma_padding_breaks(s: Seq<char>, i: int)
    requires
        0 <= i <= s.len(),
        padding_of(s.take(i)) is None,
    ensures
        padding_of(s) is None,
    decreases s.len(),
{
    if i < s.len() {
        assert(s.drop_last().take(i) =~= s.take(i));
        lemma_padding_breaks(s.drop_last(), i);
    } else {
        assert(s.take(i) =~= s);
    }
}

fn is_valid_thunder_base64(s: &[char]) -> (r: bool)
    ensures
        r == is_base64(s@),
{
    let mut padding: usize = 0;
    let mut i: usize = 0;
    assert(s@.take(0) =~= seq![]);
    while i < s.len()
        invariant
            i <= s.len(),
            padding_of(s@.take(i as int)) == Some(padding as nat),
            padding <= 2,
        decreases s.len() - i,
    {
        assert(s@.take(i + 1).drop_last() =~= s@.take(i as int));
        let c = s[i];
        let plain = ('A' <= c && c <= 'Z') || ('a' <= c && c <= 'z') || ('0' <= c && c <= '9')
            || c == '+' || c == '/';
        if plain && padding == 0 {
        } else if c == '=' && padding < 2 {
            padding += 1;
        } else {
            proof {
                lemma_padding_breaks(s@, i + 1);
            }
            return false;
        }
        i += 1;
    }
    assert(s@.take(i as int) =~= s@);
    s.len() > 0
}

/// The base64 inside a wrapped link, in the standard alphabet and with its padding.
pub fn read_payload(uri: &str) -> (r: Option<String>)
    ensures
        match thunder_payload(uri@) {
            Some(t) => r matches Some(s) && s@ == t,
            None => r is None,
        },
{
    let c = to_chars(uri);
    let s = trim_chars(c.as_slice());
    if !starts_thunder(&s) {
        return None;
    }
    let ghost body = s@.skip(10);
    let mut end: usize = s.len();
    assert(s@.subrange(10, end as int) =~= body);
    while end > 10 && (s[end - 1] == ')' || s[end - 1] == '.')
        invariant
            10 <= end <= s.len(),
            body == s@.skip(10),
            without_punctuation(body) == without_punctuation(s@.subrange(10, end as int)),
        decreases end,
    {
        assert(s@.subrange(10, end as int).drop_last() =~= s@.subrange(10, end - 1));
        end -= 1;
    }
    let ghost raw = s@.subrange(10, end as int);
    let ghost text = Seq::new(raw.len(), |i: int| standard_char(raw[i]));
    let mut out: Vec<char> = Vec::new();
    let mut i: usize = 10;
    while i < end
        invariant
            10 <= i <= end <= s.len(),
            raw == s@.subrange(10, end as int),
            text == Seq::new(raw.len(), |i: int| standard_char(raw[i])),
            out@ == text.take(i - 10),
        decreases end - i,
    {
        let ch = s[i];
        assert(raw[i - 10] == ch);
        out.push(
            if ch == '-' {
                '+'
            } else if ch == '_' {
                '/'
            } else {
                ch
            },
        );
        assert(out@ =~= text.take(i - 9));
        i += 1;
    }
    assert(out@ =~= text);
    if !is_valid_thunder_base64(out.as_slice()) {
        return None;
    }
    let missing: usize = (4 - out.len() % 4) % 4;
    let mut k: usize = 0;
    while k < missing
        invariant
            k <= missing <= 3,
            out@ == text + Seq::new(k as nat, |i: int| '='),
        decreases missing - k,
    {
        out.push('=');
        assert(out@ =~= text + Seq::new((k + 1) as nat, |i: int| '='));
        k += 1;
    }
    assert(out@ =~= padded(text));
    Some(from_chars(out.as_slice()))
}

/// True when a text is zeros in front of a suffix.
pub open spec fn zeros_then(s: Seq<char>, suffix: Seq<char>) -> bool {
    let n = s.len() - suffix.len();
    text_at(s, n, suffix) && forall|i: int| 0 <= i < n ==> #[trigger] s[i] == '0'
}

fn is_zero_prefixed_suffix(s: &[char], suffix: &str) -> (r: bool)
    ensures
        r == zeros_then(s@, suffix@),
{
    let t = to_chars(suffix);
    if s.len() < t.len() {
        return false;
    }
    let n: usize = s.len() - t.len();
    if !chars_at(s, n, t.as_slice()) {
        return false;
    }
    let mut i: usize = 0;
    #[verifier::loop_isolation(false)]
    while i < n
        invariant
            i <= n <= s.len(),
            forall|j: int| 0 <= j < i ==> s@[j] == '0',
        decreases n - i,
    {
        if s[i] != '0' {
            return false;
        }
        i += 1;
    }
    true
}

/// How long the entity at the start of a text is, where it stands for an ampersand: by its name,
/// or by its number in decimal or hexadecimal.
pub open spec fn ampersand_entity(s: Seq<char>) -> Option<int> {
    if s.len() >= 5 && same_ignoring_case(s.take(5), "&amp;"@) {
        Some(5)
    } else {
        let end = first_char(s, ';');
        if end < s.len() && end >= 2 && text_at(s, 0, "&#"@) {
            let code = s.subrange(2, end);
            let hex = code.len() > 0 && (code[0] == 'x' || code[0] == 'X');
            if (hex && zeros_then(code.drop_first(), "26"@)) || (!hex && zeros_then(code, "38"@)) {
                Some(end + 1)
            } else {
                None
            }
        } else {
            None
        }
    }
}

fn thunder_ampersand_entity_len(s: &[char], at: usize) -> (r: Option<usize>)
    requires
        at <= s.len(),
    ensures
        match ampersand_entity(s@.skip(at as int)) {
            Some(n) => r == Some(n as usize) && 1 <= n <= s.len() - at,
            None => r is None,
        },
{
    let ghost e = s@.skip(at as int);
    proof {
        reveal_strlit("&#");
    }
    if s.len() - at >= 5 {
        let head = sub_chars(s, at, at + 5);
        assert(head@ =~= e.take(5));
        if equal_ignoring_case(from_chars(head.as_slice()).as_str(), "&amp;") {
            return Some(5);
        }
    }
    let end: usize = find_char(s, ';', at);
    if end == s.len() {
        return None;
    }
    let mark = to_chars("&#");
    if end - at < 2 || !chars_at(s, at, mark.as_slice()) {
        proof {
            if text_at(e, 0, "&#"@) {
                assert(s@.subrange(at as int, at + 2) =~= e.subrange(0, 2));
            }
        }
        return None;
    }
    assert(e.subrange(0, 2) =~= s@.subrange(at as int, at + 2));
    let code = sub_chars(s, at + 2, end);
    assert(code@ =~= e.subrange(2, end - at));
    if code.len() > 0 && (code[0] == 'x' || code[0] == 'X') {
        let digits = sub_chars(code.as_slice(), 1, code.len());
        assert(digits@ =~= code@.drop_first());
        if is_zero_prefixed_suffix(digits.as_slice(), "26") {
            return Some(end - at + 1);
        }
        return None;
    }
    if is_zero_prefixed_suffix(code.as_slice(), "38") {
        return Some(end - at + 1);
    }
    None
}

/// True of the characters that the name of an entity can have.
pub open spec fn in_name(c: char) -> bool {
    'A' <= c <= 'Z' || 'a' <= c <= 'z' || '0' <= c <= '9' || c == '#'
}

/// How long the entity at the start of a text is, where it is an unknown one that another begins
/// inside of.
pub open spec fn unknown_entity(s: Seq<char>) -> Option<int> {
    let end = first_char(s, ';');
    if 1 <= end < s.len() {
        let inside = s.subrange(1, end);
        let n = first_char(inside, '&');
        if 0 < n < inside.len() && forall|i: int| 0 <= i < n ==> in_name(#[trigger] inside[i]) {
            Some(end + 1)
        } else {
            None
        }
    } else {
        None
    }
}

fn thunder_unknown_entity_len(s: &[char], at: usize) -> (r: Option<usize>)
    requires
        at <= s.len(),
    ensures
        match unknown_entity(s@.skip(at as int)) {
            Some(n) => r == Some(n as usize) && 1 <= n <= s.len() - at,
            None => r is None,
        },
{
    let ghost e = s@.skip(at as int);
    let end: usize = find_char(s, ';', at);
    if end == s.len() || end == at {
        return None;
    }
    let inside = sub_chars(s, at + 1, end);
    assert(inside@ =~= e.subrange(1, end - at));
    let n: usize = find_char(inside.as_slice(), '&', 0);
    assert(inside@.skip(0) =~= inside@);
    if n == inside.len() || n == 0 {
        return None;
    }
    let mut i: usize = 0;
    #[verifier::loop_isolation(false)]
    while i < n
        invariant
            i <= n < inside.len(),
            forall|j: int| 0 <= j < i ==> in_name(#[trigger] inside@[j]),
        decreases n - i,
    {
        let c = inside[i];
        if !(('A' <= c && c <= 'Z') || ('a' <= c && c <= 'z') || ('0' <= c && c <= '9') || c
            == '#') {
            assert(!in_name(inside@[i as int]));
            return None;
        }
        i += 1;
    }
    Some(end - at + 1)
}

/// A text with every entity that stands for an ampersand replaced by one; unknown entities stay.
pub open spec fn unescaped(s: Seq<char>) -> Seq<char>
    decreases s.len(),
    via unescaped_gets_shorter
{
    let n = first_char(s, '&');
    if n >= s.len() {
        s
    } else {
        let e = s.skip(n);
        s.take(n) + (match ampersand_entity(e) {
            Some(k) => seq!['&'] + unescaped(e.skip(k)),
            None => match unknown_entity(e) {
                Some(k) => e.take(k) + unescaped(e.skip(k)),
                None => seq!['&'] + unescaped(e.skip(1)),
            },
        })
    }
}

#[via_fn]
proof fn unescaped_gets_shorter(s: Seq<char>) {
    lemma_entities(s);
}

proof fn lemma_first_bounds(s: Seq<char>, c: char)
    ensures
        0 <= first_char(s, c) <= s.len(),
    decreases s.len(),
{
    if s.len() > 0 {
        lemma_first_bounds(s.drop_first(), c);
    }
}

proof fn lemma_entities(s: Seq<char>)
    ensures
        0 <= first_char(s, '&') <= s.len(),
        ({
            let e = s.skip(first_char(s, '&'));
            &&& ampersand_entity(e) matches Some(k) ==> 1 <= k <= e.len()
            &&& unknown_entity(e) matches Some(k) ==> 1 <= k <= e.len()
        }),
{
    lemma_first_bounds(s, '&');
    let e = s.skip(first_char(s, '&'));
    lemma_first_bounds(e, ';');
}

fn decode_entity(s: &[char], start: usize) -> (r: (Vec<char>, usize))
    requires
        start < s.len(),
    ensures
        start < r.1 <= s.len(),
        ({
            let e = s@.skip(start as int);
            match ampersand_entity(e) {
                Some(k) => r.0@ == seq!['&'] && r.1 == start + k,
                None => match unknown_entity(e) {
                    Some(k) => r.0@ == e.take(k) && r.1 == start + k,
                    None => r.0@ == seq!['&'] && r.1 == start + 1,
                },
            }
        }),
{
    if let Some(k) = thunder_ampersand_entity_len(s, start) {
        let mut out: Vec<char> = Vec::new();
        out.push('&');
        assert(out@ =~= seq!['&']);
        return (out, start + k);
    }
    if let Some(k) = thunder_unknown_entity_len(s, start) {
        let out = sub_chars(s, start, start + k);
        assert(out@ =~= s@.skip(start as int).take(k as int));
        return (out, start + k);
    }
    let mut out: Vec<char> = Vec::new();
    out.push('&');
    assert(out@ =~= seq!['&']);
    (out, start + 1)
}

proof fn lemma_step(rest: Seq<char>, part: Seq<char>, k: int)
    requires
        ({
            let n = first_char(rest, '&');
            let e = rest.skip(n);
            &&& n < rest.len()
            &&& match ampersand_entity(e) {
                Some(j) => part == seq!['&'] && k == j,
                None => match unknown_entity(e) {
                    Some(j) => part == e.take(j) && k == j,
                    None => part == seq!['&'] && k == 1,
                },
            }
        }),
    ensures
        unescaped(rest) == rest.take(first_char(rest, '&')) + part + unescaped(
            rest.skip(first_char(rest, '&') + k),
        ),
{
    let n = first_char(rest, '&');
    lemma_entities(rest);
    let e = rest.skip(n);
    assert(e.skip(k) =~= rest.skip(n + k));
    assert(rest.take(n) + (part + unescaped(e.skip(k))) =~= rest.take(n) + part + unescaped(
        rest.skip(n + k),
    ));
}

/// A text with every entity that stands for an ampersand replaced by one.
pub fn decode_thunder_ampersands(s: &[char]) -> (r: Vec<char>)
    ensures
        r@ == unescaped(s@),
{
    let mut out: Vec<char> = Vec::new();
    let mut at: usize = 0;
    assert(s@.skip(0) =~= s@);
    assert(out@ + unescaped(s@) =~= unescaped(s@));
    loop
        invariant
            at <= s.len(),
            out@ + unescaped(s@.skip(at as int)) == unescaped(s@),
        decreases s.len() - at,
    {
        let ghost rest = s@.skip(at as int);
        let ghost before = out@;
        let start: usize = find_char(s, '&', at);
        let mut head = sub_chars(s, at, start);
        let ghost front = head@;
        out.append(&mut head);
        assert(front =~= rest.take(start - at));
        if start == s.len() {
            assert(front =~= rest);
            return out;
        }
        assert(rest.skip(start - at) =~= s@.skip(start as int));
        let (mut part, next) = decode_entity(s, start);
        let ghost p = part@;
        out.append(&mut part);
        proof {
            lemma_step(rest, p, next - start);
            assert(rest.skip(next - at) =~= s@.skip(next as int));
            assert(out@ =~= before + front + p);
            assert(out@ + unescaped(s@.skip(next as int)) =~= before + (front + p + unescaped(
                s@.skip(next as int),
            )));
        }
        at = next;
    }
}

/// The link inside an envelope.
pub open spec fn unwrapped(b: Seq<u8>) -> Option<Seq<char>> {
    match text_of(b) {
        None => None,
        Some(t) => if text_at(t, 0, "AA"@) && text_at(t.skip(2), t.len() - 4, "ZZ"@) {
            let inside = trimmed(t.subrange(2, t.len() - 2));
            if inside.len() == 0 {
                None
            } else {
                Some(unescaped(inside))
            }
        } else {
            None
        },
    }
}

/// Open an envelope.
pub fn open_envelope(bytes: &[u8]) -> (r: Option<String>)
    ensures
        match unwrapped(bytes@) {
            Some(t) => r matches Some(s) && s@ == t,
            None => r is None,
        },
{
    proof {
        reveal_strlit("AA");
        reveal_strlit("ZZ");
    }
    let text = match read_text(bytes) {
        Some(t) => t,
        None => {
            return None;
        },
    };
    let c = to_chars(text.as_str());
    let head = to_chars("AA");
    let tail = to_chars("ZZ");
    if c.len() < 4 || !chars_at(c.as_slice(), 0, head.as_slice()) || !chars_at(
        c.as_slice(),
        c.len() - 2,
        tail.as_slice(),
    ) {
        proof {
            let t = c@;
            if t.len() >= 4 {
                assert(t.skip(2).subrange(t.len() - 4, t.len() - 2) =~= t.subrange(
                    t.len() - 2,
                    t.len() as int,
                ));
            }
        }
        return None;
    }
    assert(c@.skip(2).subrange(c@.len() - 4, c@.len() - 2) =~= c@.subrange(
        c@.len() - 2,
        c@.len() as int,
    ));
    let inner = sub_chars(c.as_slice(), 2, c.len() - 2);
    let inside = trim_chars(inner.as_slice());
    if inside.len() == 0 {
        return None;
    }
    let out = decode_thunder_ampersands(inside.as_slice());
    Some(from_chars(out.as_slice()))
}

/// The link inside a wrapped one; absent where there is none.
pub open spec fn thunder_link(uri: Seq<char>) -> Option<Seq<char>> {
    match thunder_payload(uri) {
        None => None,
        Some(text) => match base64_decoded(vstd::utf8::encode_utf8(text)) {
            None => None,
            Some(b) => unwrapped(b),
        },
    }
}

/// The link inside a wrapped one.
pub fn decode_thunder_uri(uri: &str) -> (r: Option<String>)
    ensures
        match thunder_link(uri@) {
            Some(t) => r matches Some(s) && s@ == t,
            None => r is None,
        },
{
    let text = match read_payload(uri) {
        Some(t) => t,
        None => {
            return None;
        },
    };
    match decode_base64(text.as_str().as_bytes()) {
        Some(bytes) => open_envelope(bytes.as_slice()),
        None => None,
    }
}

/// A link without ampersands stays as it is.
pub proof fn plain_links_stay(s: Seq<char>)
    requires
        !s.contains('&'),
    ensures
        unescaped(s) == s,
{
    assert forall|i: int| 0 <= i < s.len() implies s[i] != '&' by {
        if s[i] == '&' {
            assert(s.contains(s[i]));
        }
    }
    lemma_first_char(s, '&', s.len() as int);
}

/// The text of an envelope around a link.
pub open spec fn enveloped(link: Seq<char>) -> Seq<char> {
    "AA"@ + link + "ZZ"@
}

/// A link that is not empty, has no white space at its ends and holds no ampersand.
pub open spec fn is_plain(link: Seq<char>) -> bool {
    link.len() > 0 && !is_space(link[0]) && !is_space(link.last()) && !link.contains('&')
}

/// Opening the envelope around a plain link gives that link back.
pub proof fn envelopes_are_opened(link: Seq<char>)
    requires
        is_plain(link),
    ensures
        unwrapped(vstd::utf8::encode_utf8(enveloped(link))) == Some(link),
{
    let t = enveloped(link);
    reveal_strlit("AA");
    reveal_strlit("ZZ");
    vstd::utf8::encode_utf8_valid_utf8(t);
    vstd::utf8::encode_utf8_decode_utf8(t);
    assert(t.subrange(0, 2) =~= "AA"@);
    assert(t.skip(2).subrange(t.len() - 4, t.len() - 2) =~= "ZZ"@);
    assert(t.subrange(2, t.len() - 2) =~= link);
    lemma_trimmed_stays(link);
    plain_links_stay(link);
}

/// True of base64 in the standard alphabet with all its padding.
pub open spec fn is_whole_base64(code: Seq<char>) -> bool {
    is_base64(code) && code.len() % 4 == 0
}

/// True when a text writes base64 without some of the padding at its end, in the standard
/// alphabet, in that for links or in a mixture of both.
pub open spec fn writes_base64(body: Seq<char>, code: Seq<char>) -> bool {
    &&& body.len() <= code.len()
    &&& forall|i: int| 0 <= i < body.len() ==> standard_char(#[trigger] body[i]) == code[i]
    &&& forall|i: int| body.len() <= i < code.len() ==> #[trigger] code[i] == '='
}

proof fn lemma_padding(s: Seq<char>)
    requires
        padding_of(s) is Some,
    ensures
        padding_of(s)->0 <= 2,
        forall|i: int|
            0 <= i < s.len() ==> (in_alphabet(#[trigger] s[i]) || s[i] == '=') && (i < s.len()
                - padding_of(s)->0 ==> in_alphabet(s[i])),
    decreases s.len(),
{
    if s.len() > 0 {
        let front = s.drop_last();
        lemma_padding(front);
        assert forall|i: int| 0 <= i < s.len() implies (in_alphabet(#[trigger] s[i]) || s[i] == '=')
            && (i < s.len() - padding_of(s)->0 ==> in_alphabet(s[i])) by {
            if i < front.len() {
                assert(s[i] == front[i]);
            }
        }
    }
}

proof fn lemma_punctuation_goes(body: Seq<char>, tail: Seq<char>)
    requires
        body.len() > 0,
        body.last() != ')' && body.last() != '.',
        forall|i: int| 0 <= i < tail.len() ==> (#[trigger] tail[i] == ')' || tail[i] == '.'),
    ensures
        without_punctuation(body + tail) == body,
    decreases tail.len(),
{
    if tail.len() == 0 {
        assert(body + tail =~= body);
    } else {
        assert((body + tail).drop_last() =~= body + tail.drop_last());
        assert((body + tail).last() == tail[tail.len() - 1]);
        lemma_punctuation_goes(body, tail.drop_last());
    }
}

proof fn lemma_payload(scheme: Seq<char>, body: Seq<char>, tail: Seq<char>, code: Seq<char>)
    requires
        same_ignoring_case(scheme, "thunder"@),
        is_whole_base64(code),
        writes_base64(body, code),
        forall|i: int| 0 <= i < tail.len() ==> (#[trigger] tail[i] == ')' || tail[i] == '.'),
    ensures
        thunder_payload(scheme + "://"@ + body + tail) == Some(code),
{
    let uri = scheme + "://"@ + body + tail;
    reveal_strlit("thunder");
    reveal_strlit("://");
    lemma_padding(code);
    let n = padding_of(code)->0;
    assert(body.len() >= code.len() - n) by {
        if body.len() < code.len() - n {
            assert(in_alphabet(code[body.len() as int]));
        }
    }
    let end = body[body.len() - 1];
    assert(standard_char(end) == code[body.len() - 1]);
    assert(ascii_lower(scheme[0]) == ascii_lower('t'));
    assert(uri[0] == scheme[0]);
    assert(uri.last() == if tail.len() > 0 {
        tail[tail.len() - 1]
    } else {
        end
    });
    lemma_trimmed_stays(uri);
    assert(uri.take(7) =~= scheme);
    assert(uri.subrange(7, 10) =~= "://"@);
    assert(uri.skip(10) =~= body + tail);
    lemma_punctuation_goes(body, tail);
    let text = Seq::new(body.len(), |i: int| standard_char(body[i]));
    assert(text =~= code.take(body.len() as int));
    if padding_of(text) is None {
        lemma_padding_breaks(code, body.len() as int);
    }
    assert(padded(text) =~= code);
}

/// A link that was wrapped comes out again: its envelope in base64, in either alphabet and with
/// any of its padding left out, behind the name of the scheme in any case, with closing brackets
/// and full stops behind it or not.
pub proof fn wrapped_links_are_opened(
    scheme: Seq<char>,
    body: Seq<char>,
    tail: Seq<char>,
    code: Seq<char>,
    link: Seq<char>,
)
    requires
        same_ignoring_case(scheme, "thunder"@),
        is_whole_base64(code),
        base64_decoded(vstd::utf8::encode_utf8(code)) == Some(
            vstd::utf8::encode_utf8(enveloped(link)),
        ),
        writes_base64(body, code),
        forall|i: int| 0 <= i < tail.len() ==> (#[trigger] tail[i] == ')' || tail[i] == '.'),
        is_plain(link),
    ensures
        thunder_link(scheme + "://"@ + body + tail) == Some(link),
{
    lemma_payload(scheme, body, tail, code);
    envelopes_are_opened(link);
}

} // verus!
