//! Strings as sequences of characters.

use vstd::prelude::*;

verus! {

/// `String::push`: one character more.
#[verifier::external_body]
fn string_push(s: &mut String, c: char)
    ensures
        final(s)@ == old(s)@.push(c),
{
    s.push(c)
}

/// The characters of a string.
pub fn to_chars(s: &str) -> (r: Vec<char>)
    ensures
        r@ == s@,
{
    let mut out: Vec<char> = Vec::new();
    for c in it: s.chars()
        invariant
            out@ == it.seq().take(it.index() as int),
            it.seq() == s@,
    {
        out.push(c);
        assert(out@ =~= it.seq().take(it.index() + 1));
    }
    assert(out@ =~= s@);
    out
}

/// The string of these characters.
pub fn from_chars(chars: &[char]) -> (r: String)
    ensures
        r@ == chars@,
{
    let mut out = String::new();
    let mut i: usize = 0;
    assert(out@ =~= chars@.take(0));
    while i < chars.len()
        invariant
            i <= chars.len(),
            out@ == chars@.take(i as int),
        decreases chars.len() - i,
    {
        string_push(&mut out, chars[i]);
        assert(out@ =~= chars@.take(i + 1));
        i += 1;
    }
    assert(out@ =~= chars@);
    out
}

/// True when the two strings are the same.
pub fn same_text(a: &str, b: &str) -> (r: bool)
    ensures
        r == (a@ == b@),
{
    a.to_owned() == b.to_owned()
}

/// True when `b` stands in `a` from `at` on.
pub open spec fn text_at(a: Seq<char>, at: int, b: Seq<char>) -> bool {
    0 <= at && at + b.len() <= a.len() && a.subrange(at, at + b.len()) == b
}

/// True when the characters of `b` stand in `a` from `at` on.
pub fn chars_at(a: &[char], at: usize, b: &[char]) -> (r: bool)
    ensures
        r == text_at(a@, at as int, b@),
{
    if at > a.len() || a.len() - at < b.len() {
        return false;
    }
    let mut i: usize = 0;
    while i < b.len()
        invariant
            i <= b.len(),
            at + b.len() <= a.len(),
            forall|j: int| 0 <= j < i ==> a@[at + j] == b@[j],
        decreases b.len() - i,
    {
        if a[at + i] != b[i] {
            assert(a@.subrange(at as int, at + b.len())[i as int] != b@[i as int]);
            return false;
        }
        i += 1;
    }
    assert(a@.subrange(at as int, at + b.len()) =~= b@);
    true
}

/// True when `s` begins with `prefix`.
pub fn begins_with(s: &str, prefix: &str) -> (r: bool)
    ensures
        r == text_at(s@, 0, prefix@),
{
    let a = to_chars(s);
    let b = to_chars(prefix);
    chars_at(a.as_slice(), 0, b.as_slice())
}

/// The part of a sequence of characters from `from` up to `to`.
pub fn sub_chars(c: &[char], from: usize, to: usize) -> (r: Vec<char>)
    requires
        from <= to <= c.len(),
    ensures
        r@ == c@.subrange(from as int, to as int),
{
    let mut out: Vec<char> = Vec::new();
    let mut i: usize = from;
    while i < to
        invariant
            from <= i <= to <= c.len(),
            out@ == c@.subrange(from as int, i as int),
        decreases to - i,
    {
        out.push(c[i]);
        assert(out@ =~= c@.subrange(from as int, i + 1));
        i += 1;
    }
    out
}

/// Two strings one behind the other.
pub fn join_text(a: &str, b: &str) -> (r: String)
    ensures
        r@ == a@ + b@,
{
    let mut out = a.to_owned();
    out.append(b);
    out
}

/// The decimal digits of a number, without padding.
pub open spec fn decimal_number(n: nat) -> Seq<char>
    decreases n,
{
    if n < 10 {
        seq![(48 + n) as char]
    } else {
        decimal_number(n / 10).push((48 + n % 10) as char)
    }
}

/// Append the decimal digits of a number.
pub fn push_decimal(out: &mut String, n: u64)
    ensures
        final(out)@ == old(out)@ + decimal_number(n as nat),
    decreases n,
{
    if n >= 10 {
        push_decimal(out, n / 10);
    }
    string_push(out, (48 + (n % 10) as u8) as char);
    assert(out@ =~= old(out)@ + decimal_number(n as nat));
}

/// The lower-case hexadecimal digit of a number below sixteen.
pub open spec fn hex_digit(n: int) -> char {
    if n < 10 {
        (48 + n) as char
    } else {
        (87 + n) as char
    }
}

/// The lower-case hexadecimal digits of a number, without padding.
pub open spec fn hex_number(n: nat) -> Seq<char>
    decreases n,
{
    if n < 16 {
        seq![hex_digit(n as int)]
    } else {
        hex_number(n / 16).push(hex_digit((n % 16) as int))
    }
}

fn digit_char(n: u8) -> (r: char)
    requires
        n < 16,
    ensures
        r == hex_digit(n as int),
{
    if n < 10 {
        (48 + n) as char
    } else {
        (87 + n) as char
    }
}

/// Append the lower-case hexadecimal digits of a number.
pub fn push_hex(out: &mut String, n: u32)
    ensures
        final(out)@ == old(out)@ + hex_number(n as nat),
    decreases n,
{
    if n >= 16 {
        push_hex(out, n / 16);
    }
    string_push(out, digit_char((n % 16) as u8));
    assert(out@ =~= old(out)@ + hex_number(n as nat));
}

/// Where `c` first stands in `s`; the length of `s` where it does not.
pub open spec fn first_char(s: Seq<char>, c: char) -> int
    decreases s.len(),
{
    if s.len() == 0 {
        0
    } else if s[0] == c {
        0
    } else {
        1 + first_char(s.drop_first(), c)
    }
}

/// The first index that holds `c` is the one that [`first_char`] names.
pub proof fn lemma_first_char(s: Seq<char>, c: char, i: int)
    requires
        0 <= i <= s.len(),
        forall|j: int| 0 <= j < i ==> s[j] != c,
        i < s.len() ==> s[i] == c,
    ensures
        first_char(s, c) == i,
    decreases s.len(),
{
    if s.len() > 0 && i > 0 {
        lemma_first_char(s.drop_first(), c, i - 1);
    }
}

/// Where `c` first stands at or behind `from`; the length where it does not.
pub fn find_char(s: &[char], c: char, from: usize) -> (r: usize)
    requires
        from <= s.len(),
    ensures
        from <= r <= s.len(),
        r - from == first_char(s@.skip(from as int), c),
        forall|j: int| from <= j < r ==> s@[j] != c,
        r < s.len() ==> s@[r as int] == c,
{
    let mut i: usize = from;
    while i < s.len() && s[i] != c
        invariant
            from <= i <= s.len(),
            forall|j: int| from <= j < i ==> s@[j] != c,
        decreases s.len() - i,
    {
        i += 1;
    }
    proof {
        lemma_first_char(s@.skip(from as int), c, i - from);
    }
    i
}

/// A line without the carriage return at its end.
pub open spec fn without_return(line: Seq<char>) -> Seq<char> {
    if line.len() > 0 && line.last() == '\r' {
        line.drop_last()
    } else {
        line
    }
}

/// The lines of a text: each ends at a line feed, with or without a carriage return before it,
/// and the last one may end at the end of the text.
pub open spec fn lines_of(s: Seq<char>) -> Seq<Seq<char>>
    decreases s.len(),
    via lines_get_shorter
{
    if s.len() == 0 {
        seq![]
    } else {
        let n = first_char(s, '\n');
        if n >= s.len() {
            seq![s]
        } else {
            seq![without_return(s.take(n))] + lines_of(s.skip(n + 1))
        }
    }
}

#[via_fn]
proof fn lines_get_shorter(s: Seq<char>) {
    lemma_first_char_range(s, '\n');
}

proof fn lemma_first_char_range(s: Seq<char>, c: char)
    ensures
        0 <= first_char(s, c) <= s.len(),
    decreases s.len(),
{
    if s.len() > 0 {
        lemma_first_char_range(s.drop_first(), c);
    }
}

/// The mathematical values of strings.
pub open spec fn text_views(v: Seq<String>) -> Seq<Seq<char>> {
    Seq::new(v.len(), |i: int| v[i]@)
}

/// A copy of strings.
pub fn copy_texts(v: &Vec<String>) -> (r: Vec<String>)
    ensures
        text_views(r@) == text_views(v@),
{
    let mut out: Vec<String> = Vec::new();
    let mut i: usize = 0;
    assert(text_views(out@) =~= text_views(v@).take(0));
    while i < v.len()
        invariant
            i <= v.len(),
            text_views(out@) == text_views(v@).take(i as int),
        decreases v.len() - i,
    {
        let ghost before = out@;
        let s = v[i].as_str().to_string();
        let ghost t = s@;
        out.push(s);
        assert(text_views(out@) =~= text_views(before).push(t));
        assert(text_views(v@).take(i + 1) =~= text_views(v@).take(i as int).push(
            text_views(v@)[i as int],
        ));
        i += 1;
    }
    assert(text_views(v@).take(i as int) =~= text_views(v@));
    out
}

/// The mathematical values of strings that are held as characters.
pub open spec fn chars_views(v: Seq<Vec<char>>) -> Seq<Seq<char>> {
    Seq::new(v.len(), |i: int| v[i]@)
}

/// The lines of a text.
pub fn lines(s: &[char]) -> (r: Vec<Vec<char>>)
    ensures
        chars_views(r@) == lines_of(s@),
{
    let mut out: Vec<Vec<char>> = Vec::new();
    let mut at: usize = 0;
    proof {
        assert(s@.skip(0) =~= s@);
        assert(chars_views(out@) + lines_of(s@) =~= lines_of(s@));
    }
    while at < s.len()
        invariant
            at <= s.len(),
            chars_views(out@) + lines_of(s@.skip(at as int)) == lines_of(s@),
        decreases s.len() - at,
    {
        let end: usize = find_char(s, '\n', at);
        let ghost rest = s@.skip(at as int);
        let ghost before = out@;
        if end == s.len() {
            let line = sub_chars(s, at, end);
            out.push(line);
            proof {
                assert(line@ =~= rest);
                assert(chars_views(out@) =~= chars_views(before).push(line@));
                assert(chars_views(out@) =~= chars_views(before) + lines_of(rest));
            }
            return out;
        }
        let stop: usize = if end > at && s[end - 1] == '\r' {
            end - 1
        } else {
            end
        };
        let line = sub_chars(s, at, stop);
        out.push(line);
        proof {
            let n = end - at;
            assert(rest.take(n) =~= s@.subrange(at as int, end as int));
            assert(line@ =~= without_return(rest.take(n)));
            assert(rest.skip(n + 1) =~= s@.skip(end + 1));
            assert(chars_views(out@) =~= chars_views(before).push(line@));
            assert(chars_views(out@) + lines_of(s@.skip(end + 1)) =~= chars_views(before)
                + lines_of(rest));
        }
        at = end + 1;
    }
    assert(s@.skip(at as int) =~= seq![]);
    assert(chars_views(out@) =~= lines_of(s@));
    out
}

/// The lower-case form of an ASCII letter; other characters stay.
pub open spec fn ascii_lower(c: char) -> char {
    if 'A' <= c <= 'Z' {
        ((c as u32) + 32) as char
    } else {
        c
    }
}

/// Two strings that differ at most in the case of ASCII letters.
pub open spec fn same_ignoring_case(a: Seq<char>, b: Seq<char>) -> bool {
    a.len() == b.len() && forall|i: int|
        0 <= i < a.len() ==> ascii_lower(#[trigger] a[i]) == ascii_lower(b[i])
}

fn lower(c: char) -> (r: char)
    ensures
        r == ascii_lower(c),
{
    if 'A' <= c && c <= 'Z' {
        ((c as u8) + 32) as char
    } else {
        c
    }
}

/// A text with its ASCII letters in lower case.
pub open spec fn lowered(s: Seq<char>) -> Seq<char> {
    Seq::new(s.len(), |i: int| ascii_lower(s[i]))
}

/// The characters of a text with its ASCII letters in lower case.
pub fn lower_chars(s: &str) -> (r: Vec<char>)
    ensures
        r@ == lowered(s@),
{
    let c = to_chars(s);
    let mut out: Vec<char> = Vec::new();
    let mut i: usize = 0;
    while i < c.len()
        invariant
            i <= c.len(),
            c@ == s@,
            out@ == lowered(s@).take(i as int),
        decreases c.len() - i,
    {
        out.push(lower(c[i]));
        assert(out@ =~= lowered(s@).take(i + 1));
        i += 1;
    }
    assert(out@ =~= lowered(s@));
    out
}

/// True when the two strings differ at most in the case of ASCII letters.
pub fn equal_ignoring_case(a: &str, b: &str) -> (r: bool)
    ensures
        r == same_ignoring_case(a@, b@),
{
    let x = to_chars(a);
    let y = to_chars(b);
    if x.len() != y.len() {
        return false;
    }
    let mut i: usize = 0;
    while i < x.len()
        invariant
            i <= x.len(),
            x.len() == y.len(),
            x@ == a@,
            y@ == b@,
            forall|j: int| 0 <= j < i ==> ascii_lower(#[trigger] x@[j]) == ascii_lower(y@[j]),
        decreases x.len() - i,
    {
        if lower(x[i]) != lower(y[i]) {
            assert(ascii_lower(a@[i as int]) != ascii_lower(b@[i as int]));
            return false;
        }
        i += 1;
    }
    true
}

/// True of the characters that Unicode counts as white space.
pub open spec fn is_space(c: char) -> bool {
    let n = c as u32;
    9 <= n <= 13 || n == 0x20 || n == 0x85 || n == 0xA0 || n == 0x1680 || 0x2000 <= n <= 0x200A || n
        == 0x2028 || n == 0x2029 || n == 0x202F || n == 0x205F || n == 0x3000
}

/// True of the characters that Unicode counts as white space.
pub fn is_white(c: char) -> (r: bool)
    ensures
        r == is_space(c),
{
    let n: u32 = c as u32;
    (9 <= n && n <= 13) || n == 0x20 || n == 0x85 || n == 0xA0 || n == 0x1680 || (0x2000 <= n && n
        <= 0x200A) || n == 0x2028 || n == 0x2029 || n == 0x202F || n == 0x205F || n == 0x3000
}

/// A text without the white space at its start.
pub open spec fn trimmed_front(s: Seq<char>) -> Seq<char>
    decreases s.len(),
{
    if s.len() > 0 && is_space(s[0]) {
        trimmed_front(s.drop_first())
    } else {
        s
    }
}

/// A text without the white space at its end.
pub open spec fn trimmed_back(s: Seq<char>) -> Seq<char>
    decreases s.len(),
{
    if s.len() > 0 && is_space(s.last()) {
        trimmed_back(s.drop_last())
    } else {
        s
    }
}

/// A text without the white space at its ends.
pub open spec fn trimmed(s: Seq<char>) -> Seq<char> {
    trimmed_back(trimmed_front(s))
}

/// A text without the white space at its ends.
pub fn trim_chars(s: &[char]) -> (r: Vec<char>)
    ensures
        r@ == trimmed(s@),
{
    let mut a: usize = 0;
    assert(s@.skip(0) =~= s@);
    while a < s.len() && is_white(s[a])
        invariant
            a <= s.len(),
            trimmed_front(s@) == trimmed_front(s@.skip(a as int)),
        decreases s.len() - a,
    {
        assert(s@.skip(a as int).drop_first() =~= s@.skip(a + 1));
        a += 1;
    }
    let ghost rest = s@.skip(a as int);
    assert(trimmed_front(s@) == rest);
    let mut b: usize = s.len();
    assert(s@.subrange(a as int, b as int) =~= rest);
    while b > a && is_white(s[b - 1])
        invariant
            a <= b <= s.len(),
            rest == s@.skip(a as int),
            trimmed_back(rest) == trimmed_back(s@.subrange(a as int, b as int)),
        decreases b,
    {
        assert(s@.subrange(a as int, b as int).drop_last() =~= s@.subrange(a as int, b - 1));
        b -= 1;
    }
    sub_chars(s, a, b)
}

/// A text without the white space at its ends.
pub fn trim(s: &str) -> (r: String)
    ensures
        r@ == trimmed(s@),
{
    from_chars(trim_chars(to_chars(s).as_slice()).as_slice())
}

/// The number that decimal digits write.
pub open spec fn digits_number(s: Seq<char>) -> nat
    decreases s.len(),
{
    if s.len() == 0 {
        0
    } else {
        (digits_number(s.drop_last()) * 10 + (s.last() as int - 48)) as nat
    }
}

/// True when every character is a decimal digit.
pub open spec fn all_digits(s: Seq<char>) -> bool {
    forall|i: int| 0 <= i < s.len() ==> '0' <= #[trigger] s[i] <= '9'
}

/// The number that a text writes: decimal digits, behind a plus sign or not, up to a limit.
pub open spec fn number_in(s: Seq<char>, limit: nat) -> Option<nat> {
    let digits = if s.len() > 0 && s[0] == '+' {
        s.drop_first()
    } else {
        s
    };
    if digits.len() > 0 && all_digits(digits) && digits_number(digits) <= limit {
        Some(digits_number(digits))
    } else {
        None
    }
}

proof fn lemma_digits_only_grow(s: Seq<char>, i: int)
    requires
        0 <= i <= s.len(),
        all_digits(s),
    ensures
        digits_number(s.take(i)) <= digits_number(s),
    decreases s.len(),
{
    if i < s.len() {
        lemma_digits_only_grow(s.drop_last(), i);
        assert(s.drop_last().take(i) =~= s.take(i));
        assert('0' <= s[s.len() - 1] <= '9');
    } else {
        assert(s.take(i) =~= s);
    }
}

/// The number that a text writes: decimal digits, behind a plus sign or not, up to a limit.
pub fn parse_number(s: &[char], limit: u64) -> (r: Option<u64>)
    ensures
        match number_in(s@, limit as nat) {
            Some(n) => r == Some(n as u64) && n <= limit,
            None => r is None,
        },
{
    let start: usize = if s.len() > 0 && s[0] == '+' {
        1
    } else {
        0
    };
    if start == s.len() {
        return None;
    }
    let ghost digits = s@.skip(start as int);
    proof {
        assert(digits =~= (if s@.len() > 0 && s@[0] == '+' {
            s@.drop_first()
        } else {
            s@
        }));
        assert(digits.take(0) =~= seq![]);
    }
    let mut n: u64 = 0;
    let mut i: usize = start;
    while i < s.len()
        invariant
            start <= i <= s.len(),
            digits == s@.skip(start as int),
            digits == (if s@.len() > 0 && s@[0] == '+' {
                s@.drop_first()
            } else {
                s@
            }),
            n == digits_number(digits.take(i - start)),
            n <= limit,
            forall|j: int| 0 <= j < i - start ==> '0' <= #[trigger] digits[j] <= '9',
        decreases s.len() - i,
    {
        let c = s[i];
        let ghost k = i - start;
        assert(digits[k] == c);
        if c < '0' || c > '9' {
            assert(!all_digits(digits));
            return None;
        }
        let d: u64 = (c as u32 - 48) as u64;
        proof {
            assert(digits.take(k + 1).drop_last() =~= digits.take(k));
            assert(digits_number(digits.take(k + 1)) == n * 10 + d);
        }
        if n > (u64::MAX - d) / 10 || n * 10 + d > limit {
            proof {
                if all_digits(digits) {
                    lemma_digits_only_grow(digits, k + 1);
                }
            }
            return None;
        }
        n = n * 10 + d;
        i += 1;
    }
    assert(digits.take(i - start) =~= digits);
    Some(n)
}

/// The digits of a number read back as that number.
pub proof fn decimal_numbers_read_back(n: nat, limit: nat)
    requires
        n <= limit,
    ensures
        decimal_number(n).len() > 0,
        all_digits(decimal_number(n)),
        number_in(decimal_number(n), limit) == Some(n),
{
    lemma_decimal(n);
    assert('0' <= decimal_number(n)[0] <= '9');
}

proof fn lemma_decimal(n: nat)
    ensures
        decimal_number(n).len() > 0,
        all_digits(decimal_number(n)),
        digits_number(decimal_number(n)) == n,
    decreases n,
{
    let s = decimal_number(n);
    if n < 10 {
        assert(s.drop_last() =~= seq![]);
        assert(digits_number(s.drop_last()) == 0);
        assert(s.last() as int == 48 + n);
    } else {
        lemma_decimal(n / 10);
        let front = decimal_number(n / 10);
        assert(s.drop_last() =~= front);
        assert(s.last() as int == 48 + n % 10);
        assert forall|i: int| 0 <= i < s.len() implies '0' <= #[trigger] s[i] <= '9' by {
            if i < front.len() {
                assert(s[i] == front[i]);
            }
        }
    }
}

/// A text without white space at its ends stays as it is.
pub proof fn lemma_trimmed_stays(s: Seq<char>)
    requires
        s.len() > 0 ==> !is_space(s[0]) && !is_space(s.last()),
    ensures
        trimmed(s) == s,
{
}

/// The text that some bytes encode.
pub open spec fn text_of(b: Seq<u8>) -> Option<Seq<char>> {
    if vstd::utf8::valid_utf8(b) {
        Some(vstd::utf8::decode_utf8(b))
    } else {
        None
    }
}

/// `String::from_utf8`: the text that the bytes encode, or an error where they are not UTF-8.
#[verifier::external_body]
fn string_from_utf8(b: Vec<u8>) -> (r: Option<String>)
    ensures
        match text_of(b@) {
            Some(t) => r matches Some(s) && s@ == t,
            None => r is None,
        },
{
    String::from_utf8(b).ok()
}

/// The text that some bytes encode.
pub fn read_text(b: &[u8]) -> (r: Option<String>)
    ensures
        match text_of(b@) {
            Some(t) => r matches Some(s) && s@ == t,
            None => r is None,
        },
{
    let copy = crate::bencode::copy_range(b, 0, b.len());
    assert(copy@ =~= b@);
    string_from_utf8(copy)
}

proof fn lemma_trimmed_front(s: Seq<char>) -> (k: int)
    ensures
        0 <= k <= s.len(),
        trimmed_front(s) == s.skip(k),
        forall|i: int| 0 <= i < k ==> is_space(#[trigger] s[i]),
        k < s.len() ==> !is_space(s[k]),
    decreases s.len(),
{
    if s.len() > 0 && is_space(s[0]) {
        let rest = s.drop_first();
        let k = lemma_trimmed_front(rest);
        assert(rest.skip(k) =~= s.skip(k + 1));
        assert forall|i: int| 0 <= i < k + 1 implies is_space(#[trigger] s[i]) by {
            if i > 0 {
                assert(rest[i - 1] == s[i]);
            }
        }
        k + 1
    } else {
        assert(s.skip(0) =~= s);
        0
    }
}

proof fn lemma_trimmed_back(s: Seq<char>) -> (k: int)
    ensures
        0 <= k <= s.len(),
        trimmed_back(s) == s.take(k),
        forall|i: int| k <= i < s.len() ==> is_space(#[trigger] s[i]),
        k > 0 ==> !is_space(s[k - 1]),
    decreases s.len(),
{
    if s.len() > 0 && is_space(s.last()) {
        let rest = s.drop_last();
        let k = lemma_trimmed_back(rest);
        assert(rest.take(k) =~= s.take(k));
        assert forall|i: int| k <= i < s.len() implies is_space(#[trigger] s[i]) by {
            if i < rest.len() {
                assert(rest[i] == s[i]);
            }
        }
        if k > 0 {
            assert(rest[k - 1] == s[k - 1]);
        }
        k
    } else {
        assert(s.take(s.len() as int) =~= s);
        s.len() as int
    }
}

/// True when `a` and `b` cut a text so that there is white space only outside, and none at the
/// ends inside.
pub open spec fn cuts_spaces(s: Seq<char>, a: int, b: int) -> bool {
    &&& 0 <= a <= b <= s.len()
    &&& forall|i: int| 0 <= i < a || b <= i < s.len() ==> is_space(#[trigger] s[i])
    &&& a < b ==> !is_space(s[a]) && !is_space(s[b - 1])
}

/// A text loses the white space at its ends, and nothing else.
pub proof fn only_spaces_are_trimmed(s: Seq<char>) -> (cut: (int, int))
    ensures
        cuts_spaces(s, cut.0, cut.1),
        trimmed(s) == s.subrange(cut.0, cut.1),
{
    let a = lemma_trimmed_front(s);
    let mid = s.skip(a);
    let k = lemma_trimmed_back(mid);
    assert forall|i: int| 0 <= i < a || a + k <= i < s.len() implies is_space(#[trigger] s[i]) by {
        if i >= a + k {
            assert(mid[i - a] == s[i]);
        }
    }
    if k > 0 {
        assert(mid[k - 1] == s[a + k - 1]);
        assert(mid[0] == s[a]);
    }
    assert(mid.take(k) =~= s.subrange(a, a + k));
    (a, a + k)
}

/// Where a character first stands: it stands there, and nowhere before.
pub proof fn where_a_character_stands(s: Seq<char>, c: char)
    ensures
        0 <= first_char(s, c) <= s.len(),
        first_char(s, c) < s.len() <==> s.contains(c),
        first_char(s, c) < s.len() ==> s[first_char(s, c)] == c,
        forall|i: int| 0 <= i < first_char(s, c) ==> #[trigger] s[i] != c,
    decreases s.len(),
{
    if s.len() > 0 {
        let rest = s.drop_first();
        where_a_character_stands(rest, c);
        if s[0] != c {
            assert forall|i: int| 0 <= i < first_char(s, c) implies #[trigger] s[i] != c by {
                if i > 0 {
                    assert(rest[i - 1] == s[i]);
                }
            }
            if rest.contains(c) {
                let i = choose|i: int| 0 <= i < rest.len() && rest[i] == c;
                assert(s[i + 1] == c);
            }
            if s.contains(c) {
                let i = choose|i: int| 0 <= i < s.len() && s[i] == c;
                assert(rest[i - 1] == c);
            }
        } else {
            assert(s.contains(s[0]));
        }
    }
}

} // verus!
