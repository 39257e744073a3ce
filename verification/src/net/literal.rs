//! Addresses as they are written.

use vstd::prelude::*;

use crate::meta::hash::array_from;
use crate::meta::hex::hex_value;
use crate::net::{IpAddr, Ipv4Addr, Ipv6Addr};
use crate::text::{
    all_digits, chars_views, decimal_number, decimal_numbers_read_back, digits_number, find_char,
    first_char, lemma_first_char, parse_number, sub_chars, to_chars,
};

verus! {

/// The parts of a text between the separators; one more than there are separators.
pub open spec fn parts_of(s: Seq<char>, c: char) -> Seq<Seq<char>>
    decreases s.len(),
    via parts_get_shorter
{
    let n = first_char(s, c);
    if n >= s.len() {
        seq![s]
    } else {
        seq![s.take(n)] + parts_of(s.skip(n + 1), c)
    }
}

#[via_fn]
proof fn parts_get_shorter(s: Seq<char>, c: char) {
    lemma_first_char_at_least_zero(s, c);
}

proof fn lemma_first_char_at_least_zero(s: Seq<char>, c: char)
    ensures
        0 <= first_char(s, c) <= s.len(),
    decreases s.len(),
{
    if s.len() > 0 {
        lemma_first_char_at_least_zero(s.drop_first(), c);
    }
}

/// The parts of a text between the separators.
pub fn split_parts(s: &[char], c: char) -> (r: Vec<Vec<char>>)
    ensures
        chars_views(r@) == parts_of(s@, c),
{
    let mut out: Vec<Vec<char>> = Vec::new();
    let mut at: usize = 0;
    proof {
        assert(s@.skip(0) =~= s@);
        assert(chars_views(out@) + parts_of(s@, c) =~= parts_of(s@, c));
    }
    loop
        invariant
            at <= s.len(),
            chars_views(out@) + parts_of(s@.skip(at as int), c) == parts_of(s@, c),
        decreases s.len() - at,
    {
        let end: usize = find_char(s, c, at);
        let ghost rest = s@.skip(at as int);
        let ghost before = out@;
        let part = sub_chars(s, at, end);
        out.push(part);
        proof {
            assert(rest.take(end - at) =~= s@.subrange(at as int, end as int));
            assert(chars_views(out@) =~= chars_views(before).push(part@));
        }
        if end == s.len() {
            proof {
                assert(part@ =~= rest);
                assert(chars_views(out@) =~= chars_views(before) + parts_of(rest, c));
            }
            return out;
        }
        proof {
            assert(rest.skip(end - at + 1) =~= s@.skip(end + 1));
            assert(chars_views(out@) + parts_of(s@.skip(end + 1), c) =~= chars_views(before)
                + parts_of(rest, c));
        }
        at = end + 1;
    }
}

/// A byte in decimal: up to three digits, without padding.
pub open spec fn octet_of(s: Seq<char>) -> Option<u8> {
    if 1 <= s.len() <= 3 && all_digits(s) && (s.len() == 1 || s[0] != '0') && digits_number(s)
        <= 255 {
        Some(digits_number(s) as u8)
    } else {
        None
    }
}

fn read_octet(s: &Vec<char>) -> (r: Option<u8>)
    ensures
        r == octet_of(s@),
{
    if s.len() == 0 || s.len() > 3 || (s.len() > 1 && s[0] == '0') || s[0] == '+' {
        proof {
            if s.len() > 0 && s@[0] == '+' {
                assert(!all_digits(s@));
            }
        }
        return None;
    }
    match parse_number(s.as_slice(), 255) {
        Some(n) => Some(n as u8),
        None => None,
    }
}

/// The bytes of an address with four decimal parts.
pub open spec fn ipv4_bytes(s: Seq<char>) -> Option<Seq<u8>> {
    let p = parts_of(s, '.');
    if p.len() == 4 {
        match (octet_of(p[0]), octet_of(p[1]), octet_of(p[2]), octet_of(p[3])) {
            (Some(a), Some(b), Some(c), Some(d)) => Some(seq![a, b, c, d]),
            _ => None,
        }
    } else {
        None
    }
}

fn read_ipv4(s: &[char]) -> (r: Option<[u8; 4]>)
    ensures
        match ipv4_bytes(s@) {
            Some(b) => r matches Some(a) && a@ == b,
            None => r is None,
        },
{
    let p = split_parts(s, '.');
    assert(p.len() == chars_views(p@).len());
    if p.len() != 4 {
        return None;
    }
    match (read_octet(&p[0]), read_octet(&p[1]), read_octet(&p[2]), read_octet(&p[3])) {
        (Some(a), Some(b), Some(c), Some(d)) => {
            let r = [a, b, c, d];
            assert(r@ =~= seq![a, b, c, d]);
            Some(r)
        },
        _ => None,
    }
}

/// The number that hexadecimal digits write.
pub open spec fn hex_digits_number(s: Seq<char>) -> nat
    decreases s.len(),
{
    if s.len() == 0 {
        0
    } else {
        (hex_digits_number(s.drop_last()) * 16 + hex_value(s.last())->0) as nat
    }
}

/// True when every character is a hexadecimal digit.
pub open spec fn all_hex(s: Seq<char>) -> bool {
    forall|i: int| 0 <= i < s.len() ==> hex_value(#[trigger] s[i]) is Some
}

/// Two bytes in hexadecimal: up to four digits.
pub open spec fn group_bytes(s: Seq<char>) -> Option<Seq<u8>> {
    if 1 <= s.len() <= 4 && all_hex(s) {
        let n = hex_digits_number(s);
        Some(seq![(n / 256) as u8, (n % 256) as u8])
    } else {
        None
    }
}

fn digit_value(c: char) -> (r: Option<u16>)
    ensures
        match hex_value(c) {
            Some(n) => r matches Some(m) && m == n && n < 16,
            None => r is None,
        },
{
    if '0' <= c && c <= '9' {
        Some((c as u32 - 48) as u16)
    } else if 'a' <= c && c <= 'f' {
        Some((c as u32 - 87) as u16)
    } else if 'A' <= c && c <= 'F' {
        Some((c as u32 - 55) as u16)
    } else {
        None
    }
}

fn read_group(s: &Vec<char>) -> (r: Option<(u8, u8)>)
    ensures
        match group_bytes(s@) {
            Some(b) => r matches Some(p) && b == seq![p.0, p.1],
            None => r is None,
        },
{
    if s.len() == 0 || s.len() > 4 {
        return None;
    }
    let mut n: u32 = 0;
    let mut bound: u32 = 1;
    let mut i: usize = 0;
    assert(s@.take(0) =~= seq![]);
    while i < s.len()
        invariant
            i <= s.len() <= 4,
            n == hex_digits_number(s@.take(i as int)),
            n < bound,
            bound == (if i == 0 {
                1u32
            } else if i == 1 {
                16u32
            } else if i == 2 {
                256u32
            } else if i == 3 {
                4096u32
            } else {
                65536u32
            }),
            forall|j: int| 0 <= j < i ==> hex_value(#[trigger] s@[j]) is Some,
        decreases s.len() - i,
    {
        let d: u16 = match digit_value(s[i]) {
            Some(d) => d,
            None => {
                assert(!all_hex(s@));
                return None;
            },
        };
        proof {
            assert(s@.take(i + 1).drop_last() =~= s@.take(i as int));
            assert(s@.take(i + 1).last() == s@[i as int]);
        }
        n = n * 16 + d as u32;
        bound = bound * 16;
        i += 1;
    }
    assert(s@.take(i as int) =~= s@);
    Some(((n / 256) as u8, (n % 256) as u8))
}

/// The bytes of groups; the last one may be written as an address with four decimal parts.
pub open spec fn groups_bytes(p: Seq<Seq<char>>, mixed: bool) -> Option<Seq<u8>>
    decreases p.len(),
{
    if p.len() == 0 {
        Some(seq![])
    } else {
        match (group_bytes(p[0]), groups_bytes(p.drop_first(), mixed)) {
            (Some(a), Some(b)) => Some(a + b),
            _ => if mixed && p.len() == 1 {
                ipv4_bytes(p[0])
            } else {
                None
            },
        }
    }
}

fn read_groups(p: &Vec<Vec<char>>, mixed: bool) -> (r: Option<Vec<u8>>)
    ensures
        match groups_bytes(chars_views(p@), mixed) {
            Some(b) => r matches Some(v) && v@ == b,
            None => r is None,
        },
{
    let ghost all = chars_views(p@);
    let mut out: Vec<u8> = Vec::new();
    let mut i: usize = 0;
    proof {
        assert(all.skip(0) =~= all);
    }
    while i < p.len()
        invariant
            i <= p.len(),
            all == chars_views(p@),
            match groups_bytes(all.skip(i as int), mixed) {
                Some(b) => groups_bytes(all, mixed) == Some(out@ + b),
                None => groups_bytes(all, mixed) is None,
            },
        decreases p.len() - i,
    {
        let ghost rest = all.skip(i as int);
        proof {
            assert(rest[0] == p@[i as int]@);
            assert(rest.drop_first() =~= all.skip(i + 1));
        }
        match read_group(&p[i]) {
            Some((a, b)) => {
                let ghost before = out@;
                out.push(a);
                out.push(b);
                proof {
                    match groups_bytes(all.skip(i + 1), mixed) {
                        Some(t) => {
                            assert(before + (seq![a, b] + t) =~= out@ + t);
                        },
                        None => {
                            if mixed && rest.len() == 1 {
                                assert(all.skip(i + 1) =~= seq![]);
                            }
                        },
                    }
                }
            },
            None => {
                if mixed && i + 1 == p.len() {
                    return match read_ipv4(p[i].as_slice()) {
                        Some(a) => {
                            let ghost before = out@;
                            out.extend_from_slice(a.as_slice());
                            assert(out@ =~= before + a@);
                            Some(out)
                        },
                        None => None,
                    };
                }
                return None;
            },
        }
        i += 1;
    }
    proof {
        assert(all.skip(i as int) =~= seq![]);
        assert(out@ + Seq::<u8>::empty() =~= out@);
    }
    Some(out)
}

/// The bytes of a run of groups that may be empty.
pub open spec fn side_bytes(s: Seq<char>, mixed: bool) -> Option<Seq<u8>> {
    if s.len() == 0 {
        Some(seq![])
    } else {
        groups_bytes(parts_of(s, ':'), mixed)
    }
}

fn read_side(s: &[char], mixed: bool) -> (r: Option<Vec<u8>>)
    ensures
        match side_bytes(s@, mixed) {
            Some(b) => r matches Some(v) && v@ == b,
            None => r is None,
        },
{
    if s.len() == 0 {
        return Some(Vec::new());
    }
    read_groups(&split_parts(s, ':'), mixed)
}

/// Where two colons first stand; the length where they do not.
pub open spec fn gap_at(s: Seq<char>) -> int
    decreases s.len(),
{
    if s.len() < 2 {
        s.len() as int
    } else if s[0] == ':' && s[1] == ':' {
        0
    } else {
        1 + gap_at(s.drop_first())
    }
}

fn find_gap(s: &[char]) -> (r: usize)
    ensures
        r == gap_at(s@),
        r <= s.len(),
        r < s.len() ==> r + 2 <= s.len(),
{
    let mut i: usize = 0;
    assert(s@.skip(0) =~= s@);
    while s.len() - i >= 2 && !(s[i] == ':' && s[i + 1] == ':')
        invariant
            i <= s.len(),
            gap_at(s@) == i + gap_at(s@.skip(i as int)),
        decreases s.len() - i,
    {
        assert(s@.skip(i as int).drop_first() =~= s@.skip(i + 1));
        i += 1;
    }
    if s.len() - i >= 2 {
        i
    } else {
        s.len()
    }
}

/// The bytes of an address with hexadecimal groups: eight of them, or fewer around two colons
/// that stand for at least one group of zeros.
pub open spec fn ipv6_bytes(s: Seq<char>) -> Option<Seq<u8>> {
    let gap = gap_at(s);
    if gap >= s.len() {
        match side_bytes(s, true) {
            Some(b) => if b.len() == 16 {
                Some(b)
            } else {
                None
            },
            None => None,
        }
    } else {
        match (side_bytes(s.take(gap), false), side_bytes(s.skip(gap + 2), true)) {
            (Some(a), Some(b)) => if a.len() + b.len() <= 14 {
                Some(a + Seq::new((16 - a.len() - b.len()) as nat, |i: int| 0u8) + b)
            } else {
                None
            },
            _ => None,
        }
    }
}

fn read_ipv6(s: &[char]) -> (r: Option<[u8; 16]>)
    ensures
        match ipv6_bytes(s@) {
            Some(b) => r matches Some(a) && a@ == b,
            None => r is None,
        },
{
    let gap: usize = find_gap(s);
    if gap == s.len() {
        return match read_side(s, true) {
            Some(b) => if b.len() == 16 {
                assert(b@.take(16) =~= b@);
                Some(array_from::<16>(b.as_slice()))
            } else {
                None
            },
            None => None,
        };
    }
    let head = sub_chars(s, 0, gap);
    let tail = sub_chars(s, gap + 2, s.len());
    assert(head@ =~= s@.take(gap as int));
    assert(tail@ =~= s@.skip(gap + 2));
    match (read_side(head.as_slice(), false), read_side(tail.as_slice(), true)) {
        (Some(a), Some(b)) => {
            if a.len() > 14 || b.len() > 14 - a.len() {
                return None;
            }
            let mut all = a;
            let zeros: usize = 16 - all.len() - b.len();
            let ghost front = all@;
            let mut i: usize = 0;
            assert(all@ =~= front + Seq::new(0nat, |j: int| 0u8));
            while i < zeros
                invariant
                    i <= zeros,
                    all@ == front + Seq::new(i as nat, |j: int| 0u8),
                decreases zeros - i,
            {
                all.push(0);
                i += 1;
                assert(all@ =~= front + Seq::new(i as nat, |j: int| 0u8));
            }
            all.extend_from_slice(b.as_slice());
            assert(all@ =~= ipv6_bytes(s@)->0);
            assert(all@.take(16) =~= all@);
            Some(array_from::<16>(all.as_slice()))
        },
        _ => None,
    }
}

/// True when `ip` is the address that a text writes.
pub open spec fn writes_ip(s: Seq<char>, ip: Option<IpAddr>) -> bool {
    match ipv4_bytes(s) {
        Some(b) => ip matches Some(IpAddr::V4(a)) && a.0@ == b,
        None => match ipv6_bytes(s) {
            Some(b) => ip matches Some(IpAddr::V6(a)) && a.0@ == b,
            None => ip is None,
        },
    }
}

/// The address that a text writes.
pub fn parse_ip(s: &str) -> (r: Option<IpAddr>)
    ensures
        writes_ip(s@, r),
{
    let chars = to_chars(s);
    match read_ipv4(chars.as_slice()) {
        Some(a) => Some(IpAddr::V4(Ipv4Addr(a))),
        None => match read_ipv6(chars.as_slice()) {
            Some(a) => Some(IpAddr::V6(Ipv6Addr(a))),
            None => None,
        },
    }
}

/// A text without a separator is one part, and a part ends where the first separator stands: what
/// is behind it is taken apart in the same way.
pub proof fn where_parts_end(x: Seq<char>, c: char, rest: Seq<char>)
    requires
        forall|i: int| 0 <= i < x.len() ==> #[trigger] x[i] != c,
    ensures
        parts_of(x, c) == seq![x],
        parts_of(x + seq![c] + rest, c) == seq![x] + parts_of(rest, c),
{
    let s = x + seq![c] + rest;
    let n = x.len() as int;
    lemma_first_char(x, c, n);
    assert(s[n] == c);
    assert forall|j: int| 0 <= j < n implies s[j] != c by {
        assert(s[j] == x[j]);
    }
    lemma_first_char(s, c, n);
    assert(s.take(n) =~= x);
    assert(s.skip(n + 1) =~= rest);
}

proof fn lemma_written_octet(n: u8)
    ensures
        octet_of(decimal_number(n as nat)) == Some(n),
        forall|i: int|
            0 <= i < decimal_number(n as nat).len() ==> #[trigger] decimal_number(n as nat)[i]
                != '.',
{
    reveal_with_fuel(decimal_number, 3);
    let s = decimal_number(n as nat);
    decimal_numbers_read_back(n as nat, 255);
    assert('0' <= s[0] <= '9');
    if n >= 10 {
        let front = decimal_number(n as nat / 10);
        assert(s[0] == front[0]);
        if n >= 100 {
            assert(front[0] == decimal_number(n as nat / 10 / 10)[0]);
        }
    }
    assert forall|i: int| 0 <= i < s.len() implies #[trigger] s[i] != '.' by {
        assert('0' <= s[i] <= '9');
    }
}

/// Four bytes that are written in decimal with dots between them are read as the address that they
/// are, whichever they are.
pub proof fn written_addresses_are_read(a: u8, b: u8, c: u8, d: u8, ip: Option<IpAddr>)
    requires
        writes_ip(
            decimal_number(a as nat) + seq!['.'] + (decimal_number(b as nat) + seq!['.'] + (
            decimal_number(c as nat) + seq!['.'] + decimal_number(d as nat))),
            ip,
        ),
    ensures
        ip matches Some(IpAddr::V4(v)) && v.0@ == seq![a, b, c, d],
{
    let (p, q) = (decimal_number(a as nat), decimal_number(b as nat));
    let (r, t) = (decimal_number(c as nat), decimal_number(d as nat));
    lemma_written_octet(a);
    lemma_written_octet(b);
    lemma_written_octet(c);
    lemma_written_octet(d);
    where_parts_end(t, '.', seq![]);
    where_parts_end(r, '.', t);
    where_parts_end(q, '.', r + seq!['.'] + t);
    where_parts_end(p, '.', q + seq!['.'] + (r + seq!['.'] + t));
    let all = parts_of(p + seq!['.'] + (q + seq!['.'] + (r + seq!['.'] + t)), '.');
    assert(all =~= seq![p, q, r, t]);
}

/// A group of four hexadecimal digits is two bytes, the higher digit of each before the lower one,
/// and zeros in front of fewer digits change nothing.
pub proof fn what_a_group_says(s: Seq<char>)
    requires
        all_hex(s),
    ensures
        s.len() == 4 ==> group_bytes(s) == Some(
            seq![
                (16 * hex_value(s[0])->0 + hex_value(s[1])->0) as u8,
                (16 * hex_value(s[2])->0 + hex_value(s[3])->0) as u8,
            ],
        ),
        1 <= s.len() < 4 ==> group_bytes(seq!['0'] + s) == group_bytes(s),
        s.len() == 0 || s.len() > 4 ==> group_bytes(s) is None,
{
    reveal_with_fuel(hex_digits_number, 6);
    if s.len() == 4 {
        let (a, b) = (hex_value(s[0])->0, hex_value(s[1])->0);
        let (c, d) = (hex_value(s[2])->0, hex_value(s[3])->0);
        assert(s.drop_last().drop_last().drop_last().drop_last().len() == 0);
        assert(hex_digits_number(s) == 4096 * a + 256 * b + 16 * c + d);
        assert(a < 16 && b < 16 && c < 16 && d < 16);
    }
    if 1 <= s.len() < 4 {
        let z = seq!['0'] + s;
        assert(hex_value('0') == Some(0int));
        assert forall|i: int| 0 <= i < z.len() implies hex_value(#[trigger] z[i]) is Some by {
            if i > 0 {
                assert(z[i] == s[i - 1]);
            }
        }
        lemma_leading_zero(s);
    }
}

proof fn lemma_leading_zero(s: Seq<char>)
    ensures
        hex_digits_number(seq!['0'] + s) == hex_digits_number(s),
    decreases s.len(),
{
    let z = seq!['0'] + s;
    if s.len() == 0 {
        assert(z.drop_last() =~= s);
        assert(z.last() == '0');
        assert(hex_digits_number(z.drop_last()) == 0);
    } else {
        assert(z.drop_last() =~= seq!['0'] + s.drop_last());
        lemma_leading_zero(s.drop_last());
    }
}

/// The bytes of groups stand in the order of the groups, two for each; only the last one may stand
/// for four bytes, and only where that is allowed.
pub proof fn groups_stand_in_order(first: Seq<Seq<char>>, more: Seq<Seq<char>>, mixed: bool)
    requires
        forall|i: int| 0 <= i < first.len() ==> #[trigger] group_bytes(first[i]) is Some,
        groups_bytes(more, mixed) is Some,
    ensures
        ({
            let all = groups_bytes(first + more, mixed);
            &&& all is Some
            &&& all->0.len() == 2 * first.len() + groups_bytes(more, mixed)->0.len()
            &&& all->0.skip(2 * first.len() as int) == groups_bytes(more, mixed)->0
            &&& forall|i: int|
                0 <= i < first.len() ==> all->0.subrange(2 * i, 2 * i + 2) == (
                #[trigger] group_bytes(first[i]))->0
        }),
    decreases first.len(),
{
    let p = first + more;
    if first.len() == 0 {
        assert(p =~= more);
        let b = groups_bytes(more, mixed)->0;
        assert(b.skip(0) =~= b);
    } else {
        let rest = first.drop_first();
        assert forall|i: int| 0 <= i < rest.len() implies #[trigger] group_bytes(
            rest[i],
        ) is Some by {
            assert(rest[i] == first[i + 1]);
        }
        groups_stand_in_order(rest, more, mixed);
        assert(p.drop_first() =~= rest + more);
        assert(p[0] == first[0]);
        let head = group_bytes(first[0])->0;
        let tail = groups_bytes(rest + more, mixed)->0;
        let all = groups_bytes(p, mixed)->0;
        assert(all == head + tail);
        assert(head.len() == 2);
        assert(all.skip(2 * first.len() as int) =~= tail.skip(2 * rest.len() as int));
        assert forall|i: int| 0 <= i < first.len() implies all.subrange(2 * i, 2 * i + 2) == (
        #[trigger] group_bytes(first[i]))->0 by {
            if i == 0 {
                assert(all.subrange(0, 2) =~= head);
            } else {
                assert(rest[i - 1] == first[i]);
                assert(group_bytes(rest[i - 1]) is Some);
                assert(tail.subrange(2 * (i - 1), 2 * (i - 1) + 2) == group_bytes(rest[i - 1])->0);
                assert(all.subrange(2 * i, 2 * i + 2) =~= tail.subrange(
                    2 * (i - 1),
                    2 * (i - 1) + 2,
                ));
            }
        }
    }
}

proof fn lemma_gap(left: Seq<char>, right: Seq<char>)
    requires
        forall|i: int| 0 <= i < left.len() - 1 && #[trigger] left[i] == ':' ==> left[i + 1] != ':',
        left.len() > 0 ==> left.last() != ':',
    ensures
        gap_at(left + seq![':', ':'] + right) == left.len(),
    decreases left.len(),
{
    let s = left + seq![':', ':'] + right;
    if left.len() == 0 {
        assert(s[0] == ':' && s[1] == ':');
    } else {
        let rest = left.drop_first();
        assert(s.drop_first() =~= rest + seq![':', ':'] + right);
        assert forall|i: int| 0 <= i < rest.len() - 1 && #[trigger] rest[i] == ':' implies rest[i
            + 1] != ':' by {
            assert(rest[i] == left[i + 1]);
        }
        lemma_gap(rest, right);
        assert(s[0] == left[0]);
        if left.len() > 1 {
            assert(s[1] == left[1]);
        }
    }
}

/// Two colons stand for as many zeros as are missing: what is written in front of them is at the
/// front of the address, and what is written behind them at its end.
pub proof fn two_colons_stand_for_zeros(left: Seq<char>, right: Seq<char>)
    requires
        forall|i: int| 0 <= i < left.len() - 1 && #[trigger] left[i] == ':' ==> left[i + 1] != ':',
        left.len() > 0 ==> left.last() != ':',
        side_bytes(left, false) is Some,
        side_bytes(right, true) is Some,
    ensures
        ({
            let (a, b) = (side_bytes(left, false)->0, side_bytes(right, true)->0);
            let read = ipv6_bytes(left + seq![':', ':'] + right);
            &&& read is Some <==> a.len() + b.len() <= 14
            &&& read matches Some(r) ==> {
                &&& r.len() == 16
                &&& r.take(a.len() as int) == a
                &&& r.skip(16 - b.len()) == b
                &&& forall|i: int| a.len() <= i < 16 - b.len() ==> #[trigger] r[i] == 0
            }
        }),
{
    let s = left + seq![':', ':'] + right;
    lemma_gap(left, right);
    assert(s.take(left.len() as int) =~= left);
    assert(s.skip(left.len() as int + 2) =~= right);
    let (a, b) = (side_bytes(left, false)->0, side_bytes(right, true)->0);
    if let Some(r) = ipv6_bytes(s) {
        assert(r.take(a.len() as int) =~= a);
        assert(r.skip(16 - b.len()) =~= b);
    }
}

} // verus!
