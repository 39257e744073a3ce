//! Bencode: the self-delimiting encoding of torrents, KRPC datagrams and
//! extension messages.

use vstd::prelude::*;

use crate::order::{
    bytes_less, lemma_slot, lex_less, slot, sorted, sorting_is_a_permutation, sorting_keeps_order,
};
use crate::sums::{total, total_of_insert};
use crate::text::{read_text, text_of};

pub mod entries;

verus! {

/// Why an input is not bencode that the reader accepts.
#[derive(Clone, Copy, Debug, PartialEq, Eq, Structural)]
pub enum Error {
    /// The input ends inside a value.
    Truncated,
    /// An integer that is empty, padded with zeros, negative zero or out of range.
    InvalidInteger,
    /// A string length that is padded with zeros or has no colon behind it.
    InvalidLength,
    /// A byte that starts no value.
    InvalidToken,
    /// A dictionary key that is not a byte string.
    KeyNotBytes,
    /// Bytes behind the value.
    TrailingData,
    /// More input than the limits allow.
    TooLarge,
    /// Lists and dictionaries nested deeper than the limits allow.
    TooDeep,
    /// More values than the limits allow.
    TooManyItems,
}

/// A decoded value; the entries of a dictionary keep the order of the input.
#[derive(Debug, PartialEq, Eq)]
pub enum Value {
    Int(i64),
    Bytes(Vec<u8>),
    List(Vec<Value>),
    Dict(Vec<(Vec<u8>, Value)>),
}

/// How much of an untrusted input a reader is willing to build.
#[derive(Clone, Copy, Debug, PartialEq, Eq, Structural)]
pub struct DecodeLimits {
    pub max_bytes: usize,
    pub max_depth: usize,
    pub max_items: usize,
}

/// The mathematical value of a bencoded item.
pub enum Bencode {
    Int(int),
    Bytes(Seq<u8>),
    List(Seq<Bencode>),
    Dict(Seq<(Seq<u8>, Bencode)>),
}

/// The mathematical value of a [`Value`].
pub open spec fn model(v: Value) -> Bencode
    decreases v,
{
    match v {
        Value::Int(i) => Bencode::Int(i as int),
        Value::Bytes(b) => Bencode::Bytes(b@),
        Value::List(l) => Bencode::List(model_list(l@)),
        Value::Dict(d) => Bencode::Dict(model_entries(d@)),
    }
}

/// The mathematical values of the items of a list.
pub open spec fn model_list(s: Seq<Value>) -> Seq<Bencode>
    decreases s,
{
    if s.len() == 0 {
        seq![]
    } else {
        model_list(s.drop_last()).push(model(s.last()))
    }
}

/// The mathematical values of the entries of a dictionary.
pub open spec fn model_entries(s: Seq<(Vec<u8>, Value)>) -> Seq<(Seq<u8>, Bencode)>
    decreases s,
{
    if s.len() == 0 {
        seq![]
    } else {
        model_entries(s.drop_last()).push((s.last().0@, model(s.last().1)))
    }
}

impl View for Value {
    type V = Bencode;

    open spec fn view(&self) -> Bencode {
        model(*self)
    }
}

/// True of the ASCII digits.
pub open spec fn is_digit(b: u8) -> bool {
    48 <= b <= 57
}

/// The number that a run of ASCII digits writes.
pub open spec fn digits_value(s: Seq<u8>) -> nat
    decreases s.len(),
{
    if s.len() == 0 {
        0
    } else {
        (digits_value(s.drop_last()) * 10 + (s.last() - 48)) as nat
    }
}

/// The ASCII digits of a number, without padding.
pub open spec fn decimal(n: nat) -> Seq<u8>
    decreases n,
{
    if n < 10 {
        seq![(48 + n) as u8]
    } else {
        decimal(n / 10).push((48 + n % 10) as u8)
    }
}

/// The digits of an integer, behind a minus sign where it is negative.
pub open spec fn signed_decimal(i: int) -> Seq<u8> {
    if i < 0 {
        seq![45u8] + decimal((-i) as nat)
    } else {
        decimal(i as nat)
    }
}

/// Where the run of digits that starts at `pos` ends.
pub open spec fn run_end(b: Seq<u8>, pos: int) -> int
    decreases b.len() - pos,
{
    if 0 <= pos < b.len() && is_digit(b[pos]) {
        run_end(b, pos + 1)
    } else {
        pos
    }
}

/// The unpadded number at `pos` with `stop` behind it, and the position behind that.
pub open spec fn scan_number(b: Seq<u8>, pos: int, stop: u8, bad: Error) -> Result<
    (nat, int),
    Error,
> {
    let end = run_end(b, pos);
    if end >= b.len() {
        Err(Error::Truncated)
    } else if b[end] != stop || end == pos || (b[pos] == 48 && end - pos > 1) {
        Err(bad)
    } else {
        Ok((digits_value(b.subrange(pos, end)), end + 1))
    }
}

/// The integer whose `i` stands at `pos`.
pub open spec fn parse_int(b: Seq<u8>, pos: int) -> Result<(int, int), Error> {
    let negative = pos + 1 < b.len() && b[pos + 1] == 45;
    match scan_number(b, if negative { pos + 2 } else { pos + 1 }, 101, Error::InvalidInteger) {
        Err(e) => Err(e),
        Ok((n, next)) => if negative && n == 0 {
            Err(Error::InvalidInteger)
        } else if (if negative { -(n as int) } else { n as int }) < i64::MIN || (if negative {
            -(n as int)
        } else {
            n as int
        }) > i64::MAX {
            Err(Error::InvalidInteger)
        } else {
            Ok((if negative { -(n as int) } else { n as int }, next))
        },
    }
}

/// The byte string whose length starts at `pos`.
pub open spec fn parse_bytes(b: Seq<u8>, pos: int) -> Result<(Seq<u8>, int), Error> {
    match scan_number(b, pos, 58, Error::InvalidLength) {
        Err(e) => Err(e),
        Ok((n, start)) => if start + n > b.len() {
            Err(Error::Truncated)
        } else {
            Ok((b.subrange(start, start + n), start + n))
        },
    }
}

/// One entry of a dictionary, with the span of its value.
pub struct Entry {
    pub key: Seq<u8>,
    pub value: Bencode,
    pub start: int,
    pub end: int,
}

/// The key and value of each entry.
pub open spec fn without_spans(s: Seq<Entry>) -> Seq<(Seq<u8>, Bencode)> {
    Seq::new(s.len(), |i: int| (s[i].key, s[i].value))
}

/// The value at `pos`, the position behind it and the number of values still allowed.
pub open spec fn parse_value(b: Seq<u8>, pos: int, depth: nat, items: nat) -> Result<
    (Bencode, int, nat),
    Error,
>
    decreases depth, b.len() - pos, 0int,
{
    if items == 0 {
        Err(Error::TooManyItems)
    } else if pos < 0 || pos >= b.len() {
        Err(Error::Truncated)
    } else if b[pos] == 105 {
        match parse_int(b, pos) {
            Err(e) => Err(e),
            Ok((i, next)) => Ok((Bencode::Int(i), next, (items - 1) as nat)),
        }
    } else if is_digit(b[pos]) {
        match parse_bytes(b, pos) {
            Err(e) => Err(e),
            Ok((s, next)) => Ok((Bencode::Bytes(s), next, (items - 1) as nat)),
        }
    } else if b[pos] == 108 {
        if depth == 0 {
            Err(Error::TooDeep)
        } else {
            match parse_list(b, pos + 1, (depth - 1) as nat, (items - 1) as nat) {
                Err(e) => Err(e),
                Ok((l, next, left)) => Ok((Bencode::List(l), next, left)),
            }
        }
    } else if b[pos] == 100 {
        if depth == 0 {
            Err(Error::TooDeep)
        } else {
            match parse_entries(b, pos + 1, (depth - 1) as nat, (items - 1) as nat) {
                Err(e) => Err(e),
                Ok((d, next, left)) => Ok((Bencode::Dict(without_spans(d)), next, left)),
            }
        }
    } else {
        Err(Error::InvalidToken)
    }
}

/// The items from `pos` up to the `e` that closes their list.
pub open spec fn parse_list(b: Seq<u8>, pos: int, depth: nat, items: nat) -> Result<
    (Seq<Bencode>, int, nat),
    Error,
>
    decreases depth, b.len() - pos, 1int,
{
    if pos < 0 || pos >= b.len() {
        Err(Error::Truncated)
    } else if b[pos] == 101 {
        Ok((seq![], pos + 1, items))
    } else {
        match parse_value(b, pos, depth, items) {
            Err(e) => Err(e),
            Ok((v, next, left)) => if next <= pos || next > b.len() {
                Err(Error::Truncated)
            } else {
                match parse_list(b, next, depth, left) {
                    Err(e) => Err(e),
                    Ok((rest, end, left2)) => Ok((seq![v] + rest, end, left2)),
                }
            },
        }
    }
}

/// The entries from `pos` up to the `e` that closes their dictionary.
pub open spec fn parse_entries(b: Seq<u8>, pos: int, depth: nat, items: nat) -> Result<
    (Seq<Entry>, int, nat),
    Error,
>
    decreases depth, b.len() - pos, 1int,
{
    if pos < 0 || pos >= b.len() {
        Err(Error::Truncated)
    } else if b[pos] == 101 {
        Ok((seq![], pos + 1, items))
    } else if !is_digit(b[pos]) {
        Err(Error::KeyNotBytes)
    } else {
        match parse_bytes(b, pos) {
            Err(e) => Err(e),
            Ok((key, start)) => if start <= pos || start > b.len() {
                Err(Error::Truncated)
            } else {
                match parse_value(b, start, depth, items) {
                    Err(e) => Err(e),
                    Ok((value, next, left)) => if next <= start || next > b.len() {
                        Err(Error::Truncated)
                    } else {
                        match parse_entries(b, next, depth, left) {
                            Err(e) => Err(e),
                            Ok((rest, end, left2)) => Ok(
                                (
                                    seq![Entry { key, value, start, end: next }] + rest,
                                    end,
                                    left2,
                                ),
                            ),
                        }
                    },
                }
            },
        }
    }
}

fn scan_number_at(b: &[u8], pos: usize, stop: u8, bad: Error) -> (r: Result<
    (Option<u64>, usize),
    Error,
>)
    requires
        pos <= b.len(),
    ensures
        match scan_number(b@, pos as int, stop, bad) {
            Err(e) => r == Err::<(Option<u64>, usize), Error>(e),
            Ok((n, next)) => match r {
                Err(_) => false,
                Ok((m, end)) => end == next && pos < end <= b.len() && match m {
                    Some(m) => m == n,
                    None => n > u64::MAX,
                },
            },
        },
{
    let mut end: usize = pos;
    let mut value: Option<u64> = Some(0);
    while end < b.len() && 48 <= b[end] && b[end] <= 57
        invariant
            pos <= end <= b.len(),
            run_end(b@, pos as int) == run_end(b@, end as int),
            match value {
                Some(m) => m == digits_value(b@.subrange(pos as int, end as int)),
                None => digits_value(b@.subrange(pos as int, end as int)) > u64::MAX,
            },
        decreases b.len() - end,
    {
        let digit: u64 = (b[end] - 48) as u64;
        proof {
            let s = b@.subrange(pos as int, end + 1);
            assert(s.drop_last() =~= b@.subrange(pos as int, end as int));
            assert(s.last() == b@[end as int]);
        }
        value =
        match value {
            Some(m) => if m <= 1844674407370955160 {
                (m * 10).checked_add(digit)
            } else if m == 1844674407370955161 && digit <= 5 {
                Some(m * 10 + digit)
            } else {
                None
            },
            None => None,
        };
        end += 1;
    }
    if end >= b.len() {
        Err(Error::Truncated)
    } else if b[end] != stop || end == pos || (b[pos] == 48 && end - pos > 1) {
        Err(bad)
    } else {
        Ok((value, end + 1))
    }
}

fn decode_int(b: &[u8], pos: usize) -> (r: Result<(i64, usize), Error>)
    requires
        pos < b.len(),
    ensures
        match parse_int(b@, pos as int) {
            Err(e) => r == Err::<(i64, usize), Error>(e),
            Ok((i, next)) => r matches Ok((j, n)) && i == j && n == next && pos < n <= b.len(),
        },
{
    let negative = pos + 1 < b.len() && b[pos + 1] == 45;
    let from: usize = if negative {
        pos + 2
    } else {
        pos + 1
    };
    match scan_number_at(b, from, 101, Error::InvalidInteger) {
        Err(e) => Err(e),
        Ok((n, next)) => match n {
            None => Err(Error::InvalidInteger),
            Some(n) => if negative {
                if n == 0 || n > 9223372036854775808 {
                    Err(Error::InvalidInteger)
                } else if n == 9223372036854775808 {
                    Ok((i64::MIN, next))
                } else {
                    Ok((-(n as i64), next))
                }
            } else if n > 9223372036854775807 {
                Err(Error::InvalidInteger)
            } else {
                Ok((n as i64, next))
            },
        },
    }
}

fn decode_bytes(b: &[u8], pos: usize) -> (r: Result<(Vec<u8>, usize), Error>)
    requires
        pos < b.len(),
    ensures
        match parse_bytes(b@, pos as int) {
            Err(e) => r == Err::<(Vec<u8>, usize), Error>(e),
            Ok((s, next)) => r matches Ok((t, n)) && t@ == s && n == next && pos < n <= b.len(),
        },
{
    match scan_number_at(b, pos, 58, Error::InvalidLength) {
        Err(e) => Err(e),
        Ok((n, start)) => match n {
            None => Err(Error::Truncated),
            Some(n) => if n > (b.len() - start) as u64 {
                Err(Error::Truncated)
            } else {
                let end: usize = start + n as usize;
                Ok((copy_range(b, start, end), end))
            },
        },
    }
}

/// The bytes from `start` up to `end`.
pub fn copy_range(b: &[u8], start: usize, end: usize) -> (r: Vec<u8>)
    requires
        start <= end <= b.len(),
    ensures
        r@ == b@.subrange(start as int, end as int),
{
    let mut out: Vec<u8> = Vec::new();
    out.extend_from_slice(&b[start..end]);
    proof {
        assert(out@ =~= b@.subrange(start as int, end as int));
    }
    out
}

fn decode_value(b: &[u8], pos: usize, depth: usize, items: usize) -> (r: Result<
    (Value, usize, usize),
    Error,
>)
    requires
        pos <= b.len(),
    ensures
        match parse_value(b@, pos as int, depth as nat, items as nat) {
            Err(e) => r == Err::<(Value, usize, usize), Error>(e),
            Ok((v, next, left)) => r matches Ok((w, n, l)) && w@ == v && n == next && l == left
                && pos < n <= b.len(),
        },
    decreases depth, b.len() - pos, 0int,
{
    if items == 0 {
        Err(Error::TooManyItems)
    } else if pos >= b.len() {
        Err(Error::Truncated)
    } else if b[pos] == 105 {
        match decode_int(b, pos) {
            Err(e) => Err(e),
            Ok((i, next)) => Ok((Value::Int(i), next, items - 1)),
        }
    } else if 48 <= b[pos] && b[pos] <= 57 {
        match decode_bytes(b, pos) {
            Err(e) => Err(e),
            Ok((s, next)) => Ok((Value::Bytes(s), next, items - 1)),
        }
    } else if b[pos] == 108 {
        if depth == 0 {
            Err(Error::TooDeep)
        } else {
            match decode_list(b, pos + 1, depth - 1, items - 1) {
                Err(e) => Err(e),
                Ok((l, next, left)) => Ok((Value::List(l), next, left)),
            }
        }
    } else if b[pos] == 100 {
        if depth == 0 {
            Err(Error::TooDeep)
        } else {
            match decode_entries(b, pos + 1, depth - 1, items - 1) {
                Err(e) => Err(e),
                Ok((d, spans, next, left)) => Ok((Value::Dict(d), next, left)),
            }
        }
    } else {
        Err(Error::InvalidToken)
    }
}

spec fn behind<T>(done: Seq<T>, r: Result<(Seq<T>, int, nat), Error>) -> Result<
    (Seq<T>, int, nat),
    Error,
> {
    match r {
        Err(e) => Err(e),
        Ok((rest, end, left)) => Ok((done + rest, end, left)),
    }
}

fn decode_list(b: &[u8], pos: usize, depth: usize, items: usize) -> (r: Result<
    (Vec<Value>, usize, usize),
    Error,
>)
    requires
        pos <= b.len(),
    ensures
        match parse_list(b@, pos as int, depth as nat, items as nat) {
            Err(e) => r == Err::<(Vec<Value>, usize, usize), Error>(e),
            Ok((s, next, left)) => r matches Ok((t, n, l)) && model_list(t@) == s && n == next
                && l == left && pos < n <= b.len(),
        },
    decreases depth, b.len() - pos, 1int,
{
    let mut out: Vec<Value> = Vec::new();
    let mut at: usize = pos;
    let mut left: usize = items;
    let ghost whole = parse_list(b@, pos as int, depth as nat, items as nat);
    proof {
        match whole {
            Ok((rest, _, _)) => assert(model_list(out@) + rest =~= rest),
            Err(_) => {},
        }
    }
    while at < b.len() && b[at] != 101
        invariant
            pos <= at <= b.len(),
            whole == parse_list(b@, pos as int, depth as nat, items as nat),
            whole == behind(
                model_list(out@),
                parse_list(b@, at as int, depth as nat, left as nat),
            ),
        decreases b.len() - at,
    {
        match decode_value(b, at, depth, left) {
            Err(e) => {
                return Err(e);
            },
            Ok((v, next, l)) => {
                let ghost before = out@;
                out.push(v);
                proof {
                    assert(out@.drop_last() =~= before);
                    match parse_list(b@, next as int, depth as nat, l as nat) {
                        Ok((rest, _, _)) => assert(model_list(before) + (seq![v@] + rest)
                            =~= model_list(out@) + rest),
                        Err(_) => {},
                    }
                }
                at = next;
                left = l;
            },
        }
    }
    if at >= b.len() {
        return Err(Error::Truncated);
    }
    proof {
        assert(model_list(out@) + Seq::<Bencode>::empty() =~= model_list(out@));
    }
    Ok((out, at + 1, left))
}

/// True when the spans are those of the entries.
pub open spec fn spans_of(entries: Seq<Entry>, spans: Seq<(usize, usize)>) -> bool {
    &&& spans.len() == entries.len()
    &&& forall|i: int|
        0 <= i < spans.len() ==> (#[trigger] spans[i]).0 == entries[i].start && spans[i].1
            == entries[i].end
}

fn decode_entries(b: &[u8], pos: usize, depth: usize, items: usize) -> (r: Result<
    (Vec<(Vec<u8>, Value)>, Vec<(usize, usize)>, usize, usize),
    Error,
>)
    requires
        pos <= b.len(),
    ensures
        match parse_entries(b@, pos as int, depth as nat, items as nat) {
            Err(e) => r matches Err(f) && f == e,
            Ok((s, next, left)) => r matches Ok((t, spans, n, l)) && model_entries(t@)
                == without_spans(s) && spans_of(s, spans@) && n == next && l == left && pos < n
                <= b.len() && forall|i: int|
                0 <= i < s.len() ==> 0 <= (#[trigger] s[i]).start <= s[i].end <= b.len(),
        },
    decreases depth, b.len() - pos, 1int,
{
    let mut out: Vec<(Vec<u8>, Value)> = Vec::new();
    let mut spans: Vec<(usize, usize)> = Vec::new();
    let mut at: usize = pos;
    let mut left: usize = items;
    let ghost mut done: Seq<Entry> = seq![];
    let ghost whole = parse_entries(b@, pos as int, depth as nat, items as nat);
    proof {
        match whole {
            Ok((rest, _, _)) => assert(done + rest =~= rest),
            Err(_) => {},
        }
        assert(without_spans(done) =~= model_entries(out@));
    }
    while at < b.len() && b[at] != 101
        invariant
            pos <= at <= b.len(),
            whole == parse_entries(b@, pos as int, depth as nat, items as nat),
            whole == behind(done, parse_entries(b@, at as int, depth as nat, left as nat)),
            model_entries(out@) == without_spans(done),
            spans_of(done, spans@),
            forall|i: int|
                0 <= i < done.len() ==> 0 <= (#[trigger] done[i]).start <= done[i].end <= b.len(),
        decreases b.len() - at,
    {
        if b[at] < 48 || b[at] > 57 {
            return Err(Error::KeyNotBytes);
        }
        match decode_bytes(b, at) {
            Err(e) => {
                return Err(e);
            },
            Ok((key, start)) => match decode_value(b, start, depth, left) {
                Err(e) => {
                    return Err(e);
                },
                Ok((v, next, l)) => {
                    let ghost before = out@;
                    let ghost old_done = done;
                    let ghost entry = Entry {
                        key: key@,
                        value: v@,
                        start: start as int,
                        end: next as int,
                    };
                    out.push((key, v));
                    spans.push((start, next));
                    proof {
                        done = done.push(entry);
                        assert(out@.drop_last() =~= before);
                        assert(without_spans(done) =~= without_spans(old_done).push(
                            (entry.key, entry.value),
                        ));
                        match parse_entries(b@, next as int, depth as nat, l as nat) {
                            Ok((rest, _, _)) => assert(old_done + (seq![entry] + rest) =~= done
                                + rest),
                            Err(_) => {},
                        }
                    }
                    at = next;
                    left = l;
                },
            },
        }
    }
    if at >= b.len() {
        return Err(Error::Truncated);
    }
    proof {
        assert(done + Seq::<Entry>::empty() =~= done);
    }
    Ok((out, spans, at + 1, left))
}

/// A value together with the part of the input that it takes.
#[derive(Debug)]
pub struct Parsed {
    pub value: Value,
    pub end: usize,
}

impl DecodeLimits {
    pub fn new(max_bytes: usize, max_depth: usize, max_items: usize) -> (r: Self)
        ensures
            r == (DecodeLimits { max_bytes, max_depth, max_items }),
    {
        DecodeLimits { max_bytes, max_depth, max_items }
    }
}

/// The value at the start of `b` under the limits, and where it ends.
pub open spec fn parse_prefix(b: Seq<u8>, limits: DecodeLimits) -> Result<(Bencode, int), Error> {
    if b.len() > limits.max_bytes {
        Err(Error::TooLarge)
    } else {
        match parse_value(b, 0, limits.max_depth as nat, limits.max_items as nat) {
            Err(e) => Err(e),
            Ok((v, end, _)) => Ok((v, end)),
        }
    }
}

/// The value that the whole of `b` is, under the limits.
pub open spec fn parse_all(b: Seq<u8>, limits: DecodeLimits) -> Result<Bencode, Error> {
    match parse_prefix(b, limits) {
        Err(e) => Err(e),
        Ok((v, end)) => if end == b.len() {
            Ok(v)
        } else {
            Err(Error::TrailingData)
        },
    }
}

/// The limits for input from a source that is trusted with the memory of the process.
pub open spec fn local_limits() -> DecodeLimits {
    DecodeLimits { max_bytes: usize::MAX, max_depth: 256, max_items: usize::MAX }
}

/// Read the value at the start of `b`; bytes behind it are left alone.
pub fn decode_external(b: &[u8], limits: DecodeLimits) -> (r: Result<Parsed, Error>)
    ensures
        match parse_prefix(b@, limits) {
            Err(e) => r == Err::<Parsed, Error>(e),
            Ok((v, end)) => r matches Ok(p) && p.value@ == v && p.end == end && end <= b.len(),
        },
{
    if b.len() > limits.max_bytes {
        return Err(Error::TooLarge);
    }
    match decode_value(b, 0, limits.max_depth, limits.max_items) {
        Err(e) => Err(e),
        Ok((value, end, left)) => Ok(Parsed { value, end }),
    }
}

/// Read `b` as one value, under the limits.
pub fn decode_all_external(b: &[u8], limits: DecodeLimits) -> (r: Result<Value, Error>)
    ensures
        match parse_all(b@, limits) {
            Err(e) => r == Err::<Value, Error>(e),
            Ok(v) => r matches Ok(w) && w@ == v,
        },
{
    match decode_external(b, limits) {
        Err(e) => Err(e),
        Ok(p) => if p.end == b.len() {
            Ok(p.value)
        } else {
            Err(Error::TrailingData)
        },
    }
}

/// Read `b` as one value.
pub fn decode_all(b: &[u8]) -> (r: Result<Value, Error>)
    ensures
        match parse_all(b@, local_limits()) {
            Err(e) => r == Err::<Value, Error>(e),
            Ok(v) => r matches Ok(w) && w@ == v,
        },
{
    decode_all_external(b, DecodeLimits::new(usize::MAX, 256, usize::MAX))
}

/// Where `key` first occurs among the entries; their number where it does not.
pub open spec fn first_with_key<T>(entries: Seq<(Seq<u8>, T)>, key: Seq<u8>) -> int
    decreases entries.len(),
{
    if entries.len() == 0 {
        0
    } else if entries[0].0 == key {
        0
    } else {
        1 + first_with_key(entries.drop_first(), key)
    }
}

/// The value of the first entry under `key`.
pub open spec fn lookup<T>(entries: Seq<(Seq<u8>, T)>, key: Seq<u8>) -> Option<T> {
    let i = first_with_key(entries, key);
    if i < entries.len() {
        Some(entries[i].1)
    } else {
        None
    }
}

/// The span of the value of the first entry under `key`, of the dictionary that `b` starts with.
pub open spec fn raw_field(b: Seq<u8>, key: Seq<u8>, limits: DecodeLimits) -> Result<
    Option<Seq<u8>>,
    Error,
> {
    if b.len() == 0 {
        Err(Error::Truncated)
    } else if b[0] != 100 {
        Err(Error::InvalidToken)
    } else {
        match parse_entries(
            b,
            1,
            (limits.max_depth - 1) as nat,
            (limits.max_items - 1) as nat,
        ) {
            Err(e) => Err(e),
            Ok((entries, _, _)) => Ok(
                match lookup(
                    Seq::new(
                        entries.len(),
                        |i: int| (entries[i].key, b.subrange(entries[i].start, entries[i].end)),
                    ),
                    key,
                ) {
                    Some(raw) => Some(raw),
                    None => None,
                },
            ),
        }
    }
}

/// The first index that holds `key` is the one that [`first_with_key`] names.
pub proof fn lemma_first_with_key<T>(entries: Seq<(Seq<u8>, T)>, key: Seq<u8>, i: int)
    requires
        0 <= i <= entries.len(),
        forall|j: int| 0 <= j < i ==> (#[trigger] entries[j]).0 != key,
        i < entries.len() ==> entries[i].0 == key,
    ensures
        first_with_key(entries, key) == i,
    decreases entries.len(),
{
    if entries.len() > 0 && i > 0 {
        let rest = entries.drop_first();
        assert forall|j: int| 0 <= j < i - 1 implies (#[trigger] rest[j]).0 != key by {
            assert(rest[j] == entries[j + 1]);
        }
        lemma_first_with_key(rest, key, i - 1);
    }
}

/// True when the two byte strings are the same.
pub fn same_bytes(a: &[u8], b: &[u8]) -> (r: bool)
    ensures
        r == (a@ == b@),
{
    if a.len() != b.len() {
        return false;
    }
    let mut i: usize = 0;
    while i < a.len()
        invariant
            i <= a.len(),
            a.len() == b.len(),
            a@.take(i as int) =~= b@.take(i as int),
        decreases a.len() - i,
    {
        if a[i] != b[i] {
            assert(a@[i as int] != b@[i as int]);
            return false;
        }
        assert(a@.take(i + 1) =~= a@.take(i as int).push(a@[i as int]));
        assert(b@.take(i + 1) =~= b@.take(i as int).push(b@[i as int]));
        i += 1;
    }
    assert(a@ =~= a@.take(i as int));
    assert(b@ =~= b@.take(i as int));
    true
}

/// The bytes of the value under `key` in the dictionary that `b` starts with, as they stand in
/// the input.
pub fn decode_dict_field_raw(b: &[u8], key: &[u8]) -> (r: Result<Option<Vec<u8>>, Error>)
    ensures
        match raw_field(b@, key@, local_limits()) {
            Err(e) => r == Err::<Option<Vec<u8>>, Error>(e),
            Ok(None) => r matches Ok(o) && o is None,
            Ok(Some(raw)) => r matches Ok(Some(v)) && v@ == raw,
        },
{
    if b.len() == 0 {
        return Err(Error::Truncated);
    }
    if b[0] != 100 {
        return Err(Error::InvalidToken);
    }
    match decode_entries(b, 1, 255, usize::MAX - 1) {
        Err(e) => Err(e),
        Ok((entries, spans, _, _)) => {
            let ghost found = parse_entries(b@, 1, 255, (usize::MAX - 1) as nat)->Ok_0.0;
            let ghost raws = Seq::new(
                found.len(),
                |i: int| (found[i].key, b@.subrange(found[i].start, found[i].end)),
            );
            proof {
                lemma_model_entries(entries@);
                assert forall|j: int| 0 <= j < found.len() implies (#[trigger] found[j]).key
                    == entries@[j].0@ by {
                    assert(without_spans(found)[j] == model_entries(entries@)[j]);
                }
            }
            let mut i: usize = 0;
            while i < entries.len()
                invariant
                    i <= entries.len(),
                    entries@.len() == found.len(),
                    spans_of(found, spans@),
                    found.len() == raws.len(),
                    forall|j: int|
                        0 <= j < found.len() ==> (#[trigger] raws[j]) == (
                            found[j].key,
                            b@.subrange(found[j].start, found[j].end),
                        ),
                    forall|j: int|
                        0 <= j < found.len() ==> (#[trigger] found[j]).key == entries@[j].0@,
                    forall|j: int| 0 <= j < i ==> (#[trigger] raws[j]).0 != key@,
                    forall|j: int|
                        0 <= j < found.len() ==> 0 <= (#[trigger] found[j]).start <= found[j].end
                            <= b.len(),
                    raw_field(b@, key@, local_limits()) == Ok::<Option<Seq<u8>>, Error>(
                        lookup(raws, key@),
                    ),
                decreases entries.len() - i,
            {
                if same_bytes(entries[i].0.as_slice(), key) {
                    proof {
                        assert(raws[i as int].0 == found[i as int].key);
                        lemma_first_with_key(raws, key@, i as int);
                    }
                    let span: (usize, usize) = spans[i];
                    assert(span.0 == found[i as int].start && span.1 == found[i as int].end);
                    return Ok(Some(copy_range(b, span.0, span.1)));
                }
                assert(raws[i as int].0 == found[i as int].key);
                i += 1;
            }
            proof {
                lemma_first_with_key(raws, key@, i as int);
            }
            Ok(None)
        },
    }
}

/// The model of a list has the model of each item in its place.
pub proof fn lemma_model_list(s: Seq<Value>)
    ensures
        model_list(s).len() == s.len(),
        forall|i: int| 0 <= i < s.len() ==> #[trigger] model_list(s)[i] == model(s[i]),
    decreases s.len(),
{
    if s.len() > 0 {
        lemma_model_list(s.drop_last());
    }
}

/// The model of a dictionary has the model of each entry in its place.
pub proof fn lemma_model_entries(s: Seq<(Vec<u8>, Value)>)
    ensures
        model_entries(s).len() == s.len(),
        forall|i: int|
            0 <= i < s.len() ==> #[trigger] model_entries(s)[i] == (s[i].0@, model(s[i].1)),
    decreases s.len(),
{
    if s.len() > 0 {
        lemma_model_entries(s.drop_last());
    }
}

impl Value {
    pub fn as_int(&self) -> (r: Option<i64>)
        ensures
            match self@ {
                Bencode::Int(i) => r matches Some(j) && i == j,
                _ => r is None,
            },
    {
        match self {
            Value::Int(i) => Some(*i),
            _ => None,
        }
    }

    pub fn as_bytes(&self) -> (r: Option<&Vec<u8>>)
        ensures
            match self@ {
                Bencode::Bytes(b) => r matches Some(c) && c@ == b,
                _ => r is None,
            },
    {
        match self {
            Value::Bytes(b) => Some(b),
            _ => None,
        }
    }

    pub fn as_list(&self) -> (r: Option<&Vec<Value>>)
        ensures
            match self@ {
                Bencode::List(l) => r matches Some(m) && model_list(m@) == l,
                _ => r is None,
            },
            r matches Some(l) ==> *self == Value::List(*l),
    {
        match self {
            Value::List(l) => Some(l),
            _ => None,
        }
    }

    pub fn as_dict(&self) -> (r: Option<&Vec<(Vec<u8>, Value)>>)
        ensures
            match self@ {
                Bencode::Dict(d) => r matches Some(e) && model_entries(e@) == d,
                _ => r is None,
            },
            r matches Some(d) ==> *self == Value::Dict(*d),
    {
        match self {
            Value::Dict(d) => Some(d),
            _ => None,
        }
    }

    /// The value of the first entry under `key`, of a dictionary.
    pub fn get(&self, key: &[u8]) -> (r: Option<&Value>)
        ensures
            match field(self@, key@) {
                None => r is None,
                Some(v) => r matches Some(w) && w@ == v,
            },
            r matches Some(w) ==> decreases_to!(self => w),
    {
        match self {
            Value::Dict(d) => {
                proof {
                    lemma_model_entries(d@);
                }
                let r = find_entry(d, key);
                r
            },
            _ => None,
        }
    }
}

/// The value under `key`, where `v` is a dictionary that has one.
pub open spec fn field(v: Bencode, key: Seq<u8>) -> Option<Bencode> {
    match v {
        Bencode::Dict(d) => lookup(d, key),
        _ => None,
    }
}

/// The byte string under `key`.
pub open spec fn bytes_field(v: Bencode, key: Seq<u8>) -> Option<Seq<u8>> {
    match field(v, key) {
        Some(Bencode::Bytes(b)) => Some(b),
        _ => None,
    }
}

/// The integer under `key`.
pub open spec fn int_field(v: Bencode, key: Seq<u8>) -> Option<int> {
    match field(v, key) {
        Some(Bencode::Int(i)) => Some(i),
        _ => None,
    }
}

/// The list under `key`.
pub open spec fn list_field(v: Bencode, key: Seq<u8>) -> Option<Seq<Bencode>> {
    match field(v, key) {
        Some(Bencode::List(l)) => Some(l),
        _ => None,
    }
}

/// The text of a byte string.
pub open spec fn text_in(v: Bencode) -> Option<Seq<char>> {
    match v {
        Bencode::Bytes(b) => text_of(b),
        _ => None,
    }
}

/// The text under `key`.
pub open spec fn text_field(v: Bencode, key: Seq<u8>) -> Option<Seq<char>> {
    match field(v, key) {
        Some(t) => text_in(t),
        None => None,
    }
}

impl Value {
    /// The text of a byte string.
    pub fn as_str(&self) -> (r: Option<String>)
        ensures
            match text_in(self@) {
                None => r is None,
                Some(t) => r matches Some(s) && s@ == t,
            },
    {
        match self {
            Value::Bytes(b) => read_text(b.as_slice()),
            _ => None,
        }
    }

    /// The text under `key`.
    pub fn text_at(&self, key: &[u8]) -> (r: Option<String>)
        ensures
            match text_field(self@, key@) {
                None => r is None,
                Some(t) => r matches Some(s) && s@ == t,
            },
    {
        match self.get(key) {
            Some(v) => v.as_str(),
            None => None,
        }
    }

    /// The byte string under `key`.
    pub fn bytes_at(&self, key: &[u8]) -> (r: Option<&Vec<u8>>)
        ensures
            match bytes_field(self@, key@) {
                None => r is None,
                Some(b) => r matches Some(c) && c@ == b,
            },
    {
        match self.get(key) {
            Some(v) => v.as_bytes(),
            None => None,
        }
    }

    /// The integer under `key`.
    pub fn int_at(&self, key: &[u8]) -> (r: Option<i64>)
        ensures
            match int_field(self@, key@) {
                None => r is None,
                Some(i) => r matches Some(j) && i == j,
            },
    {
        match self.get(key) {
            Some(v) => v.as_int(),
            None => None,
        }
    }

    /// The list under `key`.
    pub fn list_at(&self, key: &[u8]) -> (r: Option<&Vec<Value>>)
        ensures
            match list_field(self@, key@) {
                None => r is None,
                Some(l) => r matches Some(m) && model_list(m@) == l,
            },
    {
        match self.get(key) {
            Some(v) => v.as_list(),
            None => None,
        }
    }
}

/// Where `key` first occurs among the entries; their number where it does not.
pub fn entry_index(d: &Vec<(Vec<u8>, Value)>, key: &[u8]) -> (r: usize)
    ensures
        r == first_with_key(model_entries(d@), key@),
        r <= d.len(),
        r < d.len() ==> d@[r as int].0@ == key@,
{
    let mut i: usize = 0;
    proof {
        lemma_model_entries(d@);
    }
    while i < d.len()
        invariant
            i <= d.len(),
            model_entries(d@).len() == d.len(),
            forall|j: int|
                0 <= j < d.len() ==> #[trigger] model_entries(d@)[j] == (d@[j].0@, model(d@[j].1)),
            forall|j: int| 0 <= j < i ==> (#[trigger] model_entries(d@)[j]).0 != key@,
        decreases d.len() - i,
    {
        if same_bytes(d[i].0.as_slice(), key) {
            proof {
                assert(model_entries(d@)[i as int].0 == key@);
                lemma_first_with_key(model_entries(d@), key@, i as int);
            }
            return i;
        }
        assert(model_entries(d@)[i as int].0 != key@);
        i += 1;
    }
    proof {
        lemma_first_with_key(model_entries(d@), key@, i as int);
    }
    i
}

/// The value of the first entry under `key`.
pub fn find_entry<'a>(d: &'a Vec<(Vec<u8>, Value)>, key: &[u8]) -> (r: Option<&'a Value>)
    ensures
        match lookup(model_entries(d@), key@) {
            None => r is None,
            Some(v) => r matches Some(w) && w@ == v,
        },
        r matches Some(w) ==> exists|i: int| 0 <= i < d.len() && *w == (#[trigger] d@[i]).1,
{
    let i: usize = entry_index(d, key);
    proof {
        lemma_model_entries(d@);
    }
    if i < d.len() {
        Some(&d[i].1)
    } else {
        None
    }
}

/// A byte string behind its length.
pub open spec fn encode_bytes(s: Seq<u8>) -> Seq<u8> {
    decimal(s.len()) + seq![58u8] + s
}

/// The bytes of a value; a dictionary is written in the order of its keys.
pub open spec fn encode(v: Bencode) -> Seq<u8>
    decreases v,
{
    match v {
        Bencode::Int(i) => seq![105u8] + signed_decimal(i) + seq![101u8],
        Bencode::Bytes(b) => encode_bytes(b),
        Bencode::List(l) => seq![108u8] + encode_list(l) + seq![101u8],
        Bencode::Dict(d) => seq![100u8] + join(sorted(encode_entries(d))) + seq![101u8],
    }
}

/// The bytes of the items of a list.
pub open spec fn encode_list(l: Seq<Bencode>) -> Seq<u8>
    decreases l,
{
    if l.len() == 0 {
        seq![]
    } else {
        encode_list(l.drop_last()) + encode(l.last())
    }
}

/// The key of each entry with the bytes of its value.
pub open spec fn encode_entries(d: Seq<(Seq<u8>, Bencode)>) -> Seq<(Seq<u8>, Seq<u8>)>
    decreases d,
{
    if d.len() == 0 {
        seq![]
    } else {
        encode_entries(d.drop_last()).push((d.last().0, encode(d.last().1)))
    }
}

/// Keys and values one behind the other.
pub open spec fn join(p: Seq<(Seq<u8>, Seq<u8>)>) -> Seq<u8>
    decreases p.len(),
{
    if p.len() == 0 {
        seq![]
    } else {
        join(p.drop_last()) + encode_bytes(p.last().0) + p.last().1
    }
}

fn put_decimal(n: u64, out: &mut Vec<u8>)
    ensures
        final(out)@ == old(out)@ + decimal(n as nat),
    decreases n,
{
    if n >= 10 {
        put_decimal(n / 10, out);
    }
    out.push(48 + (n % 10) as u8);
    proof {
        if n >= 10 {
            assert(out@ =~= old(out)@ + decimal(n as nat));
        } else {
            assert(out@ =~= old(out)@ + seq![(48 + n) as u8]);
        }
    }
}

fn put_bytes(s: &[u8], out: &mut Vec<u8>)
    ensures
        final(out)@ == old(out)@ + encode_bytes(s@),
{
    put_decimal(s.len() as u64, out);
    out.push(58);
    out.extend_from_slice(s);
    proof {
        assert(out@ =~= old(out)@ + encode_bytes(s@));
    }
}

spec fn pair_views(p: Seq<(Vec<u8>, Vec<u8>)>) -> Seq<(Seq<u8>, Seq<u8>)> {
    Seq::new(p.len(), |i: int| (p[i].0@, p[i].1@))
}

fn find_slot(p: &Vec<(Vec<u8>, Vec<u8>)>, key: &[u8]) -> (r: usize)
    ensures
        r == slot(pair_views(p@), key@),
        r <= p.len(),
{
    let mut n: usize = p.len();
    let ghost views = pair_views(p@);
    proof {
        assert(views.take(n as int) =~= views);
    }
    while n > 0 && bytes_less(key, p[n - 1].0.as_slice())
        invariant
            n <= p.len(),
            views == pair_views(p@),
            slot(views, key@) == slot(views.take(n as int), key@),
        decreases n,
    {
        proof {
            assert(views.take(n as int).drop_last() =~= views.take(n - 1));
        }
        n -= 1;
    }
    n
}

fn put_value(v: &Value, out: &mut Vec<u8>)
    ensures
        final(out)@ == old(out)@ + encode(v@),
    decreases v,
{
    match v {
        Value::Int(i) => {
            out.push(105);
            if *i < 0 {
                out.push(45);
                let n: u64 = if *i == i64::MIN {
                    9223372036854775808
                } else {
                    (-*i) as u64
                };
                put_decimal(n, out);
            } else {
                put_decimal(*i as u64, out);
            }
            out.push(101);
            proof {
                assert(out@ =~= old(out)@ + encode(v@));
            }
        },
        Value::Bytes(b) => {
            put_bytes(b.as_slice(), out);
        },
        Value::List(l) => {
            out.push(108);
            put_list(l, out);
            out.push(101);
            proof {
                assert(out@ =~= old(out)@ + encode(v@));
            }
        },
        Value::Dict(d) => {
            let pairs = sorted_pairs(d);
            out.push(100);
            let mut i: usize = 0;
            let ghost views = pair_views(pairs@);
            let ghost start = out@;
            proof {
                assert(start + join(views.take(0)) =~= start);
            }
            while i < pairs.len()
                invariant
                    i <= pairs.len(),
                    views == pair_views(pairs@),
                    out@ == start + join(views.take(i as int)),
                decreases pairs.len() - i,
            {
                put_bytes(pairs[i].0.as_slice(), out);
                out.extend_from_slice(pairs[i].1.as_slice());
                proof {
                    let next = views.take(i + 1);
                    assert(next.drop_last() =~= views.take(i as int));
                    assert(next.last() == views[i as int]);
                    assert(out@ =~= start + join(next));
                }
                i += 1;
            }
            out.push(101);
            proof {
                assert(views.take(i as int) =~= views);
                assert(out@ =~= old(out)@ + encode(v@));
            }
        },
    }
}

fn put_list(l: &Vec<Value>, out: &mut Vec<u8>)
    ensures
        final(out)@ == old(out)@ + encode_list(model_list(l@)),
    decreases l,
{
    let mut i: usize = 0;
    let ghost start = out@;
    proof {
        assert(start + encode_list(model_list(l@.take(0))) =~= start);
    }
    while i < l.len()
        invariant
            i <= l.len(),
            out@ == start + encode_list(model_list(l@.take(i as int))),
        decreases l.len() - i,
    {
        proof {
            assert(decreases_to!(l => l@[i as int]));
        }
        put_value(&l[i], out);
        proof {
            let next = l@.take(i + 1);
            assert(next.drop_last() =~= l@.take(i as int));
            lemma_model_list(next);
            assert(model_list(next).drop_last() =~= model_list(l@.take(i as int)));
            assert(out@ =~= start + encode_list(model_list(next)));
        }
        i += 1;
    }
    proof {
        assert(l@.take(i as int) =~= l@);
    }
}

fn sorted_pairs(d: &Vec<(Vec<u8>, Value)>) -> (r: Vec<(Vec<u8>, Vec<u8>)>)
    ensures
        pair_views(r@) == sorted(encode_entries(model_entries(d@))),
    decreases d,
{
    let mut pairs: Vec<(Vec<u8>, Vec<u8>)> = Vec::new();
    let mut i: usize = 0;
    proof {
        assert(pair_views(pairs@) =~= sorted(encode_entries(model_entries(d@.take(0)))));
    }
    while i < d.len()
        invariant
            i <= d.len(),
            pair_views(pairs@) == sorted(encode_entries(model_entries(d@.take(i as int)))),
        decreases d.len() - i,
    {
        proof {
            assert(decreases_to!(d => d@[i as int]));
        }
        let mut encoded: Vec<u8> = Vec::new();
        put_value(&d[i].1, &mut encoded);
        let key = copy_bytes(&d[i].0);
        let at = find_slot(&pairs, key.as_slice());
        let ghost before = pairs@;
        let ghost added = (key@, encoded@);
        pairs.insert(at, (key, encoded));
        proof {
            let next = d@.take(i + 1);
            assert(next.drop_last() =~= d@.take(i as int));
            assert(next.last() == d@[i as int]);
            lemma_model_entries(next);
            let models = model_entries(next);
            assert(models.drop_last() =~= model_entries(d@.take(i as int)));
            let encodings = encode_entries(models);
            assert(encodings.drop_last() =~= encode_entries(models.drop_last()));
            assert(encodings.last() == added);
            assert(pair_views(pairs@) =~= pair_views(before).insert(at as int, added));
        }
        i += 1;
    }
    proof {
        assert(d@.take(i as int) =~= d@);
    }
    pairs
}

/// Write a value; a dictionary is written in the order of its keys.
pub fn encode_to_vec(v: &Value) -> (r: Vec<u8>)
    ensures
        r@ == encode(v@),
{
    let mut out: Vec<u8> = Vec::new();
    put_value(v, &mut out);
    proof {
        assert(out@ =~= encode(v@));
    }
    out
}

/// One entry more.
pub fn push_entry(d: &mut Vec<(Vec<u8>, Value)>, key: Vec<u8>, value: Value)
    ensures
        model_entries(final(d)@) == model_entries(old(d)@).push((key@, value@)),
{
    d.push((key, value));
    assert(d@.drop_last() =~= old(d)@);
}

/// One item more.
pub fn push_item(l: &mut Vec<Value>, value: Value)
    ensures
        model_list(final(l)@) == model_list(old(l)@).push(value@),
{
    l.push(value);
    assert(l@.drop_last() =~= old(l)@);
}

/// A byte string as a value.
pub fn bytes_value(b: &[u8]) -> (r: Value)
    ensures
        r@ == Bencode::Bytes(b@),
{
    let copy = copy_range(b, 0, b.len());
    assert(copy@ =~= b@);
    Value::Bytes(copy)
}

fn copy_bytes(b: &Vec<u8>) -> (r: Vec<u8>)
    ensures
        r@ == b@,
{
    let r = copy_range(b.as_slice(), 0, b.len());
    assert(r@ =~= b@);
    r
}

fn copy_value(v: &Value) -> (r: Value)
    ensures
        r@ == v@,
    decreases v,
{
    match v {
        Value::Int(i) => Value::Int(*i),
        Value::Bytes(b) => Value::Bytes(copy_bytes(b)),
        Value::List(l) => Value::List(copy_list(l)),
        Value::Dict(d) => Value::Dict(copy_entries(d)),
    }
}

fn copy_list(l: &Vec<Value>) -> (r: Vec<Value>)
    ensures
        model_list(r@) == model_list(l@),
    decreases l,
{
    let mut out: Vec<Value> = Vec::new();
    let mut i: usize = 0;
    while i < l.len()
        invariant
            i <= l.len(),
            model_list(out@) == model_list(l@.take(i as int)),
        decreases l.len() - i,
    {
        let ghost before = out@;
        proof {
            assert(decreases_to!(l => l@[i as int]));
            assert(l@.take(i + 1).drop_last() =~= l@.take(i as int));
        }
        out.push(copy_value(&l[i]));
        assert(out@.drop_last() =~= before);
        i += 1;
    }
    assert(l@.take(i as int) =~= l@);
    out
}

fn copy_entries(d: &Vec<(Vec<u8>, Value)>) -> (r: Vec<(Vec<u8>, Value)>)
    ensures
        model_entries(r@) == model_entries(d@),
    decreases d,
{
    let mut out: Vec<(Vec<u8>, Value)> = Vec::new();
    let mut i: usize = 0;
    while i < d.len()
        invariant
            i <= d.len(),
            model_entries(out@) == model_entries(d@.take(i as int)),
        decreases d.len() - i,
    {
        let ghost before = out@;
        proof {
            assert(decreases_to!(d => d@[i as int]));
            assert(d@.take(i + 1).drop_last() =~= d@.take(i as int));
        }
        out.push((copy_bytes(&d[i].0), copy_value(&d[i].1)));
        assert(out@.drop_last() =~= before);
        i += 1;
    }
    assert(d@.take(i as int) =~= d@);
    out
}

impl Clone for Value {
    fn clone(&self) -> (r: Self)
        ensures
            r@ == self@,
    {
        copy_value(self)
    }
}

/// How many lists and dictionaries stand inside one another at most.
pub open spec fn height(v: Bencode) -> nat
    decreases v,
{
    match v {
        Bencode::List(l) => 1 + height_list(l),
        Bencode::Dict(d) => 1 + height_entries(d),
        _ => 0,
    }
}

/// The greatest height of the items.
pub open spec fn height_list(l: Seq<Bencode>) -> nat
    decreases l,
{
    if l.len() == 0 {
        0
    } else {
        let rest = height_list(l.drop_first());
        let first = height(l[0]);
        if first < rest {
            rest
        } else {
            first
        }
    }
}

/// The greatest height of the values of the entries.
pub open spec fn height_entries(d: Seq<(Seq<u8>, Bencode)>) -> nat
    decreases d,
{
    if d.len() == 0 {
        0
    } else {
        let rest = height_entries(d.drop_first());
        let first = height(d[0].1);
        if first < rest {
            rest
        } else {
            first
        }
    }
}

/// How many values `v` consists of, itself counted.
pub open spec fn size(v: Bencode) -> nat
    decreases v,
{
    match v {
        Bencode::List(l) => 1 + size_list(l),
        Bencode::Dict(d) => 1 + size_entries(d),
        _ => 1,
    }
}

/// How many values the items consist of.
pub open spec fn size_list(l: Seq<Bencode>) -> nat
    decreases l,
{
    if l.len() == 0 {
        0
    } else {
        size(l[0]) + size_list(l.drop_first())
    }
}

/// How many values the values of the entries consist of.
pub open spec fn size_entries(d: Seq<(Seq<u8>, Bencode)>) -> nat
    decreases d,
{
    if d.len() == 0 {
        0
    } else {
        size(d[0].1) + size_entries(d.drop_first())
    }
}

/// True when every integer fits 64 bits and every dictionary is in the order of its keys.
pub open spec fn canonical(v: Bencode) -> bool
    decreases v,
{
    match v {
        Bencode::Int(i) => i64::MIN <= i <= i64::MAX,
        Bencode::Bytes(_) => true,
        Bencode::List(l) => canonical_list(l),
        Bencode::Dict(d) => canonical_entries(d),
    }
}

/// True when every item is canonical.
pub open spec fn canonical_list(l: Seq<Bencode>) -> bool
    decreases l,
{
    l.len() > 0 ==> canonical(l[0]) && canonical_list(l.drop_first())
}

/// True when the entries are in the order of their keys and their values are canonical.
pub open spec fn canonical_entries(d: Seq<(Seq<u8>, Bencode)>) -> bool
    decreases d,
{
    d.len() > 0 ==> {
        &&& canonical(d[0].1)
        &&& canonical_entries(d.drop_first())
        &&& (d.len() > 1 ==> !lex_less(d[1].0, d[0].0))
    }
}

/// How long a dictionary is: each entry counts with its key and its value.
pub proof fn encoded_length(d: Seq<(Seq<u8>, Bencode)>)
    ensures
        encode(Bencode::Dict(d)).len() == 2 + total(
            d,
            |e: (Seq<u8>, Bencode)| (encode_bytes(e.0).len() + encode(e.1).len()) as nat,
        ),
{
    lemma_joined_length(encode_entries(d));
    lemma_entries_length(d);
}

spec fn joined_weight() -> spec_fn((Seq<u8>, Seq<u8>)) -> nat {
    |e: (Seq<u8>, Seq<u8>)| (encode_bytes(e.0).len() + e.1.len()) as nat
}

proof fn lemma_join_length(p: Seq<(Seq<u8>, Seq<u8>)>)
    ensures
        join(p).len() == total(p, joined_weight()),
    decreases p.len(),
{
    if p.len() > 0 {
        lemma_join_length(p.drop_last());
    }
}

proof fn lemma_joined_length(p: Seq<(Seq<u8>, Seq<u8>)>)
    ensures
        join(sorted(p)).len() == total(p, joined_weight()),
    decreases p.len(),
{
    lemma_join_length(sorted(p));
    lemma_sorted_total(p);
}

proof fn lemma_sorted_total(p: Seq<(Seq<u8>, Seq<u8>)>)
    ensures
        total(sorted(p), joined_weight()) == total(p, joined_weight()),
    decreases p.len(),
{
    if p.len() > 0 {
        let q = p.drop_last();
        lemma_sorted_total(q);
        sorting_is_a_permutation(q);
        lemma_slot(sorted(q), p.last().0);
        total_of_insert(sorted(q), slot(sorted(q), p.last().0), p.last(), joined_weight());
    }
}

proof fn lemma_entries_length(d: Seq<(Seq<u8>, Bencode)>)
    ensures
        total(encode_entries(d), joined_weight()) == total(
            d,
            |e: (Seq<u8>, Bencode)| (encode_bytes(e.0).len() + encode(e.1).len()) as nat,
        ),
    decreases d.len(),
{
    if d.len() > 0 {
        lemma_entries_length(d.drop_last());
        assert(encode_entries(d).drop_last() =~= encode_entries(d.drop_last()));
    }
}

proof fn lemma_decimal(n: nat)
    ensures
        decimal(n).len() > 0,
        forall|i: int| 0 <= i < decimal(n).len() ==> is_digit(#[trigger] decimal(n)[i]),
        digits_value(decimal(n)) == n,
        decimal(n)[0] == 48 ==> decimal(n).len() == 1,
        n > 0 ==> decimal(n)[0] != 48,
    decreases n,
{
    if n < 10 {
        assert(decimal(n).drop_last() =~= seq![]);
        assert(digits_value(decimal(n).drop_last()) == 0);
    } else {
        lemma_decimal(n / 10);
        assert(decimal(n).drop_last() =~= decimal(n / 10));
    }
}

proof fn lemma_run_end(b: Seq<u8>, pos: int, end: int)
    requires
        0 <= pos <= end < b.len(),
        forall|i: int| pos <= i < end ==> is_digit(#[trigger] b[i]),
        !is_digit(b[end]),
    ensures
        run_end(b, pos) == end,
    decreases end - pos,
{
    if pos < end {
        assert(is_digit(b[pos]));
        lemma_run_end(b, pos + 1, end);
    }
}

/// True when `part` stands in `b` at `pos`.
pub open spec fn stands_at(b: Seq<u8>, pos: int, part: Seq<u8>) -> bool {
    0 <= pos && pos + part.len() <= b.len() && b.subrange(pos, pos + part.len()) == part
}

proof fn lemma_stands_split(b: Seq<u8>, pos: int, x: Seq<u8>, y: Seq<u8>)
    requires
        stands_at(b, pos, x + y),
    ensures
        stands_at(b, pos, x),
        stands_at(b, pos + x.len(), y),
{
    let whole = b.subrange(pos, pos + (x + y).len());
    assert(b.subrange(pos, pos + x.len()) =~= x) by {
        assert forall|i: int| 0 <= i < x.len() implies b[pos + i] == x[i] by {
            assert(whole[i] == (x + y)[i]);
        }
    }
    assert(b.subrange(pos + x.len(), pos + x.len() + y.len()) =~= y) by {
        assert forall|i: int| 0 <= i < y.len() implies b[pos + x.len() + i] == y[i] by {
            assert(whole[x.len() + i] == (x + y)[x.len() + i]);
        }
    }
}

proof fn lemma_scan_decimal(b: Seq<u8>, pos: int, n: nat, stop: u8, bad: Error)
    requires
        stands_at(b, pos, decimal(n) + seq![stop]),
        !is_digit(stop),
    ensures
        scan_number(b, pos, stop, bad) == Ok::<(nat, int), Error>(
            (n, pos + decimal(n).len() + 1),
        ),
{
    lemma_decimal(n);
    let d = decimal(n);
    lemma_stands_split(b, pos, d, seq![stop]);
    let end = pos + d.len();
    assert(b[end] == stop) by {
        assert(b.subrange(end, end + 1)[0] == stop);
    }
    assert forall|i: int| pos <= i < end implies is_digit(#[trigger] b[i]) by {
        assert(b.subrange(pos, end)[i - pos] == d[i - pos]);
    }
    lemma_run_end(b, pos, end);
    assert(b[pos] == d[0]) by {
        assert(b.subrange(pos, end)[0] == d[0]);
    }
}

proof fn lemma_parse_bytes(b: Seq<u8>, pos: int, s: Seq<u8>)
    requires
        stands_at(b, pos, encode_bytes(s)),
    ensures
        parse_bytes(b, pos) == Ok::<(Seq<u8>, int), Error>((s, pos + encode_bytes(s).len())),
        is_digit(b[pos]),
{
    let head = decimal(s.len()) + seq![58u8];
    lemma_stands_split(b, pos, head, s);
    lemma_scan_decimal(b, pos, s.len(), 58, Error::InvalidLength);
    lemma_decimal(s.len());
    lemma_stands_split(b, pos, decimal(s.len()), seq![58u8]);
    assert(b.subrange(pos, pos + decimal(s.len()).len())[0] == decimal(s.len())[0]);
}

proof fn lemma_parse_int(b: Seq<u8>, pos: int, i: int)
    requires
        i64::MIN <= i <= i64::MAX,
        stands_at(b, pos, encode(Bencode::Int(i))),
    ensures
        parse_int(b, pos) == Ok::<(int, int), Error>((i, pos + encode(Bencode::Int(i)).len())),
        b[pos] == 105,
{
    let body = signed_decimal(i);
    assert(seq![105u8] + body + seq![101u8] =~= seq![105u8] + (body + seq![101u8]));
    lemma_stands_split(b, pos, seq![105u8], body + seq![101u8]);
    assert(b.subrange(pos, pos + 1)[0] == 105u8);
    if i < 0 {
        let n = (-i) as nat;
        assert(body + seq![101u8] =~= seq![45u8] + (decimal(n) + seq![101u8]));
        lemma_stands_split(b, pos + 1, seq![45u8], decimal(n) + seq![101u8]);
        assert(b.subrange(pos + 1, pos + 2)[0] == 45u8);
        lemma_scan_decimal(b, pos + 2, n, 101, Error::InvalidInteger);
    } else {
        let n = i as nat;
        lemma_scan_decimal(b, pos + 1, n, 101, Error::InvalidInteger);
        lemma_decimal(n);
        lemma_stands_split(b, pos + 1, decimal(n), seq![101u8]);
        assert(b.subrange(pos + 1, pos + 1 + decimal(n).len())[0] == decimal(n)[0]);
    }
}

proof fn lemma_encode_list_front(l: Seq<Bencode>)
    requires
        l.len() > 0,
    ensures
        encode_list(l) == encode(l[0]) + encode_list(l.drop_first()),
    decreases l.len(),
{
    if l.len() == 1 {
        assert(encode_list(l.drop_last()) =~= seq![]);
        assert(encode_list(l.drop_first()) =~= seq![]);
        assert(encode_list(l) =~= encode(l[0]));
    } else {
        lemma_encode_list_front(l.drop_last());
        let mid = l.drop_last().drop_first();
        assert(l.drop_first().drop_last() =~= mid);
        assert(l.drop_last()[0] == l[0]);
        assert(encode_list(l) =~= encode(l[0]) + (encode_list(mid) + encode(l.last())));
    }
}

proof fn lemma_encode_entries(d: Seq<(Seq<u8>, Bencode)>)
    ensures
        encode_entries(d).len() == d.len(),
        forall|i: int|
            0 <= i < d.len() ==> #[trigger] encode_entries(d)[i] == (d[i].0, encode(d[i].1)),
    decreases d.len(),
{
    if d.len() > 0 {
        lemma_encode_entries(d.drop_last());
    }
}

proof fn lemma_join_front(p: Seq<(Seq<u8>, Seq<u8>)>)
    requires
        p.len() > 0,
    ensures
        join(p) == encode_bytes(p[0].0) + p[0].1 + join(p.drop_first()),
    decreases p.len(),
{
    if p.len() == 1 {
        assert(join(p.drop_last()) =~= seq![]);
        assert(join(p.drop_first()) =~= seq![]);
        assert(join(p) =~= encode_bytes(p[0].0) + p[0].1);
    } else {
        lemma_join_front(p.drop_last());
        let mid = p.drop_last().drop_first();
        assert(p.drop_first().drop_last() =~= mid);
        assert(p.drop_last()[0] == p[0]);
        assert(join(p) =~= encode_bytes(p[0].0) + p[0].1 + (join(mid) + encode_bytes(p.last().0)
            + p.last().1));
    }
}

proof fn lemma_canonical_sorted(d: Seq<(Seq<u8>, Bencode)>, i: int)
    requires
        canonical_entries(d),
        0 <= i < d.len() - 1,
    ensures
        !lex_less(d[i + 1].0, d[i].0),
    decreases d.len(),
{
    if i > 0 {
        lemma_canonical_sorted(d.drop_first(), i - 1);
        assert(d.drop_first()[i - 1] == d[i]);
        assert(d.drop_first()[i] == d[i + 1]);
    }
}

proof fn lemma_parse_value(b: Seq<u8>, pos: int, v: Bencode, depth: nat, items: nat)
    requires
        canonical(v),
        stands_at(b, pos, encode(v)),
        height(v) <= depth,
        size(v) <= items,
    ensures
        parse_value(b, pos, depth, items) == Ok::<(Bencode, int, nat), Error>(
            (v, pos + encode(v).len(), (items - size(v)) as nat),
        ),
        encode(v).len() > 0,
        b[pos] != 101,
    decreases v,
{
    match v {
        Bencode::Int(i) => {
            lemma_parse_int(b, pos, i);
        },
        Bencode::Bytes(s) => {
            lemma_parse_bytes(b, pos, s);
            lemma_decimal(s.len());
        },
        Bencode::List(l) => {
            let tail = encode_list(l) + seq![101u8];
            assert(encode(v) =~= seq![108u8] + tail);
            lemma_stands_split(b, pos, seq![108u8], tail);
            assert(b.subrange(pos, pos + 1)[0] == 108u8);
            lemma_parse_list(b, pos + 1, l, (depth - 1) as nat, (items - 1) as nat);
        },
        Bencode::Dict(d) => {
            lemma_encode_entries(d);
            let p = encode_entries(d);
            assert forall|i: int| 0 <= i < p.len() - 1 implies !lex_less(
                (#[trigger] p[i + 1]).0,
                p[i].0,
            ) by {
                lemma_canonical_sorted(d, i);
            }
            sorting_keeps_order(p);
            let tail = join(p) + seq![101u8];
            assert(encode(v) =~= seq![100u8] + tail);
            lemma_stands_split(b, pos, seq![100u8], tail);
            assert(b.subrange(pos, pos + 1)[0] == 100u8);
            lemma_parse_entries(b, pos + 1, d, (depth - 1) as nat, (items - 1) as nat);
        },
    }
}

proof fn lemma_parse_list(b: Seq<u8>, pos: int, l: Seq<Bencode>, depth: nat, items: nat)
    requires
        canonical_list(l),
        stands_at(b, pos, encode_list(l) + seq![101u8]),
        height_list(l) <= depth,
        size_list(l) <= items,
    ensures
        parse_list(b, pos, depth, items) == Ok::<(Seq<Bencode>, int, nat), Error>(
            (l, pos + encode_list(l).len() + 1, (items - size_list(l)) as nat),
        ),
    decreases l,
{
    if l.len() == 0 {
        lemma_stands_split(b, pos, encode_list(l), seq![101u8]);
        assert(b.subrange(pos, pos + 1)[0] == 101u8);
        assert(l =~= seq![]);
    } else {
        let rest = l.drop_first();
        lemma_encode_list_front(l);
        let tail = encode_list(rest) + seq![101u8];
        assert(encode_list(l) + seq![101u8] =~= encode(l[0]) + tail);
        lemma_stands_split(b, pos, encode(l[0]), tail);
        lemma_parse_value(b, pos, l[0], depth, items);
        let next = pos + encode(l[0]).len();
        lemma_parse_list(b, next, rest, depth, (items - size(l[0])) as nat);
        assert(seq![l[0]] + rest =~= l);
    }
}

proof fn lemma_parse_entries(
    b: Seq<u8>,
    pos: int,
    d: Seq<(Seq<u8>, Bencode)>,
    depth: nat,
    items: nat,
)
    requires
        canonical_entries(d),
        stands_at(b, pos, join(encode_entries(d)) + seq![101u8]),
        height_entries(d) <= depth,
        size_entries(d) <= items,
    ensures
        parse_entries(b, pos, depth, items) matches Ok((entries, end, left)) && without_spans(
            entries,
        ) == d && end == pos + join(encode_entries(d)).len() + 1 && left == items - size_entries(d),
    decreases d,
{
    let p = encode_entries(d);
    lemma_encode_entries(d);
    if d.len() == 0 {
        lemma_stands_split(b, pos, join(p), seq![101u8]);
        assert(b.subrange(pos, pos + 1)[0] == 101u8);
        assert(without_spans(seq![]) =~= d);
    } else {
        let rest = d.drop_first();
        lemma_encode_entries(rest);
        assert(p.drop_first() =~= encode_entries(rest));
        lemma_join_front(p);
        let key = d[0].0;
        let value = d[0].1;
        assert(decreases_to!(d => d[0]));
        let tail = join(encode_entries(rest)) + seq![101u8];
        assert(join(p) + seq![101u8] =~= encode_bytes(key) + (encode(value) + tail));
        lemma_stands_split(b, pos, encode_bytes(key), encode(value) + tail);
        lemma_parse_bytes(b, pos, key);
        let start = pos + encode_bytes(key).len();
        lemma_stands_split(b, start, encode(value), tail);
        lemma_parse_value(b, start, value, depth, items);
        let next = start + encode(value).len();
        lemma_parse_entries(b, next, rest, depth, (items - size(value)) as nat);
        let entries = parse_entries(b, next, depth, (items - size(value)) as nat)->Ok_0.0;
        let first = Entry { key, value, start, end: next };
        assert(without_spans(seq![first] + entries) =~= seq![(key, value)] + without_spans(
            entries,
        ));
        assert(seq![d[0]] + rest =~= d);
    }
}

/// Reading back what was written gives the value that was written, whatever stands behind it,
/// for every value whose dictionaries are in the order of their keys and that the limits allow.
pub proof fn decode_inverts_encode(v: Bencode, rest: Seq<u8>, limits: DecodeLimits)
    requires
        canonical(v),
        height(v) <= limits.max_depth,
        size(v) <= limits.max_items,
        encode(v).len() + rest.len() <= limits.max_bytes,
    ensures
        parse_prefix(encode(v) + rest, limits) == Ok::<(Bencode, int), Error>(
            (v, encode(v).len() as int),
        ),
        parse_all(encode(v), limits) == Ok::<Bencode, Error>(v),
{
    let b = encode(v) + rest;
    assert(b.subrange(0, encode(v).len() as int) =~= encode(v));
    lemma_parse_value(b, 0, v, limits.max_depth as nat, limits.max_items as nat);
    assert(encode(v).subrange(0, encode(v).len() as int) =~= encode(v));
    lemma_parse_value(encode(v), 0, v, limits.max_depth as nat, limits.max_items as nat);
}

proof fn lemma_unpadded(s: Seq<u8>)
    requires
        s.len() > 0,
        forall|i: int| 0 <= i < s.len() ==> is_digit(#[trigger] s[i]),
        s[0] != 48 || s.len() == 1,
    ensures
        decimal(digits_value(s)) == s,
        s[0] != 48 ==> digits_value(s) > 0,
    decreases s.len(),
{
    let front = s.drop_last();
    let d = s.last() - 48;
    assert(is_digit(s[s.len() - 1]));
    if s.len() == 1 {
        assert(digits_value(front) == 0);
        assert(decimal(digits_value(s)) =~= s);
    } else {
        assert forall|i: int| 0 <= i < front.len() implies is_digit(#[trigger] front[i]) by {
            assert(front[i] == s[i]);
        }
        assert(front[0] == s[0]);
        lemma_unpadded(front);
        let v = digits_value(front);
        let n = digits_value(s);
        assert(n == v * 10 + d);
        assert(n / 10 == v && n % 10 == d);
        assert(decimal(n) =~= decimal(v).push((48 + d) as u8));
        assert(decimal(n) =~= s);
    }
}

proof fn lemma_run(b: Seq<u8>, pos: int)
    requires
        0 <= pos <= b.len(),
    ensures
        pos <= run_end(b, pos) <= b.len(),
        forall|i: int| pos <= i < run_end(b, pos) ==> is_digit(#[trigger] b[i]),
    decreases b.len() - pos,
{
    if pos < b.len() && is_digit(b[pos]) {
        lemma_run(b, pos + 1);
    }
}

/// A number is read only where it stands as it would be written: its digits without padding, and
/// behind them the byte that ends it.
pub proof fn numbers_are_read_as_written(b: Seq<u8>, pos: int, stop: u8, bad: Error)
    requires
        0 <= pos <= b.len(),
        scan_number(b, pos, stop, bad) is Ok,
    ensures
        ({
            let (n, next) = scan_number(b, pos, stop, bad)->Ok_0;
            &&& pos < next <= b.len()
            &&& b.subrange(pos, next) == decimal(n) + seq![stop]
        }),
{
    lemma_run(b, pos);
    let end = run_end(b, pos);
    let s = b.subrange(pos, end);
    assert forall|i: int| 0 <= i < s.len() implies is_digit(#[trigger] s[i]) by {
        assert(s[i] == b[pos + i]);
    }
    assert(s[0] == b[pos]);
    lemma_unpadded(s);
    assert(b.subrange(pos, end + 1) =~= s + seq![stop]);
}

/// An integer is read only where it stands as it would be written; so there is one way only to
/// write it, and none for a negative zero.
pub proof fn integers_are_read_as_written(b: Seq<u8>, pos: int)
    requires
        0 <= pos < b.len(),
        b[pos] == 105,
        parse_int(b, pos) is Ok,
    ensures
        ({
            let (i, next) = parse_int(b, pos)->Ok_0;
            &&& pos < next <= b.len()
            &&& b.subrange(pos, next) == encode(Bencode::Int(i))
            &&& i64::MIN <= i <= i64::MAX
        }),
{
    let negative = pos + 1 < b.len() && b[pos + 1] == 45;
    let from = if negative {
        pos + 2
    } else {
        pos + 1
    };
    numbers_are_read_as_written(b, from, 101, Error::InvalidInteger);
    let (n, next) = scan_number(b, from, 101, Error::InvalidInteger)->Ok_0;
    let i = parse_int(b, pos)->Ok_0.0;
    let digits = b.subrange(from, next);
    assert(b.subrange(pos, next) =~= seq![105u8] + signed_decimal(i) + seq![101u8]) by {
        let whole = b.subrange(pos, next);
        if negative {
            assert(whole =~= seq![105u8] + (seq![45u8] + digits));
        } else {
            assert(whole =~= seq![105u8] + digits);
        }
    }
}

/// A byte string is read only where it stands as it would be written: its length, a colon, and as
/// many bytes.
pub proof fn byte_strings_are_read_as_written(b: Seq<u8>, pos: int)
    requires
        0 <= pos <= b.len(),
        parse_bytes(b, pos) is Ok,
    ensures
        ({
            let (s, next) = parse_bytes(b, pos)->Ok_0;
            &&& pos < next <= b.len()
            &&& b.subrange(pos, next) == encode_bytes(s)
        }),
{
    numbers_are_read_as_written(b, pos, 58, Error::InvalidLength);
    let (n, start) = scan_number(b, pos, 58, Error::InvalidLength)->Ok_0;
    let s = b.subrange(start, start + n);
    assert(b.subrange(pos, start + n) =~= b.subrange(pos, start) + s);
}

/// The value under a key is that of the first entry with it, and there is one exactly where there
/// is such an entry.
pub proof fn the_first_entry_counts<T>(entries: Seq<(Seq<u8>, T)>, key: Seq<u8>)
    ensures
        lookup(entries, key) is None <==> (forall|i: int|
            0 <= i < entries.len() ==> (#[trigger] entries[i]).0 != key),
        forall|i: int|
            0 <= i < entries.len() && (#[trigger] entries[i]).0 == key && (forall|j: int|
                0 <= j < i ==> (#[trigger] entries[j]).0 != key) ==> lookup(entries, key) == Some(
                entries[i].1,
            ),
{
    lemma_first_in(entries, key);
    assert forall|i: int|
        0 <= i < entries.len() && (#[trigger] entries[i]).0 == key && (forall|j: int|
            0 <= j < i ==> (#[trigger] entries[j]).0 != key) implies lookup(entries, key) == Some(
        entries[i].1,
    ) by {
        lemma_first_with_key(entries, key, i);
    }
}

proof fn lemma_first_in<T>(entries: Seq<(Seq<u8>, T)>, key: Seq<u8>)
    ensures
        0 <= first_with_key(entries, key) <= entries.len(),
        forall|i: int| 0 <= i < first_with_key(entries, key) ==> (#[trigger] entries[i]).0 != key,
        first_with_key(entries, key) < entries.len() ==> entries[first_with_key(entries, key)].0
            == key,
    decreases entries.len(),
{
    if entries.len() > 0 && entries[0].0 != key {
        let rest = entries.drop_first();
        lemma_first_in(rest, key);
        assert forall|i: int| 0 <= i < first_with_key(entries, key) implies (
        #[trigger] entries[i]).0 != key by {
            if i > 0 {
                assert(rest[i - 1] == entries[i]);
            }
        }
    }
}

} // verus!
