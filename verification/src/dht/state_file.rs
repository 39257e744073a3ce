//! The contacts that a node remembers between runs.

use vstd::prelude::*;

use crate::dht::endpoint::{routable, valid_dht_endpoint};
use crate::meta::hash::{id20_is_its_bytes, id20_of, Id20};
use crate::meta::hex::{hex_bytes, hex_decode, hex_round_trip, hex_text};
use crate::net::SocketAddr;
use crate::text::{
    chars_views, find_char, first_char, from_chars, lemma_first_char, lines, lines_of, same_text,
    sub_chars, to_chars, without_return,
};

verus! {

/// How many contacts are remembered.
pub const MAX_PERSISTED_ROUTES: usize = 4096;

/// The first line of the file.
pub open spec fn header() -> Seq<char> {
    "risuko-dht-routing-v1"@
}

/// The contacts that are worth remembering: those that can be reached, each once, up to a limit.
pub open spec fn admitted(routes: Seq<(Id20, SocketAddr)>) -> Seq<(Id20, SocketAddr)>
    decreases routes.len(),
{
    if routes.len() == 0 {
        seq![]
    } else {
        let front = admitted(routes.drop_last());
        let last = routes.last();
        if front.len() < MAX_PERSISTED_ROUTES && routable(last.1) && !front.contains(last) {
            front.push(last)
        } else {
            front
        }
    }
}

fn has_route(list: &Vec<(Id20, SocketAddr)>, route: &(Id20, SocketAddr)) -> (r: bool)
    ensures
        r == list@.contains(*route),
{
    let mut i: usize = 0;
    while i < list.len()
        invariant
            i <= list.len(),
            forall|j: int| 0 <= j < i ==> list@[j] != *route,
        decreases list.len() - i,
    {
        if list[i].0 == route.0 && list[i].1 == route.1 {
            assert(list@[i as int] == *route);
            return true;
        }
        i += 1;
    }
    false
}

/// The contacts that are worth remembering.
pub fn admit_routes(routes: &Vec<(Id20, SocketAddr)>) -> (r: Vec<(Id20, SocketAddr)>)
    ensures
        r@ == admitted(routes@),
        r.len() <= MAX_PERSISTED_ROUTES,
{
    let mut out: Vec<(Id20, SocketAddr)> = Vec::new();
    let mut i: usize = 0;
    assert(routes@.take(0) =~= seq![]);
    while i < routes.len()
        invariant
            i <= routes.len(),
            out@ == admitted(routes@.take(i as int)),
            out.len() <= MAX_PERSISTED_ROUTES,
        decreases routes.len() - i,
    {
        assert(routes@.take(i + 1).drop_last() =~= routes@.take(i as int));
        if out.len() < MAX_PERSISTED_ROUTES && valid_dht_endpoint(&routes[i].1) && !has_route(
            &out,
            &routes[i],
        ) {
            out.push(routes[i]);
        }
        i += 1;
    }
    assert(routes@.take(i as int) =~= routes@);
    out
}

/// One line of the file: an identifier, a tab, and the text of an address.
pub open spec fn route_of(line: Seq<char>) -> Option<(Id20, Seq<char>)> {
    let tab = first_char(line, '\t');
    if tab >= line.len() {
        None
    } else {
        match hex_bytes(line.take(tab)) {
            Some(b) => if b.len() == 20 {
                Some((id20_of(b), line.skip(tab + 1)))
            } else {
                None
            },
            None => None,
        }
    }
}

/// The lines that can be read; headers at the front are passed over.
pub open spec fn routes_of(lines: Seq<Seq<char>>, in_front: bool) -> Seq<(Id20, Seq<char>)>
    decreases lines.len(),
{
    if lines.len() == 0 {
        seq![]
    } else if in_front && lines[0] == header() {
        routes_of(lines.drop_first(), true)
    } else {
        (match route_of(lines[0]) {
            Some(route) => seq![route],
            None => seq![],
        }) + routes_of(lines.drop_first(), false)
    }
}

/// The mathematical values of contacts whose addresses are still text.
pub open spec fn route_views(v: Seq<(Id20, String)>) -> Seq<(Id20, Seq<char>)> {
    Seq::new(v.len(), |i: int| (v[i].0, v[i].1@))
}

fn read_route(line: &Vec<char>) -> (r: Option<(Id20, String)>)
    ensures
        match route_of(line@) {
            Some(route) => r matches Some(x) && (x.0, x.1@) == route,
            None => r is None,
        },
{
    let tab: usize = find_char(line.as_slice(), '\t', 0);
    assert(line@.skip(0) =~= line@);
    if tab == line.len() {
        return None;
    }
    let digits = sub_chars(line.as_slice(), 0, tab);
    assert(digits@ =~= line@.take(tab as int));
    let bytes = match hex_decode(from_chars(digits.as_slice()).as_str()) {
        Some(b) => b,
        None => {
            return None;
        },
    };
    let id = match Id20::from_slice(bytes.as_slice()) {
        Some(id) => id,
        None => {
            return None;
        },
    };
    let addr = sub_chars(line.as_slice(), tab + 1, line.len());
    assert(addr@ =~= line@.skip(tab + 1));
    Some((id, from_chars(addr.as_slice())))
}

fn is_header(line: &Vec<char>) -> (r: bool)
    ensures
        r == (line@ == header()),
{
    same_text(from_chars(line.as_slice()).as_str(), "risuko-dht-routing-v1")
}

/// Read the file: each contact with the text of its address.
pub fn parse_routing_state(text: &str) -> (r: Vec<(Id20, String)>)
    ensures
        route_views(r@) == routes_of(lines_of(text@), true),
{
    let all = lines(to_chars(text).as_slice());
    let ghost views = chars_views(all@);
    let mut out: Vec<(Id20, String)> = Vec::new();
    let mut i: usize = 0;
    let mut in_front = true;
    proof {
        assert(views.skip(0) =~= views);
        assert(route_views(out@) + routes_of(views, true) =~= routes_of(views, true));
    }
    while i < all.len()
        invariant
            i <= all.len(),
            views == chars_views(all@),
            route_views(out@) + routes_of(views.skip(i as int), in_front) == routes_of(views, true),
        decreases all.len() - i,
    {
        let ghost rest = views.skip(i as int);
        let ghost before = out@;
        proof {
            assert(rest[0] == all@[i as int]@);
            assert(rest.drop_first() =~= views.skip(i + 1));
        }
        if in_front && is_header(&all[i]) {
        } else {
            in_front = false;
            match read_route(&all[i]) {
                Some(route) => {
                    out.push(route);
                    proof {
                        assert(route_views(out@) =~= route_views(before).push(
                            (route.0, route.1@),
                        ));
                        assert(route_views(out@) + routes_of(views.skip(i + 1), false)
                            =~= route_views(before) + routes_of(rest, false));
                    }
                },
                None => {
                    assert(routes_of(rest, false) =~= routes_of(views.skip(i + 1), false));
                },
            }
        }
        i += 1;
    }
    assert(views.skip(i as int) =~= seq![]);
    assert(route_views(out@) =~= routes_of(views, true));
    out
}

/// The lines of contacts.
pub open spec fn route_lines(routes: Seq<(Id20, Seq<char>)>) -> Seq<char>
    decreases routes.len(),
{
    if routes.len() == 0 {
        seq![]
    } else {
        route_lines(routes.drop_last()) + hex_text(routes.last().0@) + seq!['\t'] + routes.last().1
            + seq!['\n']
    }
}

/// Write the file.
pub fn routing_state_text(routes: &Vec<(Id20, String)>) -> (r: String)
    ensures
        r@ == header() + seq!['\n'] + route_lines(route_views(routes@)),
{
    proof {
        reveal_strlit("\n");
        reveal_strlit("\t");
    }
    let mut out = "risuko-dht-routing-v1".to_owned();
    out.append("\n");
    let mut i: usize = 0;
    let ghost views = route_views(routes@);
    assert(views.take(0) =~= seq![]);
    assert(out@ =~= header() + seq!['\n'] + route_lines(views.take(0)));
    while i < routes.len()
        invariant
            i <= routes.len(),
            views == route_views(routes@),
            "\n"@ == seq!['\n'],
            "\t"@ == seq!['\t'],
            out@ == header() + seq!['\n'] + route_lines(views.take(i as int)),
        decreases routes.len() - i,
    {
        let ghost before = out@;
        out.append(routes[i].0.to_hex().as_str());
        out.append("\t");
        out.append(routes[i].1.as_str());
        out.append("\n");
        proof {
            let next = views.take(i + 1);
            assert(next.drop_last() =~= views.take(i as int));
            assert(next.last() == (routes@[i as int].0, routes@[i as int].1@));
            assert(out@ =~= header() + seq!['\n'] + route_lines(next));
        }
        i += 1;
    }
    assert(views.take(i as int) =~= views);
    out
}

/// True of the texts that can stand behind a tab in a line.
pub open spec fn fits_line(s: Seq<char>) -> bool {
    !s.contains('\n') && !(s.len() > 0 && s.last() == '\r')
}

spec fn route_line(route: (Id20, Seq<char>)) -> Seq<char> {
    hex_text(route.0@) + seq!['\t'] + route.1
}

proof fn lemma_line(a: Seq<char>, rest: Seq<char>)
    requires
        !a.contains('\n'),
    ensures
        lines_of(a + seq!['\n'] + rest) == seq![without_return(a)] + lines_of(rest),
{
    let s = a + seq!['\n'] + rest;
    assert forall|j: int| 0 <= j < a.len() implies s[j] != '\n' by {
        assert(a.contains(a[j]));
    }
    lemma_first_char(s, '\n', a.len() as int);
    assert(s.take(a.len() as int) =~= a);
    assert(s.skip(a.len() as int + 1) =~= rest);
}

proof fn lemma_route_line(route: (Id20, Seq<char>))
    requires
        fits_line(route.1),
    ensures
        !route_line(route).contains('\n'),
        without_return(route_line(route)) == route_line(route),
        route_of(route_line(route)) == Some(route),
        route_line(route) != header(),
{
    let digits = hex_text(route.0@);
    let line = route_line(route);
    assert forall|i: int| 0 <= i < digits.len() implies digits[i] != '\t' && digits[i] != '\n' by {
        let n = if i % 2 == 0 {
            route.0@[i / 2] as int / 16
        } else {
            route.0@[i / 2] as int % 16
        };
        assert(0 <= n < 16);
    }
    assert forall|i: int| 0 <= i < line.len() implies line[i] != '\n' by {
        if i > digits.len() {
            assert(route.1.contains(route.1[i - digits.len() - 1]));
        }
    }
    lemma_first_char(line, '\t', digits.len() as int);
    assert(line.take(digits.len() as int) =~= digits);
    assert(line.skip(digits.len() as int + 1) =~= route.1);
    hex_round_trip(route.0@);
    id20_is_its_bytes(route.0);
    reveal_strlit("risuko-dht-routing-v1");
    assert(line[40] == '\t');
    assert(header().len() == 21);
}

proof fn lemma_lines_front(routes: Seq<(Id20, Seq<char>)>)
    requires
        routes.len() > 0,
    ensures
        route_lines(routes) == route_line(routes[0]) + seq!['\n'] + route_lines(
            routes.drop_first(),
        ),
    decreases routes.len(),
{
    let rest = routes.drop_first();
    if routes.len() == 1 {
        assert(rest =~= seq![]);
        assert(routes.drop_last() =~= seq![]);
        assert(route_lines(routes) =~= route_line(routes[0]) + seq!['\n'] + route_lines(rest));
    } else {
        let front = routes.drop_last();
        lemma_lines_front(front);
        assert(front.drop_first() =~= rest.drop_last());
        assert(route_lines(routes) =~= route_line(routes[0]) + seq!['\n'] + route_lines(rest));
    }
}

proof fn lemma_read_lines(routes: Seq<(Id20, Seq<char>)>)
    requires
        forall|i: int| 0 <= i < routes.len() ==> fits_line((#[trigger] routes[i]).1),
    ensures
        routes_of(lines_of(route_lines(routes)), false) == routes,
        routes_of(lines_of(route_lines(routes)), true) == routes,
    decreases routes.len(),
{
    if routes.len() > 0 {
        let rest = routes.drop_first();
        let line = route_line(routes[0]);
        assert forall|i: int| 0 <= i < rest.len() implies fits_line((#[trigger] rest[i]).1) by {
            assert(rest[i] == routes[i + 1]);
        }
        lemma_read_lines(rest);
        lemma_lines_front(routes);
        lemma_route_line(routes[0]);
        lemma_line(line, route_lines(rest));
        let all = lines_of(route_lines(routes));
        assert(all.drop_first() =~= lines_of(route_lines(rest)));
        assert(all[0] == line);
        assert(routes_of(all, false) =~= routes);
    }
}

/// Reading the file gives back the contacts that were written, wherever the text of an address
/// fits into a line.
pub proof fn routing_state_round_trip(routes: Seq<(Id20, Seq<char>)>)
    requires
        forall|i: int| 0 <= i < routes.len() ==> fits_line((#[trigger] routes[i]).1),
    ensures
        routes_of(lines_of(header() + seq!['\n'] + route_lines(routes)), true) == routes,
{
    reveal_strlit("risuko-dht-routing-v1");
    assert(!header().contains('\n'));
    lemma_line(header(), route_lines(routes));
    lemma_read_lines(routes);
    let all = lines_of(header() + seq!['\n'] + route_lines(routes));
    assert(without_return(header()) == header());
    assert(all.drop_first() =~= lines_of(route_lines(routes)));
    assert(all[0] == header());
}

proof fn lemma_pushed_item<T>(s: Seq<T>, last: T, x: T)
    ensures
        s.push(last).contains(x) <==> s.contains(x) || x == last,
{
    let t = s.push(last);
    assert(t[s.len() as int] == last);
    if s.contains(x) {
        let i = choose|i: int| 0 <= i < s.len() && s[i] == x;
        assert(t[i] == x);
    }
    if t.contains(x) {
        let i = choose|i: int| 0 <= i < t.len() && t[i] == x;
        if i < s.len() {
            assert(s[i] == x);
        }
    }
}

/// Of the contacts those that can be reached are remembered, each once and in their order; at most
/// 4096, and where there are fewer none is left out.
pub proof fn which_contacts_are_remembered(routes: Seq<(Id20, SocketAddr)>)
    ensures
        admitted(routes).len() <= 4096,
        admitted(routes).no_duplicates(),
        forall|x: (Id20, SocketAddr)| #[trigger]
            admitted(routes).contains(x) ==> routes.contains(x) && routable(x.1),
        admitted(routes).len() < 4096 ==> forall|x: (Id20, SocketAddr)|
            routes.contains(x) && routable(x.1) ==> #[trigger] admitted(routes).contains(x),
        routes.len() > 0 ==> admitted(routes.drop_last()).is_prefix_of(admitted(routes)),
    decreases routes.len(),
{
    if routes.len() > 0 {
        let front = routes.drop_last();
        let last = routes.last();
        which_contacts_are_remembered(front);
        assert(routes =~= front.push(last));
        let before = admitted(front);
        let out = admitted(routes);
        assert forall|x: (Id20, SocketAddr)| #[trigger] out.contains(x) implies routes.contains(x)
            && routable(x.1) by {
            lemma_pushed_item(before, last, x);
            lemma_pushed_item(front, last, x);
            assert(before.contains(x) ==> front.contains(x));
        }
        if out.len() < 4096 {
            assert forall|x: (Id20, SocketAddr)|
                routes.contains(x) && routable(x.1) implies #[trigger] out.contains(x) by {
                lemma_pushed_item(front, last, x);
                lemma_pushed_item(before, last, x);
            }
        }
    }
}

} // verus!
