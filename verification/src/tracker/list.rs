//! Lists of trackers, as they are typed.

use vstd::prelude::*;

use crate::text::{chars_views, from_chars, text_views, to_chars, trim_chars, trimmed};

verus! {

/// What trackers are separated by.
pub open spec fn separates(c: char) -> bool {
    c == ',' || c == '\n' || c == '\r'
}

/// The parts of a text between the separators.
pub open spec fn listed_parts(s: Seq<char>) -> Seq<Seq<char>>
    decreases s.len(),
{
    if s.len() == 0 {
        seq![seq![]]
    } else {
        let before = listed_parts(s.drop_last());
        if separates(s.last()) {
            before.push(seq![])
        } else {
            before.update(before.len() - 1, before.last().push(s.last()))
        }
    }
}

/// The names with those parts behind them that are not empty and not among them yet, without the
/// white space around them.
pub open spec fn with_names(names: Seq<Seq<char>>, parts: Seq<Seq<char>>) -> Seq<Seq<char>>
    decreases parts.len(),
{
    if parts.len() == 0 {
        names
    } else {
        let front = with_names(names, parts.drop_last());
        let name = trimmed(parts.last());
        if name.len() == 0 || front.contains(name) {
            front
        } else {
            front.push(name)
        }
    }
}

/// The trackers that several texts list, each once.
pub open spec fn listed(texts: Seq<Seq<char>>) -> Seq<Seq<char>>
    decreases texts.len(),
{
    if texts.len() == 0 {
        seq![]
    } else {
        with_names(listed(texts.drop_last()), listed_parts(texts.last()))
    }
}

fn split_listed(s: &[char]) -> (r: Vec<Vec<char>>)
    ensures
        chars_views(r@) == listed_parts(s@),
{
    let mut out: Vec<Vec<char>> = Vec::new();
    let mut part: Vec<char> = Vec::new();
    let mut i: usize = 0;
    proof {
        assert(s@.take(0) =~= seq![]);
        assert(chars_views(out@).push(part@) =~= listed_parts(s@.take(0)));
    }
    while i < s.len()
        invariant
            i <= s.len(),
            chars_views(out@).push(part@) == listed_parts(s@.take(i as int)),
        decreases s.len() - i,
    {
        let ghost before = out@;
        let ghost old_part = part@;
        assert(s@.take(i + 1).drop_last() =~= s@.take(i as int));
        let c = s[i];
        if c == ',' || c == '\n' || c == '\r' {
            out.push(part);
            part = Vec::new();
            assert(chars_views(out@) =~= chars_views(before).push(old_part));
            assert(chars_views(out@).push(part@) =~= listed_parts(s@.take(i + 1)));
        } else {
            part.push(c);
            assert(chars_views(out@).push(part@) =~= listed_parts(s@.take(i + 1)));
        }
        i += 1;
    }
    let ghost before = out@;
    let ghost last = part@;
    out.push(part);
    assert(s@.take(i as int) =~= s@);
    assert(chars_views(out@) =~= chars_views(before).push(last));
    out
}

/// True when a text is among some.
pub fn has_text(v: &Vec<String>, s: &str) -> (r: bool)
    ensures
        r == text_views(v@).contains(s@),
{
    let mut i: usize = 0;
    while i < v.len()
        invariant
            i <= v.len(),
            forall|j: int| 0 <= j < i ==> (#[trigger] v@[j])@ != s@,
        decreases v.len() - i,
    {
        if crate::text::same_text(v[i].as_str(), s) {
            assert(text_views(v@)[i as int] == s@);
            return true;
        }
        i += 1;
    }
    proof {
        if text_views(v@).contains(s@) {
            let j = choose|j: int| 0 <= j < v.len() && text_views(v@)[j] == s@;
            assert(v@[j]@ == s@);
        }
    }
    false
}

/// Put the trackers that a text lists behind those that are there.
pub fn add_listed(names: &mut Vec<String>, text: &str)
    ensures
        text_views(final(names)@) == with_names(text_views(old(names)@), listed_parts(text@)),
{
    let c = to_chars(text);
    let parts = split_listed(c.as_slice());
    let ghost all = chars_views(parts@);
    let ghost start = text_views(names@);
    let mut i: usize = 0;
    assert(all.take(0) =~= seq![]);
    while i < parts.len()
        invariant
            i <= parts.len(),
            all == chars_views(parts@),
            text_views(names@) == with_names(start, all.take(i as int)),
        decreases parts.len() - i,
    {
        assert(all.take(i + 1).drop_last() =~= all.take(i as int));
        let t = trim_chars(parts[i].as_slice());
        let name = from_chars(t.as_slice());
        if t.len() > 0 && !has_text(names, name.as_str()) {
            let ghost before = names@;
            let ghost new = name@;
            names.push(name);
            assert(text_views(names@) =~= text_views(before).push(new));
        }
        i += 1;
    }
    assert(all.take(i as int) =~= all);
}

/// The trackers that several texts list, each once.
pub fn expand_trackers(texts: &Vec<String>) -> (r: Vec<String>)
    ensures
        text_views(r@) == listed(text_views(texts@)),
{
    let mut out: Vec<String> = Vec::new();
    let ghost all = text_views(texts@);
    let mut i: usize = 0;
    assert(all.take(0) =~= seq![]);
    assert(text_views(out@) =~= seq![]);
    while i < texts.len()
        invariant
            i <= texts.len(),
            all == text_views(texts@),
            text_views(out@) == listed(all.take(i as int)),
        decreases texts.len() - i,
    {
        assert(all.take(i + 1).drop_last() =~= all.take(i as int));
        add_listed(&mut out, texts[i].as_str());
        i += 1;
    }
    assert(all.take(i as int) =~= all);
    out
}

/// However they are typed, every tracker is listed once, and none without a name.
pub proof fn trackers_are_listed_once(texts: Seq<Seq<char>>)
    ensures
        listed(texts).no_duplicates(),
        forall|i: int| 0 <= i < listed(texts).len() ==> (#[trigger] listed(texts)[i]).len() > 0,
    decreases texts.len(),
{
    if texts.len() > 0 {
        trackers_are_listed_once(texts.drop_last());
        lemma_names(listed(texts.drop_last()), listed_parts(texts.last()));
    }
}

proof fn lemma_names(names: Seq<Seq<char>>, parts: Seq<Seq<char>>)
    requires
        names.no_duplicates(),
        forall|i: int| 0 <= i < names.len() ==> (#[trigger] names[i]).len() > 0,
    ensures
        with_names(names, parts).no_duplicates(),
        forall|i: int|
            0 <= i < with_names(names, parts).len() ==> (#[trigger] with_names(
                names,
                parts,
            )[i]).len() > 0,
    decreases parts.len(),
{
    if parts.len() > 0 {
        lemma_names(names, parts.drop_last());
    }
}

proof fn lemma_pushed_name(s: Seq<Seq<char>>, last: Seq<char>, x: Seq<char>)
    ensures
        s.push(last).contains(x) <==> s.contains(x) || x == last,
{
    let t = s.push(last);
    assert(t[s.len() as int] == last);
    if s.contains(x) {
        let i = choose|i: int| 0 <= i < s.len() && s[i] == x;
        assert(t[i] == x);
    }
    if t.contains(x) {
        let i = choose|i: int| 0 <= i < t.len() && t[i] == x;
        if i < s.len() {
            assert(s[i] == x);
        }
    }
}

/// True when a tracker is one of the parts, without the white space around it.
pub open spec fn is_part(parts: Seq<Seq<char>>, name: Seq<char>) -> bool {
    name.len() > 0 && exists|i: int| 0 <= i < parts.len() && name == trimmed(#[trigger] parts[i])
}

proof fn lemma_all_names(names: Seq<Seq<char>>, parts: Seq<Seq<char>>)
    ensures
        names.is_prefix_of(with_names(names, parts)),
        forall|x: Seq<char>| #[trigger]
            with_names(names, parts).contains(x) <==> names.contains(x) || is_part(parts, x),
    decreases parts.len(),
{
    if parts.len() > 0 {
        let front = parts.drop_last();
        let before = with_names(names, front);
        let name = trimmed(parts.last());
        let out = with_names(names, parts);
        lemma_all_names(names, front);
        assert(parts[parts.len() - 1] == parts.last());
        assert forall|x: Seq<char>| #[trigger] out.contains(x) <==> names.contains(x) || is_part(
            parts,
            x,
        ) by {
            lemma_pushed_name(before, name, x);
            assert(before.contains(x) <==> names.contains(x) || is_part(front, x));
            if is_part(front, x) {
                let i = choose|i: int| 0 <= i < front.len() && x == trimmed(#[trigger] front[i]);
                assert(parts[i] == front[i]);
            }
            if is_part(parts, x) {
                let i = choose|i: int| 0 <= i < parts.len() && x == trimmed(#[trigger] parts[i]);
                if i < front.len() {
                    assert(parts[i] == front[i]);
                }
            }
            if name.len() > 0 {
                assert(is_part(parts, name));
            }
        }
    }
}

/// Every tracker that a text lists is listed, and no other; those of earlier texts come first.
pub proof fn every_tracker_is_listed(texts: Seq<Seq<char>>)
    ensures
        forall|x: Seq<char>| #[trigger]
            listed(texts).contains(x) <==> exists|k: int|
                0 <= k < texts.len() && is_part(listed_parts(#[trigger] texts[k]), x),
        texts.len() > 0 ==> listed(texts.drop_last()).is_prefix_of(listed(texts)),
    decreases texts.len(),
{
    if texts.len() > 0 {
        let front = texts.drop_last();
        every_tracker_is_listed(front);
        lemma_all_names(listed(front), listed_parts(texts.last()));
        assert(texts[texts.len() - 1] == texts.last());
        assert forall|x: Seq<char>| #[trigger] listed(texts).contains(x) <==> exists|k: int|
            0 <= k < texts.len() && is_part(listed_parts(#[trigger] texts[k]), x) by {
            if listed(front).contains(x) {
                let k = choose|k: int|
                    0 <= k < front.len() && is_part(listed_parts(#[trigger] front[k]), x);
                assert(texts[k] == front[k]);
            }
            if exists|k: int| 0 <= k < texts.len() && is_part(listed_parts(#[trigger] texts[k]), x) {
                let k = choose|k: int|
                    0 <= k < texts.len() && is_part(listed_parts(#[trigger] texts[k]), x);
                if k < front.len() {
                    assert(texts[k] == front[k]);
                }
            }
        }
    }
}

/// The parts of a text, with the separators between them, are the text: a part holds no comma and
/// no end of a line, and there is one part more than there are of these.
pub proof fn parts_are_between_separators(s: Seq<char>)
    ensures
        listed_parts(s).len() > 0,
        forall|k: int, i: int|
            0 <= k < listed_parts(s).len() && 0 <= i < listed_parts(s)[k].len() ==> {
                let c = #[trigger] listed_parts(s)[k][i];
                c != ',' && c != '\n' && c != '\r'
            },
        (forall|i: int|
            0 <= i < s.len() ==> (#[trigger] s[i]) != ',' && s[i] != '\n' && s[i] != '\r')
            ==> listed_parts(s) == seq![s],
        s.len() > 0 && (s.last() == ',' || s.last() == '\n' || s.last() == '\r') ==> listed_parts(s)
            == listed_parts(s.drop_last()).push(seq![]),
    decreases s.len(),
{
    if s.len() > 0 {
        let front = s.drop_last();
        let before = listed_parts(front);
        parts_are_between_separators(front);
        let out = listed_parts(s);
        assert forall|k: int, i: int| 0 <= k < out.len() && 0 <= i < out[k].len() implies {
            let c = #[trigger] out[k][i];
            c != ',' && c != '\n' && c != '\r'
        } by {
            if k < before.len() && i < before[k].len() {
                assert(out[k][i] == before[k][i]);
                let c = before[k][i];
            }
        }
        if forall|i: int|
            0 <= i < s.len() ==> (#[trigger] s[i]) != ',' && s[i] != '\n' && s[i] != '\r' {
            assert forall|i: int| 0 <= i < front.len() implies (#[trigger] front[i]) != ','
                && front[i] != '\n' && front[i] != '\r' by {
                assert(front[i] == s[i]);
            }
            assert(s[s.len() - 1] == s.last());
            assert(front.push(s.last()) =~= s);
            assert(out =~= seq![s]);
        }
    } else {
        assert(s =~= seq![]);
    }
}

} // verus!
