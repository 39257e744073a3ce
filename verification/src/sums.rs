//! Sums over the items of a sequence.

use vstd::prelude::*;

verus! {

/// The sum of `f` over the items.
pub open spec fn total<T>(s: Seq<T>, f: spec_fn(T) -> nat) -> nat
    decreases s.len(),
{
    if s.len() == 0 {
        0
    } else {
        total(s.drop_last(), f) + f(s.last())
    }
}

/// One item more adds what it weighs, wherever it goes.
pub proof fn total_of_insert<T>(s: Seq<T>, i: int, x: T, f: spec_fn(T) -> nat)
    requires
        0 <= i <= s.len(),
    ensures
        total(s.insert(i, x), f) == total(s, f) + f(x),
    decreases s.len(),
{
    let t = s.insert(i, x);
    if i == s.len() {
        assert(t.drop_last() =~= s);
    } else {
        assert(t.drop_last() =~= s.drop_last().insert(i, x));
        assert(t.last() == s.last());
        total_of_insert(s.drop_last(), i, x, f);
    }
}

/// One item less takes away what it weighed.
pub proof fn total_of_remove<T>(s: Seq<T>, i: int, f: spec_fn(T) -> nat)
    requires
        0 <= i < s.len(),
    ensures
        total(s, f) == total(s.remove(i), f) + f(s[i]),
{
    assert(s.remove(i).insert(i, s[i]) =~= s);
    total_of_insert(s.remove(i), i, s[i], f);
}

/// An item in place of another changes the sum by the difference.
pub proof fn total_of_update<T>(s: Seq<T>, i: int, x: T, f: spec_fn(T) -> nat)
    requires
        0 <= i < s.len(),
    ensures
        total(s.update(i, x), f) + f(s[i]) == total(s, f) + f(x),
{
    let t = s.update(i, x);
    assert(t.remove(i) =~= s.remove(i));
    total_of_remove(s, i, f);
    total_of_remove(t, i, f);
}

/// Where every item weighs at most its counterpart, so does the sum.
pub proof fn total_is_monotone<T>(s: Seq<T>, f: spec_fn(T) -> nat, g: spec_fn(T) -> nat)
    requires
        forall|i: int| 0 <= i < s.len() ==> f(#[trigger] s[i]) <= g(s[i]),
    ensures
        total(s, f) <= total(s, g),
    decreases s.len(),
{
    if s.len() > 0 {
        total_is_monotone(s.drop_last(), f, g);
    }
}

} // verus!
