//! Tables: values under keys that can be compared.

use vstd::prelude::*;

use crate::meta::hash::Id20;

verus! {

/// Keys that can be compared.
pub trait Same: Sized + Copy {
    fn same(&self, other: &Self) -> (r: bool)
        ensures
            r == (*self == *other),
    ;
}

impl Same for Id20 {
    fn same(&self, other: &Self) -> (r: bool) {
        *self == *other
    }
}

impl Same for usize {
    fn same(&self, other: &Self) -> (r: bool) {
        *self == *other
    }
}

/// The map that entries make; the later of two under one key counts.
pub open spec fn table_of<K, V>(s: Seq<(K, V)>) -> Map<K, V>
    decreases s.len(),
{
    if s.len() == 0 {
        Map::empty()
    } else {
        table_of(s.drop_last()).insert(s.last().0, s.last().1)
    }
}

/// The value under a key.
pub open spec fn under<K, V>(m: Map<K, V>, key: K) -> Option<V> {
    if m.contains_key(key) {
        Some(m[key])
    } else {
        None
    }
}

/// Values under keys.
#[derive(Debug)]
pub struct Table<K, V> {
    entries: Vec<(K, V)>,
}

impl<K, V> View for Table<K, V> {
    type V = Map<K, V>;

    closed spec fn view(&self) -> Map<K, V> {
        table_of(self.entries@)
    }
}

proof fn lemma_replaced<K, V>(s: Seq<(K, V)>, i: int, e: (K, V))
    requires
        0 <= i < s.len(),
        s[i].0 == e.0,
        forall|j: int| i < j < s.len() ==> (#[trigger] s[j]).0 != e.0,
    ensures
        table_of(s.update(i, e)) == table_of(s).insert(e.0, e.1),
    decreases s.len(),
{
    let t = s.update(i, e);
    if i == s.len() - 1 {
        assert(t.drop_last() =~= s.drop_last());
        assert(table_of(t) =~= table_of(s).insert(e.0, e.1));
    } else {
        lemma_replaced(s.drop_last(), i, e);
        assert(t.drop_last() =~= s.drop_last().update(i, e));
        assert(t.last() == s.last());
        assert(s[s.len() - 1].0 != e.0);
        assert(table_of(t) =~= table_of(s).insert(e.0, e.1));
    }
}

impl<K: Same, V> Table<K, V> {
    pub fn new() -> (r: Self)
        ensures
            r@ == Map::<K, V>::empty(),
    {
        Table { entries: Vec::new() }
    }

    fn find(&self, key: &K) -> (r: Option<usize>)
        ensures
            match r {
                Some(i) => {
                    &&& i < self.entries.len()
                    &&& self.entries@[i as int].0 == *key
                    &&& forall|j: int|
                        i < j < self.entries.len() ==> (#[trigger] self.entries@[j]).0 != *key
                    &&& self@.contains_key(*key)
                    &&& self@[*key] == self.entries@[i as int].1
                },
                None => !self@.contains_key(*key),
            },
    {
        let ghost all = self.entries@;
        let mut n: usize = self.entries.len();
        assert(all.take(n as int) =~= all);
        while n > 0
            invariant
                n <= self.entries.len(),
                self.entries@ == all,
                forall|j: int| n <= j < all.len() ==> (#[trigger] all[j]).0 != *key,
                under(table_of(all), *key) == under(table_of(all.take(n as int)), *key),
            decreases n,
        {
            assert(all.take(n as int).drop_last() =~= all.take(n - 1));
            if self.entries[n - 1].0.same(key) {
                return Some(n - 1);
            }
            n -= 1;
        }
        None
    }

    pub fn get(&self, key: &K) -> (r: Option<&V>)
        ensures
            match under(self@, *key) {
                Some(v) => r == Some(&v),
                None => r is None,
            },
    {
        match self.find(key) {
            Some(i) => Some(&self.entries[i].1),
            None => None,
        }
    }

    pub fn contains_key(&self, key: &K) -> (r: bool)
        ensures
            r == self@.contains_key(*key),
    {
        match self.find(key) {
            Some(_) => true,
            None => false,
        }
    }

    pub fn insert(&mut self, key: K, value: V)
        ensures
            final(self)@ == old(self)@.insert(key, value),
    {
        let ghost before = self.entries@;
        match self.find(&key) {
            Some(i) => {
                proof {
                    lemma_replaced(before, i as int, (key, value));
                }
                self.entries.set(i, (key, value));
            },
            None => {
                self.entries.push((key, value));
                assert(self.entries@.drop_last() =~= before);
            },
        }
    }

    /// The keys, each once.
    pub fn keys(&self) -> (r: Vec<K>)
        ensures
            forall|k: K| #[trigger] r@.contains(k) <==> self@.contains_key(k),
            r@.no_duplicates(),
    {
        let mut out: Vec<K> = Vec::new();
        let mut i: usize = 0;
        let ghost all = self.entries@;
        assert(all.take(0) =~= seq![]);
        while i < self.entries.len()
            invariant
                i <= self.entries.len(),
                all == self.entries@,
                forall|k: K| #[trigger]
                    out@.contains(k) <==> table_of(all.take(i as int)).contains_key(k),
                out@.no_duplicates(),
            decreases self.entries.len() - i,
        {
            assert(all.take(i + 1).drop_last() =~= all.take(i as int));
            let key = self.entries[i].0;
            let ghost before = out@;
            if !has_key(&out, &key) {
                out.push(key);
                assert forall|k: K| #[trigger] out@.contains(k) <==> table_of(
                    all.take(i + 1),
                ).contains_key(k) by {
                    if before.contains(k) {
                        let j = choose|j: int| 0 <= j < before.len() && before[j] == k;
                        assert(out@[j] == k);
                    }
                    if k == key {
                        assert(out@[before.len() as int] == k);
                    }
                    if out@.contains(k) {
                        let j = choose|j: int| 0 <= j < out@.len() && out@[j] == k;
                        if j < before.len() {
                            assert(before[j] == k);
                        }
                    }
                }
            }
            i += 1;
        }
        assert(all.take(i as int) =~= all);
        out
    }

    pub fn remove(&mut self, key: &K)
        ensures
            final(self)@ == old(self)@.remove(*key),
    {
        let ghost before = self.entries@;
        let mut i: usize = 0;
        while i < self.entries.len()
            invariant
                i <= self.entries.len(),
                table_of(self.entries@).remove(*key) == table_of(before).remove(*key),
                forall|j: int| 0 <= j < i ==> (#[trigger] self.entries@[j]).0 != *key,
            decreases self.entries.len() - i,
        {
            let ghost now = self.entries@;
            if self.entries[i].0.same(key) {
                let _ = self.entries.remove(i);
                proof {
                    lemma_removed(now, i as int);
                    assert(self.entries@ =~= now.remove(i as int));
                }
            } else {
                i += 1;
            }
        }
        proof {
            lemma_absent(self.entries@, *key);
            assert(table_of(self.entries@) =~= table_of(self.entries@).remove(*key));
        }
    }
}

fn has_key<K: Same>(v: &Vec<K>, key: &K) -> (r: bool)
    ensures
        r == v@.contains(*key),
{
    let mut i: usize = 0;
    while i < v.len()
        invariant
            i <= v.len(),
            forall|j: int| 0 <= j < i ==> v@[j] != *key,
        decreases v.len() - i,
    {
        if v[i].same(key) {
            return true;
        }
        i += 1;
    }
    false
}

proof fn lemma_removed<K, V>(s: Seq<(K, V)>, i: int)
    requires
        0 <= i < s.len(),
    ensures
        table_of(s.remove(i)).remove(s[i].0) == table_of(s).remove(s[i].0),
    decreases s.len(),
{
    let t = s.remove(i);
    if i == s.len() - 1 {
        assert(t =~= s.drop_last());
        assert(table_of(t).remove(s[i].0) =~= table_of(s).remove(s[i].0));
    } else {
        let rest = s.drop_last();
        let key = s[i].0;
        lemma_removed(rest, i);
        assert(rest[i] == s[i]);
        assert(t.len() == s.len() - 1);
        assert(t.drop_last() =~= rest.remove(i));
        assert(t.last() == s.last());
        let a = table_of(rest.remove(i));
        let b = table_of(rest);
        assert(a.remove(key) == b.remove(key));
        let x = s.last().0;
        let y = s.last().1;
        assert(table_of(t) == a.insert(x, y));
        assert(table_of(s) == b.insert(x, y));
        lemma_insert_remove(a, key, x, y);
        lemma_insert_remove(b, key, x, y);
    }
}

proof fn lemma_insert_remove<K, V>(m: Map<K, V>, key: K, x: K, y: V)
    ensures
        m.insert(x, y).remove(key) == (if x == key {
            m.remove(key)
        } else {
            m.remove(key).insert(x, y)
        }),
{
    if x == key {
        assert(m.insert(x, y).remove(key) =~= m.remove(key));
    } else {
        assert(m.insert(x, y).remove(key) =~= m.remove(key).insert(x, y));
    }
}

proof fn lemma_absent<K, V>(s: Seq<(K, V)>, key: K)
    requires
        forall|j: int| 0 <= j < s.len() ==> (#[trigger] s[j]).0 != key,
    ensures
        !table_of(s).contains_key(key),
    decreases s.len(),
{
    if s.len() > 0 {
        assert(s[s.len() - 1].0 != key);
        lemma_absent(s.drop_last(), key);
    }
}

} // verus!
