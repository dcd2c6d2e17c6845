//! A map from strings to strings, kept as the sequence of insertions
//! (later pairs win), with the map it stands for as its view.

use vstd::prelude::*;
use crate::text::{chars_eq, chars_of, keys_view, slice_chars, string_of};

verus! {

/// The value that the last pair with key `k` carries (later pairs win).
pub open spec fn lookup(ps: Seq<(Seq<char>, Seq<char>)>, k: Seq<char>) -> Option<Seq<char>>
    decreases ps.len(),
{
    if ps.len() == 0 {
        None
    } else if ps.last().0 == k {
        Some(ps.last().1)
    } else {
        lookup(ps.drop_last(), k)
    }
}

pub proof fn lemma_lookup_some(ps: Seq<(Seq<char>, Seq<char>)>, k: Seq<char>)
    ensures
        lookup(ps, k) is Some <==> exists|i: int| 0 <= i < ps.len() && (#[trigger] ps[i]).0 == k,
    decreases ps.len(),
{
    if ps.len() > 0 {
        lemma_lookup_some(ps.drop_last(), k);
        if ps.last().0 != k {
            if exists|i: int| 0 <= i < ps.len() && (#[trigger] ps[i]).0 == k {
                let i = choose|i: int| 0 <= i < ps.len() && (#[trigger] ps[i]).0 == k;
                assert(ps.drop_last()[i].0 == k);
            }
        }
    }
}

/// A map from strings to strings. Inserting a key that is already there
/// replaces its value.
#[derive(Debug)]
pub struct StrMap {
    entries: Vec<(Vec<char>, Vec<char>)>,
}

pub open spec fn pairs_of(v: Seq<(Vec<char>, Vec<char>)>) -> Seq<(Seq<char>, Seq<char>)> {
    v.map_values(|e: (Vec<char>, Vec<char>)| pair_view(e))
}

pub open spec fn pair_view(e: (Vec<char>, Vec<char>)) -> (Seq<char>, Seq<char>) {
    (e.0@, e.1@)
}

impl View for StrMap {
    type V = Map<Seq<char>, Seq<char>>;

    closed spec fn view(&self) -> Map<Seq<char>, Seq<char>> {
        let ps = pairs_of(self.entries@);
        Map::new(|k: Seq<char>| lookup(ps, k) is Some, |k: Seq<char>| lookup(ps, k)->Some_0)
    }
}

/// The entry of `m` at `k`, as an option.
pub open spec fn entry(m: Map<Seq<char>, Seq<char>>, k: Seq<char>) -> Option<Seq<char>> {
    if m.dom().contains(k) {
        Some(m[k])
    } else {
        None
    }
}

impl StrMap {
    closed spec fn pairs(&self) -> Seq<(Seq<char>, Seq<char>)> {
        pairs_of(self.entries@)
    }

    pub fn new() -> (m: StrMap)
        ensures
            m@ == Map::<Seq<char>, Seq<char>>::empty(),
    {
        let m = StrMap { entries: Vec::new() };
        assert(m@ =~= Map::<Seq<char>, Seq<char>>::empty());
        m
    }

    /// Records `value` at `key`.
    pub fn insert(&mut self, key: &str, value: &str)
        ensures
            final(self)@ == old(self)@.insert(key@, value@),
    {
        self.put(&chars_of(key), &chars_of(value));
    }

    /// Records `value` at `key`, both given as characters.
    pub fn put(&mut self, key: &[char], value: &[char])
        ensures
            final(self)@ == old(self)@.insert(key@, value@),
    {
        let p = slice_chars(key, 0, key.len());
        let s = slice_chars(value, 0, value.len());
        assert(p@ =~= key@);
        assert(s@ =~= value@);
        let ghost old_pairs = self.pairs();
        self.entries.push((p, s));
        proof {
            assert(self.pairs() =~= old_pairs.push((key@, value@)));
            assert forall|k: Seq<char>| #[trigger] lookup(self.pairs(), k) == (if k == key@ {
                Some(value@)
            } else {
                lookup(old_pairs, k)
            }) by {
                assert(self.pairs().drop_last() =~= old_pairs);
            }
        }
        assert(self@ =~= old(self)@.insert(key@, value@));
    }

    /// The value at `k`, if the map has that key.
    pub fn find(&self, k: &[char]) -> (r: Option<&Vec<char>>)
        ensures
            match r {
                Some(v) => entry(self@, k@) == Some(v@),
                None => entry(self@, k@) is None,
            },
    {
        let ghost ps = self.pairs();
        let mut i = self.entries.len();
        assert(ps.take(ps.len() as int) =~= ps);
        while i > 0
            invariant
                i <= self.entries@.len(),
                ps == self.pairs(),
                lookup(ps, k@) == lookup(ps.take(i as int), k@),
            decreases i,
        {
            let e = &self.entries[i - 1];
            assert(ps.take(i as int).last() == pair_view(self.entries@[i - 1]));
            if chars_eq(&e.0, k) {
                return Some(&e.1);
            }
            assert(ps.take(i as int).drop_last() =~= ps.take(i - 1));
            i -= 1;
        }
        None
    }

    /// Every key, in insertion order (with repeats).
    pub fn keys_seq(&self) -> (r: Vec<Vec<char>>)
        ensures
            forall|k: Seq<char>|
                self@.dom().contains(k) <==> exists|i: int|
                    0 <= i < r@.len() && (#[trigger] r@[i])@ == k,
    {
        let ghost ps = self.pairs();
        let mut r: Vec<Vec<char>> = Vec::new();
        let mut i: usize = 0;
        while i < self.entries.len()
            invariant
                0 <= i <= self.entries@.len(),
                ps == self.pairs(),
                r@.len() == i,
                forall|j: int| 0 <= j < i ==> (#[trigger] r@[j])@ == ps[j].0,
            decreases self.entries.len() - i,
        {
            let p = slice_chars(&self.entries[i].0, 0, self.entries[i].0.len());
            assert(p@ =~= ps[i as int].0);
            r.push(p);
            i += 1;
        }
        proof {
            assert forall|k: Seq<char>|
                self@.dom().contains(k) <==> exists|i: int|
                    0 <= i < r@.len() && (#[trigger] r@[i])@ == k by {
                lemma_lookup_some(ps, k);
                if exists|i: int| 0 <= i < r@.len() && (#[trigger] r@[i])@ == k {
                    let i = choose|i: int| 0 <= i < r@.len() && (#[trigger] r@[i])@ == k;
                    assert(ps[i].0 == k);
                }
                if lookup(ps, k) is Some {
                    let i = choose|i: int| 0 <= i < ps.len() && (#[trigger] ps[i]).0 == k;
                    assert(r@[i]@ == k);
                }
            }
        }
        r
    }

    /// The value at `key`, if the map has that key.
    pub fn get(&self, key: &str) -> (r: Option<String>)
        ensures
            match r {
                Some(v) => entry(self@, key@) == Some(v@),
                None => entry(self@, key@) is None,
            },
    {
        match self.find(&chars_of(key)) {
            Some(v) => Some(string_of(v)),
            None => None,
        }
    }

    /// The map has no key.
    pub fn is_empty(&self) -> (b: bool)
        ensures
            b <==> self@ == Map::<Seq<char>, Seq<char>>::empty(),
    {
        if self.entries.len() == 0 {
            assert(self@ =~= Map::<Seq<char>, Seq<char>>::empty());
            true
        } else {
            let ghost ps = self.pairs();
            proof {
                lemma_lookup_some(ps, ps[0].0);
                assert(self@.dom().contains(ps[0].0));
            }
            false
        }
    }

    /// Drops `key` and its value.
    pub fn remove(&mut self, key: &str)
        ensures
            final(self)@ == old(self)@.remove(key@),
    {
        let k = chars_of(key);
        let ghost ps = self.pairs();
        let mut kept: Vec<(Vec<char>, Vec<char>)> = Vec::new();
        let mut i: usize = 0;
        while i < self.entries.len()
            invariant
                0 <= i <= self.entries@.len(),
                ps == self.pairs(),
                k@ == key@,
                forall|x: Seq<char>| #[trigger] lookup(pairs_of(kept@), x) == (
                if x == key@ {
                    None
                } else {
                    lookup(ps.take(i as int), x)
                }),
            decreases self.entries.len() - i,
        {
            let e = &self.entries[i];
            let ghost before = pairs_of(kept@);
            let ghost pe = ps[i as int];
            assert(pair_view(*e) == pe);
            let differs = !chars_eq(&e.0, &k);
            if differs {
                kept.push((slice_chars(&e.0, 0, e.0.len()), slice_chars(&e.1, 0, e.1.len())));
                proof {
                    let after = pairs_of(kept@);
                    assert(after.drop_last() =~= before);
                    assert(after.last() == pe);
                }
            }
            proof {
                assert(ps.take(i + 1).drop_last() =~= ps.take(i as int));
                assert(ps.take(i + 1).last() == pe);
                assert forall|x: Seq<char>| #[trigger] lookup(pairs_of(kept@), x) == (if x == key@ {
                    None
                } else {
                    lookup(ps.take(i + 1), x)
                }) by {
                    assert(lookup(before, x) == (if x == key@ {
                        None
                    } else {
                        lookup(ps.take(i as int), x)
                    }));
                    assert(lookup(ps.take(i + 1), x) == (if pe.0 == x {
                        Some(pe.1)
                    } else {
                        lookup(ps.take(i as int), x)
                    }));
                    if differs {
                        assert(pe.0 != key@);
                        assert(pairs_of(kept@).drop_last() =~= before);
                        assert(pairs_of(kept@).last() == pe);
                    } else {
                        assert(pe.0 == key@);
                        assert(pairs_of(kept@) =~= before);
                    }
                }
            }
            i += 1;
        }
        assert(ps.take(ps.len() as int) =~= ps);
        self.entries = kept;
        assert forall|x: Seq<char>| #[trigger] lookup(self.pairs(), x) == entry(old(self)@.remove(key@), x) by {
            assert(entry(old(self)@, x) == lookup(ps, x));
        }
        assert(self@ =~= old(self)@.remove(key@)) by {
            assert forall|x: Seq<char>| #[trigger] self@.dom().contains(x) == old(self)@.remove(key@).dom().contains(x) by {
                assert(lookup(self.pairs(), x) == entry(old(self)@.remove(key@), x));
            }
        }
    }

    /// Every key once, in the order of its first insertion.
    pub fn keys(&self) -> (r: Vec<Vec<char>>)
        ensures
            keys_view(r@).no_duplicates(),
            forall|k: Seq<char>| self@.dom().contains(k) <==> #[trigger] keys_view(r@).contains(k),
    {
        let all = self.keys_seq();
        let mut r: Vec<Vec<char>> = Vec::new();
        let mut i: usize = 0;
        while i < all.len()
            invariant
                0 <= i <= all@.len(),
                keys_view(r@).no_duplicates(),
                forall|k: Seq<char>|
                    #[trigger] keys_view(r@).contains(k) <==> exists|j: int|
                        0 <= j < i && (#[trigger] all@[j])@ == k,
            decreases all.len() - i,
        {
            let mut seen = false;
            let mut j: usize = 0;
            while j < r.len()
                invariant
                    0 <= j <= r@.len(),
                    0 <= i < all@.len(),
                    seen <==> exists|t: int| 0 <= t < j && r@[t]@ == all@[i as int]@,
                decreases r.len() - j,
            {
                if chars_eq(&r[j], &all[i]) {
                    seen = true;
                }
                j += 1;
            }
            let ghost before = keys_view(r@);
            if !seen {
                let c = slice_chars(&all[i], 0, all[i].len());
                assert(c@ =~= all@[i as int]@);
                r.push(c);
                proof {
                    assert(keys_view(r@) =~= before.push(all@[i as int]@));
                    assert forall|a: int, b: int|
                        0 <= a < b < keys_view(r@).len() implies keys_view(r@)[a] != keys_view(r@)[b] by {
                        if b == before.len() {
                            assert(r@[a]@ == keys_view(r@)[a]);
                        }
                    }
                }
            }
            proof {
                assert forall|k: Seq<char>|
                    #[trigger] keys_view(r@).contains(k) <==> exists|j: int|
                        0 <= j < i + 1 && (#[trigger] all@[j])@ == k by {
                    if keys_view(r@).contains(k) {
                        let t = choose|t: int| 0 <= t < keys_view(r@).len() && keys_view(r@)[t] == k;
                        if seen || t < before.len() {
                            assert(before.contains(k));
                        }
                    }
                    if exists|j: int| 0 <= j < i + 1 && (#[trigger] all@[j])@ == k {
                        let q = choose|q: int| 0 <= q < i + 1 && (#[trigger] all@[q])@ == k;
                        if q < i {
                            assert(before.contains(k));
                            let t = choose|t: int| 0 <= t < before.len() && before[t] == k;
                            assert(keys_view(r@)[t] == k);
                        } else if seen {
                            let t = choose|t: int| 0 <= t < j && r@[t]@ == all@[i as int]@;
                            assert(keys_view(r@)[t] == k);
                        } else {
                            assert(keys_view(r@)[before.len() as int] == k);
                        }
                    }
                }
            }
            i += 1;
        }
        r
    }
}

} // verus!
