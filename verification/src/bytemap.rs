//! A finite map keyed by byte strings, kept as an association list with
//! distinct keys. It holds the code -> value tables of CMaps.
use vstd::prelude::*;

verus! {

/// The map that a list of pairs denotes: a later pair overrides an earlier one.
pub open spec fn assoc_map<V>(s: Seq<(Seq<u8>, V)>) -> Map<Seq<u8>, V>
    decreases s.len(),
{
    if s.len() == 0 {
        Map::empty()
    } else {
        assoc_map(s.drop_last()).insert(s.last().0, s.last().1)
    }
}

/// No key occurs twice.
pub open spec fn keys_unique<V>(s: Seq<(Seq<u8>, V)>) -> bool {
    forall|i: int, j: int| 0 <= i < j < s.len() ==> s[i].0 != s[j].0
}

pub proof fn lemma_assoc_map_dom<V>(s: Seq<(Seq<u8>, V)>, k: Seq<u8>)
    ensures
        assoc_map(s).contains_key(k) <==> exists|i: int| 0 <= i < s.len() && s[i].0 == k,
    decreases s.len(),
{
    if s.len() > 0 {
        lemma_assoc_map_dom(s.drop_last(), k);
        if assoc_map(s).contains_key(k) && k != s.last().0 {
            let i = choose|i: int| 0 <= i < s.drop_last().len() && s.drop_last()[i].0 == k;
            assert(s[i].0 == k);
        }
        if exists|i: int| 0 <= i < s.len() && s[i].0 == k {
            let i = choose|i: int| 0 <= i < s.len() && s[i].0 == k;
            if i < s.len() - 1 {
                assert(s.drop_last()[i].0 == k);
            }
        }
    }
}

pub proof fn lemma_assoc_map_lookup<V>(s: Seq<(Seq<u8>, V)>, i: int)
    requires
        keys_unique(s),
        0 <= i < s.len(),
    ensures
        assoc_map(s).contains_key(s[i].0),
        assoc_map(s)[s[i].0] == s[i].1,
    decreases s.len(),
{
    if i < s.len() - 1 {
        lemma_assoc_map_lookup(s.drop_last(), i);
        assert(s.drop_last()[i] == s[i]);
    }
}

pub proof fn lemma_assoc_map_finite<V>(s: Seq<(Seq<u8>, V)>)
    requires
        keys_unique(s),
    ensures
        assoc_map(s).dom().finite(),
        assoc_map(s).dom().len() == s.len(),
    decreases s.len(),
{
    if s.len() > 0 {
        let p = s.drop_last();
        lemma_assoc_map_finite(p);
        lemma_assoc_map_dom(p, s.last().0);
        if assoc_map(p).contains_key(s.last().0) {
            let i = choose|i: int| 0 <= i < p.len() && p[i].0 == s.last().0;
            assert(s[i].0 == s[s.len() - 1].0);
        }
    }
}

pub proof fn lemma_assoc_map_update<V>(s: Seq<(Seq<u8>, V)>, i: int, v: V)
    requires
        keys_unique(s),
        0 <= i < s.len(),
    ensures
        keys_unique(s.update(i, (s[i].0, v))),
        assoc_map(s.update(i, (s[i].0, v))) == assoc_map(s).insert(s[i].0, v),
    decreases s.len(),
{
    let t = s.update(i, (s[i].0, v));
    let k = s[i].0;
    assert forall|a: int, b: int| 0 <= a < b < t.len() implies t[a].0 != t[b].0 by {
        assert(t[a].0 == s[a].0 && t[b].0 == s[b].0);
    }
    if i == s.len() - 1 {
        assert(t.drop_last() == s.drop_last());
        assert(assoc_map(s).insert(k, v) =~= assoc_map(s.drop_last()).insert(k, v));
    } else {
        let p = s.drop_last();
        lemma_assoc_map_update(p, i, v);
        assert(t.drop_last() == p.update(i, (p[i].0, v)));
        assert(s.last().0 != k);
        assert(assoc_map(t) =~= assoc_map(s).insert(k, v));
    }
}

/// A finite map from byte strings to values.
pub struct ByteKeyMap<V> {
    entries: Vec<(Vec<u8>, V)>,
}

/// A copy of a byte string.
pub fn copy_bytes(v: &[u8]) -> (r: Vec<u8>)
    ensures
        r@ == v@,
{
    let mut out: Vec<u8> = Vec::new();
    let mut i: usize = 0;
    while i < v.len()
        invariant
            i <= v.len(),
            out@ == v@.take(i as int),
        decreases v.len() - i,
    {
        out.push(v[i]);
        assert(out@ == v@.take(i + 1));
        i += 1;
    }
    assert(v@.take(v.len() as int) == v@);
    out
}

/// A copy of a character string.
pub fn copy_chars(v: &[char]) -> (r: Vec<char>)
    ensures
        r@ == v@,
{
    let mut out: Vec<char> = Vec::new();
    let mut i: usize = 0;
    while i < v.len()
        invariant
            i <= v.len(),
            out@ == v@.take(i as int),
        decreases v.len() - i,
    {
        out.push(v[i]);
        assert(out@ == v@.take(i + 1));
        i += 1;
    }
    assert(v@.take(v.len() as int) == v@);
    out
}

impl<V: View> ByteKeyMap<V> {
    /// The pairs of the map in insertion order, by view.
    pub closed spec fn pairs(&self) -> Seq<(Seq<u8>, V::V)> {
        self.entries@.map_values(|p: (Vec<u8>, V)| (p.0@, p.1@))
    }

    /// The map's invariant: keys are distinct.
    pub closed spec fn wf(&self) -> bool {
        keys_unique(self.pairs())
    }

    /// The mapping this value denotes.
    pub closed spec fn map(&self) -> Map<Seq<u8>, V::V> {
        assoc_map(self.pairs())
    }

    pub proof fn lemma_finite(&self)
        requires
            self.wf(),
        ensures
            self.map().dom().finite(),
    {
        lemma_assoc_map_finite(self.pairs());
    }

    pub fn new() -> (r: Self)
        ensures
            r.wf(),
            r.map() == Map::<Seq<u8>, V::V>::empty(),
    {
        let r = ByteKeyMap { entries: Vec::new() };
        assert(r.pairs().len() == 0);
        r
    }

    fn find(&self, key: &[u8]) -> (r: Option<usize>)
        requires
            self.wf(),
        ensures
            match r {
                Some(i) => i < self.pairs().len() && self.pairs()[i as int].0 == key@,
                None => !self.map().contains_key(key@),
            },
    {
        let mut i: usize = 0;
        while i < self.entries.len()
            invariant
                i <= self.entries@.len(),
                forall|j: int| 0 <= j < i ==> self.pairs()[j].0 != key@,
            decreases self.entries@.len() - i,
        {
            if crate::cmap_text::bytes_eq(&self.entries[i].0, key) {
                return Some(i);
            }
            i += 1;
        }
        proof {
            lemma_assoc_map_dom(self.pairs(), key@);
        }
        None
    }

    /// Sets the value of `key`, replacing an earlier one.
    pub fn insert(&mut self, key: Vec<u8>, value: V)
        requires
            old(self).wf(),
        ensures
            final(self).wf(),
            final(self).map() == old(self).map().insert(key@, value@),
    {
        match self.find(&key) {
            Some(i) => {
                let ghost s = self.pairs();
                self.entries.set(i, (key, value));
                proof {
                    assert(self.pairs() == s.update(i as int, (s[i as int].0, value@)));
                    lemma_assoc_map_update(s, i as int, value@);
                }
            },
            None => {
                let ghost s = self.pairs();
                proof {
                    lemma_assoc_map_dom(s, key@);
                }
                self.entries.push((key, value));
                proof {
                    assert(self.pairs() == s.push((key@, value@)));
                    assert(self.pairs().drop_last() == s);
                    assert forall|a: int, b: int|
                        0 <= a < b < self.pairs().len() implies self.pairs()[a].0 != self.pairs()[b].0 by {
                        if b == s.len() {
                            assert(s[a].0 == self.pairs()[a].0);
                        } else {
                            assert(s[a] == self.pairs()[a] && s[b] == self.pairs()[b]);
                        }
                    }
                }
            },
        }
    }

    /// The value of `key`, if any.
    pub fn get(&self, key: &[u8]) -> (r: Option<&V>)
        requires
            self.wf(),
        ensures
            match r {
                Some(v) => self.map().contains_key(key@) && self.map()[key@] == v@,
                None => !self.map().contains_key(key@),
            },
    {
        match self.find(key) {
            Some(i) => {
                proof {
                    lemma_assoc_map_lookup(self.pairs(), i as int);
                }
                Some(&self.entries[i].1)
            },
            None => None,
        }
    }

    /// The number of keys.
    pub fn len(&self) -> (r: usize)
        requires
            self.wf(),
        ensures
            r == self.map().dom().len(),
    {
        proof {
            lemma_assoc_map_finite(self.pairs());
        }
        self.entries.len()
    }

    /// The keys and values, in insertion order.
    pub fn entry_count(&self) -> (r: usize)
        ensures
            r == self.pairs().len(),
    {
        self.entries.len()
    }

    /// The `i`-th pair in insertion order.
    pub fn entry_at(&self, i: usize) -> (r: (&Vec<u8>, &V))
        requires
            i < self.pairs().len(),
        ensures
            r.0@ == self.pairs()[i as int].0,
            r.1@ == self.pairs()[i as int].1,
    {
        (&self.entries[i].0, &self.entries[i].1)
    }

    pub proof fn lemma_pairs_map(&self, i: int)
        requires
            self.wf(),
            0 <= i < self.pairs().len(),
        ensures
            self.map().contains_key(self.pairs()[i].0),
            self.map()[self.pairs()[i].0] == self.pairs()[i].1,
    {
        lemma_assoc_map_lookup(self.pairs(), i);
    }

    pub proof fn lemma_unique(&self)
        requires
            self.wf(),
        ensures
            keys_unique(self.pairs()),
    {
    }

    pub proof fn lemma_map_pairs(&self, k: Seq<u8>)
        ensures
            self.map().contains_key(k) <==> exists|i: int|
                0 <= i < self.pairs().len() && self.pairs()[i].0 == k,
    {
        lemma_assoc_map_dom(self.pairs(), k);
    }
}

/// Every pair of `overlay` inserted into `base`, in order: the result maps
/// each key of `overlay` to its value there, and every other key as `base`.
pub fn absorb_chars(base: &mut ByteKeyMap<Vec<char>>, overlay: &ByteKeyMap<Vec<char>>)
    requires
        old(base).wf(),
    ensures
        final(base).wf(),
        final(base).map() == old(base).map().union_prefer_right(overlay.map()),
{
    let ghost s = overlay.pairs();
    let mut i: usize = 0;
    assert(assoc_map(s.take(0)) =~= Map::<Seq<u8>, Seq<char>>::empty());
    assert(old(base).map().union_prefer_right(assoc_map(s.take(0))) =~= old(base).map());
    while i < overlay.entries.len()
        invariant
            base.wf(),
            s == overlay.pairs(),
            i <= s.len(),
            base.map() == old(base).map().union_prefer_right(assoc_map(s.take(i as int))),
        decreases s.len() - i,
    {
        let key = copy_bytes(overlay.entries[i].0.as_slice());
        let value = copy_chars(overlay.entries[i].1.as_slice());
        let ghost before = base.map();
        base.insert(key, value);
        proof {
            assert(s[i as int] == (overlay.entries@[i as int].0@, overlay.entries@[i as int].1@));
            assert(s.take(i + 1).drop_last() == s.take(i as int));
            assert(s.take(i + 1).last() == s[i as int]);
            assert(base.map() =~= old(base).map().union_prefer_right(assoc_map(s.take(i + 1))));
        }
        i += 1;
    }
    assert(s.take(i as int) == s);
}

/// `absorb_chars` for byte values.
pub fn absorb_bytes(base: &mut ByteKeyMap<Vec<u8>>, overlay: &ByteKeyMap<Vec<u8>>)
    requires
        old(base).wf(),
    ensures
        final(base).wf(),
        final(base).map() == old(base).map().union_prefer_right(overlay.map()),
{
    let ghost s = overlay.pairs();
    let mut i: usize = 0;
    assert(assoc_map(s.take(0)) =~= Map::<Seq<u8>, Seq<u8>>::empty());
    assert(old(base).map().union_prefer_right(assoc_map(s.take(0))) =~= old(base).map());
    while i < overlay.entries.len()
        invariant
            base.wf(),
            s == overlay.pairs(),
            i <= s.len(),
            base.map() == old(base).map().union_prefer_right(assoc_map(s.take(i as int))),
        decreases s.len() - i,
    {
        let key = copy_bytes(overlay.entries[i].0.as_slice());
        let value = copy_bytes(overlay.entries[i].1.as_slice());
        base.insert(key, value);
        proof {
            assert(s[i as int] == (overlay.entries@[i as int].0@, overlay.entries@[i as int].1@));
            assert(s.take(i + 1).drop_last() == s.take(i as int));
            assert(s.take(i + 1).last() == s[i as int]);
            assert(base.map() =~= old(base).map().union_prefer_right(assoc_map(s.take(i + 1))));
        }
        i += 1;
    }
    assert(s.take(i as int) == s);
}

} // verus!
