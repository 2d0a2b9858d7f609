use vstd::prelude::*;

verus! {

/// A map from integer keys to values, kept as a list of entries without repeated keys, in the
/// order the keys were first inserted.
pub struct KeyMap<V> {
    entries: Vec<(u64, V)>,
}

pub open spec fn has_key<V>(entries: Seq<(u64, V)>, k: u64) -> bool {
    exists|i: int| 0 <= i < entries.len() && (#[trigger] entries[i]).0 == k
}

pub open spec fn entries_map<V>(entries: Seq<(u64, V)>) -> Map<u64, V> {
    Map::new(
        |k: u64| has_key(entries, k),
        |k: u64| entries[choose|i: int| 0 <= i < entries.len() && (#[trigger] entries[i]).0 == k].1,
    )
}

pub open spec fn keys_unique<V>(entries: Seq<(u64, V)>) -> bool {
    forall|i: int, j: int|
        0 <= i < entries.len() && 0 <= j < entries.len() && i != j ==> (#[trigger] entries[i]).0
            != (#[trigger] entries[j]).0
}

proof fn lemma_entry_value<V>(entries: Seq<(u64, V)>, i: int)
    requires
        keys_unique(entries),
        0 <= i < entries.len(),
    ensures
        entries_map(entries).contains_key(entries[i].0),
        entries_map(entries)[entries[i].0] == entries[i].1,
{
    let k = entries[i].0;
    let c = choose|c: int| 0 <= c < entries.len() && (#[trigger] entries[c]).0 == k;
    assert(c == i);
}

impl<V> KeyMap<V> {
    pub closed spec fn entries(&self) -> Seq<(u64, V)> {
        self.entries@
    }

    pub open spec fn view(&self) -> Map<u64, V> {
        entries_map(self.entries())
    }

    pub open spec fn wf(&self) -> bool {
        keys_unique(self.entries())
    }

    pub fn new() -> (m: Self)
        ensures
            m.wf(),
            m.entries() == Seq::<(u64, V)>::empty(),
            m@ == Map::<u64, V>::empty(),
    {
        let m = KeyMap { entries: Vec::new() };
        assert(m@ =~= Map::empty());
        m
    }

    /// The number of keys.
    pub fn len(&self) -> (n: usize)
        ensures
            n == self.entries().len(),
    {
        self.entries.len()
    }

    /// The `i`-th entry, in insertion order.
    pub fn entry_at(&self, i: usize) -> (e: (u64, &V))
        requires
            i < self.entries().len(),
        ensures
            e.0 == self.entries()[i as int].0,
            *e.1 == self.entries()[i as int].1,
    {
        (self.entries[i].0, &self.entries[i].1)
    }

    fn position(&self, k: u64) -> (r: Option<usize>)
        requires
            self.wf(),
        ensures
            match r {
                Some(i) => i < self.entries().len() && self.entries()[i as int].0 == k,
                None => !has_key(self.entries(), k),
            },
    {
        let mut i: usize = 0;
        while i < self.entries.len()
            invariant
                i <= self.entries@.len(),
                forall|j: int| 0 <= j < i ==> (#[trigger] self.entries@[j]).0 != k,
            decreases self.entries@.len() - i,
        {
            if self.entries[i].0 == k {
                return Some(i);
            }
            i += 1;
        }
        None
    }

    pub fn contains_key(&self, k: u64) -> (r: bool)
        requires
            self.wf(),
        ensures
            r == self@.contains_key(k),
    {
        self.position(k).is_some()
    }

    pub fn get(&self, k: u64) -> (r: Option<&V>)
        requires
            self.wf(),
        ensures
            match r {
                Some(v) => self@.contains_key(k) && *v == self@[k],
                None => !self@.contains_key(k),
            },
    {
        match self.position(k) {
            Some(i) => {
                proof { lemma_entry_value(self.entries@, i as int); }
                Some(&self.entries[i].1)
            },
            None => None,
        }
    }

    /// Sets the value of `k`, keeping its place when present, appending it otherwise.
    pub fn insert(&mut self, k: u64, v: V)
        requires
            old(self).wf(),
        ensures
            final(self).wf(),
            final(self)@ == old(self)@.insert(k, v),
    {
        match self.position(k) {
            Some(i) => {
                let ghost s = self.entries@;
                self.entries.set(i, (k, v));
                proof {
                    let n = self.entries@;
                    assert(n == s.update(i as int, (k, v)));
                    assert forall|a: int, b: int| 0 <= a < n.len() && 0 <= b < n.len() && a != b implies (#[trigger] n[a]).0 != (#[trigger] n[b]).0 by {
                        assert(s[a].0 == n[a].0 && s[b].0 == n[b].0);
                    }
                    assert forall|q: u64| #[trigger] has_key(n, q) == has_key(s, q) by {
                        if has_key(s, q) {
                            let c = choose|c: int| 0 <= c < s.len() && (#[trigger] s[c]).0 == q;
                            assert(n[c].0 == q);
                        }
                        if has_key(n, q) {
                            let c = choose|c: int| 0 <= c < n.len() && (#[trigger] n[c]).0 == q;
                            assert(s[c].0 == q);
                        }
                    }
                    assert forall|q: u64| has_key(n, q) implies entries_map(n)[q] == #[trigger] entries_map(s).insert(k, v)[q] by {
                        let c = choose|c: int| 0 <= c < n.len() && (#[trigger] n[c]).0 == q;
                        lemma_entry_value(n, c);
                        if q != k {
                            lemma_entry_value(s, c);
                        }
                    }
                    assert(self@ =~= old(self)@.insert(k, v));
                }
            },
            None => {
                let ghost s = self.entries@;
                self.entries.push((k, v));
                proof {
                    let n = self.entries@;
                    assert forall|q: u64| #[trigger] has_key(n, q) == (has_key(s, q) || q == k) by {
                        if has_key(s, q) {
                            let c = choose|c: int| 0 <= c < s.len() && (#[trigger] s[c]).0 == q;
                            assert(n[c].0 == q);
                        }
                        if q == k {
                            assert(n[s.len() as int].0 == q);
                        }
                    }
                    assert forall|q: u64| has_key(n, q) implies entries_map(n)[q] == #[trigger] entries_map(s).insert(k, v)[q] by {
                        let c = choose|c: int| 0 <= c < n.len() && (#[trigger] n[c]).0 == q;
                        lemma_entry_value(n, c);
                        if q != k {
                            lemma_entry_value(s, c);
                        }
                    }
                    assert(self@ =~= old(self)@.insert(k, v));
                }
            },
        }
    }

    /// Removes `k`; returns its value when it was present.
    pub fn remove(&mut self, k: u64) -> (r: Option<V>)
        requires
            old(self).wf(),
        ensures
            final(self).wf(),
            final(self)@ == old(self)@.remove(k),
            match r {
                Some(v) => old(self)@.contains_key(k) && v == old(self)@[k],
                None => !old(self)@.contains_key(k),
            },
    {
        match self.position(k) {
            Some(i) => {
                let ghost s = self.entries@;
                proof { lemma_entry_value(s, i as int); }
                let (_, v) = self.entries.remove(i);
                proof {
                    let n = self.entries@;
                    s.remove_ensures(i as int);
                    assert forall|a: int, b: int| 0 <= a < n.len() && 0 <= b < n.len() && a != b implies (#[trigger] n[a]).0 != (#[trigger] n[b]).0 by {
                        let a0 = if a < i { a } else { a + 1 };
                        let b0 = if b < i { b } else { b + 1 };
                        assert(n[a] == s[a0] && n[b] == s[b0]);
                    }
                    assert forall|q: u64| #[trigger] has_key(n, q) == (has_key(s, q) && q != k) by {
                        if has_key(s, q) && q != k {
                            let c = choose|c: int| 0 <= c < s.len() && (#[trigger] s[c]).0 == q;
                            let c1 = if c < i { c } else { c - 1 };
                            assert(n[c1].0 == q);
                        }
                        if has_key(n, q) {
                            let c = choose|c: int| 0 <= c < n.len() && (#[trigger] n[c]).0 == q;
                            let c0 = if c < i { c } else { c + 1 };
                            assert(s[c0].0 == q);
                            assert(c0 != i);
                        }
                    }
                    assert forall|q: u64| has_key(n, q) implies entries_map(n)[q] == #[trigger] entries_map(s).remove(k)[q] by {
                        let c = choose|c: int| 0 <= c < n.len() && (#[trigger] n[c]).0 == q;
                        lemma_entry_value(n, c);
                        let c0 = if c < i { c } else { c + 1 };
                        assert(n[c] == s[c0]);
                        lemma_entry_value(s, c0);
                    }
                    assert(self@ =~= old(self)@.remove(k));
                }
                Some(v)
            },
            None => {
                assert(self@ =~= old(self)@.remove(k));
                None
            },
        }
    }
}

} // verus!
