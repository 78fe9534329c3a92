use vstd::prelude::*;

verus! {

/// Keys of a sequence of entries.
pub open spec fn entry_keys<V>(es: Seq<(Seq<char>, V)>) -> Seq<Seq<char>> {
    es.map_values(|e: (Seq<char>, V)| e.0)
}

/// No key occurs twice.
pub open spec fn distinct_keys<V>(es: Seq<(Seq<char>, V)>) -> bool {
    forall|i: int, j: int|
        0 <= i < es.len() && 0 <= j < es.len() && i != j ==> #[trigger] es[i].0 != #[trigger] es[j].0
}

pub open spec fn has_key<V>(es: Seq<(Seq<char>, V)>, k: Seq<char>) -> bool {
    exists|i: int| 0 <= i < es.len() && #[trigger] es[i].0 == k
}

pub open spec fn key_pos<V>(es: Seq<(Seq<char>, V)>, k: Seq<char>) -> int {
    choose|i: int| 0 <= i < es.len() && #[trigger] es[i].0 == k
}

/// The map that a sequence of entries with distinct keys stands for.
pub open spec fn entry_map<V>(es: Seq<(Seq<char>, V)>) -> Map<Seq<char>, V> {
    Map::new(|k: Seq<char>| has_key(es, k), |k: Seq<char>| es[key_pos(es, k)].1)
}

pub proof fn lemma_key_pos<V>(es: Seq<(Seq<char>, V)>, i: int)
    requires
        distinct_keys(es),
        0 <= i < es.len(),
    ensures
        has_key(es, es[i].0),
        key_pos(es, es[i].0) == i,
        entry_map(es).contains_key(es[i].0),
        entry_map(es)[es[i].0] == es[i].1,
{
    assert(has_key(es, es[i].0));
}

pub proof fn lemma_dom_len<V>(es: Seq<(Seq<char>, V)>)
    requires
        distinct_keys(es),
    ensures
        entry_map(es).dom() == entry_keys(es).to_set(),
        entry_map(es).dom().finite(),
        entry_map(es).dom().len() == es.len(),
{
    let ks = entry_keys(es);
    assert forall|k: Seq<char>| entry_map(es).dom().contains(k) == ks.to_set().contains(k) by {
        if has_key(es, k) {
            let i = key_pos(es, k);
            assert(ks[i] == k);
        }
        if ks.contains(k) {
            let i = choose|i: int| 0 <= i < ks.len() && ks[i] == k;
            assert(es[i].0 == k);
        }
    }
    assert(entry_map(es).dom() =~= ks.to_set());
    assert(ks.no_duplicates()) by {
        assert forall|i: int, j: int| 0 <= i < ks.len() && 0 <= j < ks.len() && i != j implies ks[i] != ks[j] by {
            assert(es[i].0 != es[j].0);
        }
    }
    ks.unique_seq_to_set();
    vstd::seq_lib::seq_to_set_is_finite(ks);
}

/// A map from strings to values that keeps its entries in insertion order.
#[derive(Debug)]
pub struct StrMap<V> {
    entries: Vec<(String, V)>,
}

impl<V> StrMap<V> {
    /// The entries, in insertion order, with each key taken by its characters.
    pub closed spec fn entries(&self) -> Seq<(Seq<char>, V)> {
        self.entries@.map_values(|e: (String, V)| (e.0@, e.1))
    }

    pub open spec fn wf(&self) -> bool {
        distinct_keys(self.entries())
    }

    pub open spec fn view(&self) -> Map<Seq<char>, V> {
        entry_map(self.entries())
    }

    pub open spec fn keys(&self) -> Seq<Seq<char>> {
        entry_keys(self.entries())
    }

    pub proof fn lemma_view(&self, i: int)
        requires
            self.wf(),
            0 <= i < self.entries().len(),
        ensures
            self@.contains_key(self.entries()[i].0),
            self@[self.entries()[i].0] == self.entries()[i].1,
            key_pos(self.entries(), self.entries()[i].0) == i,
    {
        lemma_key_pos(self.entries(), i);
    }

    pub fn new() -> (m: Self)
        ensures
            m.entries() == Seq::<(Seq<char>, V)>::empty(),
            m.wf(),
            m@ == Map::<Seq<char>, V>::empty(),
    {
        let m = StrMap { entries: Vec::new() };
        assert(m.entries() =~= Seq::<(Seq<char>, V)>::empty());
        assert(m@ =~= Map::<Seq<char>, V>::empty());
        m
    }

    pub fn len(&self) -> (n: usize)
        ensures
            n == self.entries().len(),
    {
        self.entries.len()
    }

    pub fn key_at(&self, i: usize) -> (k: &String)
        requires
            i < self.entries().len(),
        ensures
            k@ == self.entries()[i as int].0,
    {
        &self.entries[i].0
    }

    pub fn value_at(&self, i: usize) -> (v: &V)
        requires
            i < self.entries().len(),
        ensures
            *v == self.entries()[i as int].1,
    {
        &self.entries[i].1
    }

    /// The position of `k` among the entries.
    pub fn find(&self, k: &String) -> (r: Option<usize>)
        requires
            self.wf(),
        ensures
            match r {
                Some(i) => i < self.entries().len() && self.entries()[i as int].0 == k@,
                None => !has_key(self.entries(), k@),
            },
            r is Some <==> self@.contains_key(k@),
    {
        let mut i: usize = 0;
        while i < self.entries.len()
            invariant
                i <= self.entries().len(),
                self.entries().len() == self.entries@.len(),
                forall|j: int| 0 <= j < i ==> self.entries()[j].0 != k@,
            decreases self.entries@.len() - i,
        {
            if self.entries[i].0 == *k {
                assert(self.entries()[i as int].0 == k@);
                return Some(i);
            }
            i = i + 1;
        }
        None
    }

    pub fn contains_key(&self, k: &String) -> (b: bool)
        requires
            self.wf(),
        ensures
            b == self@.contains_key(k@),
    {
        self.find(k).is_some()
    }

    pub fn get(&self, k: &String) -> (r: Option<&V>)
        requires
            self.wf(),
        ensures
            match r {
                Some(v) => self@.contains_key(k@) && *v == self@[k@],
                None => !self@.contains_key(k@),
            },
    {
        match self.find(k) {
            Some(i) => {
                proof {
                    self.lemma_view(i as int);
                }
                Some(&self.entries[i].1)
            },
            None => None,
        }
    }

    /// Replaces the value of the entry at position `i`.
    pub fn set_value_at(&mut self, i: usize, v: V)
        requires
            old(self).wf(),
            i < old(self).entries().len(),
        ensures
            final(self).wf(),
            final(self).entries() == old(self).entries().update(
                i as int,
                (old(self).entries()[i as int].0, v),
            ),
            final(self)@ == old(self)@.insert(old(self).entries()[i as int].0, v),
    {
        let ghost old_es = self.entries();
        let k = self.entries[i].0.clone();
        self.entries.set(i, (k, v));
        let ghost k0 = old_es[i as int].0;
        assert(self.entries() =~= old_es.update(i as int, (k0, v)));
        proof {
            lemma_key_pos(old_es, i as int);
            assert forall|kk: Seq<char>| #![auto]
                self@.contains_key(kk) == old(self)@.insert(k0, v).contains_key(kk) by {
                if has_key(old_es, kk) {
                    let j = key_pos(old_es, kk);
                    assert(self.entries()[j].0 == kk);
                }
                if has_key(self.entries(), kk) {
                    let j = key_pos(self.entries(), kk);
                    assert(old_es[j].0 == kk);
                }
            }
            assert forall|kk: Seq<char>| #[trigger] self@.contains_key(kk) implies self@[kk]
                == old(self)@.insert(k0, v)[kk] by {
                let j = key_pos(self.entries(), kk);
                lemma_key_pos(self.entries(), j);
                if kk != k0 {
                    lemma_key_pos(old_es, j);
                }
            }
            assert(self@ =~= old(self)@.insert(k0, v));
        }
    }

    /// Sets the value of `k`: an existing entry keeps its position, a new one goes last.
    pub fn insert(&mut self, k: String, v: V)
        requires
            old(self).wf(),
        ensures
            final(self).wf(),
            final(self)@ == old(self)@.insert(k@, v),
            has_key(old(self).entries(), k@) ==> final(self).entries() == old(self).entries().update(
                key_pos(old(self).entries(), k@),
                (k@, v),
            ),
            !has_key(old(self).entries(), k@) ==> final(self).entries() == old(self).entries().push(
                (k@, v),
            ),
    {
        match self.find(&k) {
            Some(i) => {
                proof {
                    lemma_key_pos(self.entries(), i as int);
                }
                self.set_value_at(i, v);
            },
            None => {
                let ghost old_es = self.entries();
                let ghost kk = k@;
                self.entries.push((k, v));
                assert(self.entries() =~= old_es.push((kk, v)));
                proof {
                    assert forall|q: Seq<char>| #![auto]
                        self@.contains_key(q) == old(self)@.insert(kk, v).contains_key(q) by {
                        if has_key(old_es, q) {
                            let j = key_pos(old_es, q);
                            assert(self.entries()[j].0 == q);
                        }
                        if q == kk {
                            assert(self.entries()[old_es.len() as int].0 == q);
                        }
                    }
                    assert forall|q: Seq<char>| #[trigger] self@.contains_key(q) implies self@[q]
                        == old(self)@.insert(kk, v)[q] by {
                        let j = key_pos(self.entries(), q);
                        lemma_key_pos(self.entries(), j);
                        if q != kk {
                            lemma_key_pos(old_es, j);
                        }
                    }
                    assert(self@ =~= old(self)@.insert(kk, v));
                }
            },
        }
    }
}

/// A set of strings that keeps its members in insertion order.
#[derive(Debug)]
pub struct StrSet {
    items: Vec<String>,
}

impl StrSet {
    /// The members, each taken by its characters.
    pub closed spec fn items(&self) -> Seq<Seq<char>> {
        self.items@.map_values(|s: String| s@)
    }

    pub open spec fn wf(&self) -> bool {
        self.items().no_duplicates()
    }

    pub open spec fn view(&self) -> Set<Seq<char>> {
        self.items().to_set()
    }

    pub fn new() -> (s: Self)
        ensures
            s.wf(),
            s.items() == Seq::<Seq<char>>::empty(),
            s@ == Set::<Seq<char>>::empty(),
    {
        let s = StrSet { items: Vec::new() };
        assert(s.items() =~= Seq::<Seq<char>>::empty());
        assert(s@ =~= Set::<Seq<char>>::empty());
        s
    }

    pub proof fn lemma_finite(&self)
        ensures
            self@.finite(),
    {
        vstd::seq_lib::seq_to_set_is_finite(self.items());
    }

    pub fn len(&self) -> (n: usize)
        requires
            self.wf(),
        ensures
            n == self.items().len(),
            n == self@.len(),
    {
        proof {
            self.items().unique_seq_to_set();
        }
        self.items.len()
    }

    pub fn item_at(&self, i: usize) -> (k: &String)
        requires
            i < self.items().len(),
        ensures
            k@ == self.items()[i as int],
    {
        &self.items[i]
    }

    fn position(&self, k: &String) -> (r: Option<usize>)
        ensures
            match r {
                Some(i) => i < self.items().len() && self.items()[i as int] == k@,
                None => !self@.contains(k@),
            },
    {
        let mut i: usize = 0;
        while i < self.items.len()
            invariant
                i <= self.items().len(),
                self.items().len() == self.items@.len(),
                forall|j: int| 0 <= j < i ==> self.items()[j] != k@,
            decreases self.items@.len() - i,
        {
            if self.items[i] == *k {
                return Some(i);
            }
            i = i + 1;
        }
        None
    }

    pub fn contains(&self, k: &String) -> (b: bool)
        ensures
            b == self@.contains(k@),
    {
        match self.position(k) {
            Some(i) => {
                assert(self.items().contains(k@));
                true
            },
            None => false,
        }
    }

    /// Adds `k`; tells whether it was absent.
    pub fn insert(&mut self, k: String) -> (added: bool)
        requires
            old(self).wf(),
        ensures
            final(self).wf(),
            final(self)@ == old(self)@.insert(k@),
            added == !old(self)@.contains(k@),
            added ==> final(self).items() == old(self).items().push(k@),
            !added ==> final(self).items() == old(self).items(),
    {
        if self.contains(&k) {
            false
        } else {
            let ghost old_items = self.items();
            let ghost kk = k@;
            self.items.push(k);
            assert(self.items() =~= old_items.push(kk));
            assert forall|q: Seq<char>| #![auto]
                self@.contains(q) == old(self)@.insert(kk).contains(q) by {
                if old_items.contains(q) {
                    let j = choose|j: int| 0 <= j < old_items.len() && old_items[j] == q;
                    assert(self.items()[j] == q);
                }
                if q == kk {
                    assert(self.items()[old_items.len() as int] == q);
                }
            }
            assert(self@ =~= old(self)@.insert(kk));
            true
        }
    }

    /// Removes `k` if present.
    pub fn remove(&mut self, k: &String)
        requires
            old(self).wf(),
        ensures
            final(self).wf(),
            final(self)@ == old(self)@.remove(k@),
    {
        match self.position(k) {
            Some(i) => {
                let ghost old_items = self.items();
                self.items.remove(i);
                assert(self.items() =~= old_items.remove(i as int));
                assert forall|q: Seq<char>| #![auto]
                    self@.contains(q) == old(self)@.remove(k@).contains(q) by {
                    if old_items.contains(q) && q != k@ {
                        let j = choose|j: int| 0 <= j < old_items.len() && old_items[j] == q;
                        if j < i {
                            assert(self.items()[j] == q);
                        } else {
                            assert(self.items()[j - 1] == q);
                        }
                    }
                }
                assert(self@ =~= old(self)@.remove(k@));
            },
            None => {
                assert(self@ =~= old(self)@.remove(k@));
            },
        }
    }
}

} // verus!
