use vstd::prelude::*;

verus! {

/// A mapping from variable names to values, with at most one entry per name.
pub struct Vars<V> {
    entries: Vec<(String, V)>,
}

/// The mapping that a list of pairs denotes when later pairs overwrite
/// earlier ones with the same key.
pub open spec fn pairs_map<V>(pairs: Seq<(String, V)>) -> Map<Seq<char>, V>
    decreases pairs.len(),
{
    if pairs.len() == 0 {
        Map::empty()
    } else {
        pairs_map(pairs.drop_last()).insert(pairs.last().0@, pairs.last().1)
    }
}

impl<V> View for Vars<V> {
    type V = Map<Seq<char>, V>;

    closed spec fn view(&self) -> Map<Seq<char>, V> {
        Map::new(
            |k: Seq<char>| exists|i: int| 0 <= i < self.entries.len() && self.entries[i].0@ == k,
            |k: Seq<char>|
                self.entries[choose|i: int| 0 <= i < self.entries.len() && self.entries[i].0@ == k].1,
        )
    }
}

impl<V> Vars<V> {
    /// No two entries share a name.
    pub closed spec fn wf(&self) -> bool {
        forall|i: int, j: int|
            0 <= i < self.entries.len() && 0 <= j < self.entries.len() && i != j
                ==> #[trigger] self.entries[i].0@ != #[trigger] self.entries[j].0@
    }

    /// An empty mapping.
    pub fn new() -> (r: Self)
        ensures
            r.wf(),
            r@ == Map::<Seq<char>, V>::empty(),
    {
        let r = Vars { entries: Vec::new() };
        assert(r@ =~= Map::<Seq<char>, V>::empty());
        r
    }

    /// Position of the entry named `key`, if there is one.
    fn find(&self, key: &String) -> (r: Option<usize>)
        requires
            self.wf(),
        ensures
            match r {
                Some(i) => i < self.entries.len() && self.entries[i as int].0@ == key@,
                None => forall|i: int| 0 <= i < self.entries.len() ==> self.entries[i].0@ != key@,
            },
    {
        let mut i: usize = 0;
        while i < self.entries.len()
            invariant
                i <= self.entries.len(),
                forall|j: int| 0 <= j < i ==> self.entries[j].0@ != key@,
            decreases self.entries.len() - i,
        {
            if self.entries[i].0 == *key {
                return Some(i);
            }
            i = i + 1;
        }
        None
    }

    /// The value stored under `key`.
    pub fn get(&self, key: &String) -> (r: Option<&V>)
        requires
            self.wf(),
        ensures
            match r {
                Some(v) => self@.contains_key(key@) && *v == self@[key@],
                None => !self@.contains_key(key@),
            },
    {
        match self.find(key) {
            Some(i) => {
                proof {
                    let k = key@;
                    assert(self.entries[i as int].0@ == k);
                    let c = choose|j: int| 0 <= j < self.entries.len() && self.entries[j].0@ == k;
                    assert(self.entries[c].0@ == k);
                }
                Some(&self.entries[i].1)
            },
            None => None,
        }
    }

    /// Number of names in the mapping.
    pub fn len(&self) -> (r: usize)
        requires
            self.wf(),
        ensures
            r == self@.dom().len(),
    {
        proof {
            let keys = self.entries@.map_values(|e: (String, V)| e.0@);
            assert(keys.no_duplicates()) by {
                assert forall|i: int, j: int|
                    0 <= i < keys.len() && 0 <= j < keys.len() && i != j implies keys[i] != keys[j] by {
                    assert(self.entries[i].0@ != self.entries[j].0@);
                }
            }
            keys.unique_seq_to_set();
            assert(self@.dom() =~= keys.to_set()) by {
                assert forall|k: Seq<char>| #[trigger] self@.dom().contains(k) implies keys.contains(k) by {
                    let i = choose|i: int| 0 <= i < self.entries.len() && self.entries[i].0@ == k;
                    assert(keys[i] == k);
                }
                assert forall|k: Seq<char>| #[trigger] keys.contains(k) implies self@.dom().contains(k) by {
                    let i = choose|i: int| 0 <= i < keys.len() && keys[i] == k;
                    assert(self.entries[i].0@ == k);
                }
            }
        }
        self.entries.len()
    }

    /// Stores `value` under `key`, replacing any value stored there before.
    pub fn insert(&mut self, key: String, value: V)
        requires
            old(self).wf(),
        ensures
            final(self).wf(),
            final(self)@ == old(self)@.insert(key@, value),
    {
        let ghost k = key@;
        match self.find(&key) {
            Some(i) => {
                self.entries.set(i, (key, value));
            },
            None => {
                self.entries.push((key, value));
            },
        }
        assert(self@ =~= old(self)@.insert(k, value)) by {
            assert forall|q: Seq<char>| #[trigger] self@.contains_key(q) implies
                old(self)@.insert(k, value).contains_key(q) && self@[q] == old(self)@.insert(k, value)[q] by {
                let c = choose|j: int| 0 <= j < self.entries.len() && self.entries[j].0@ == q;
                if q != k {
                    assert(old(self).entries[c].0@ == q);
                }
            }
            assert forall|q: Seq<char>| #[trigger] old(self)@.insert(k, value).contains_key(q)
                implies self@.contains_key(q) by {
                if q == k {
                    let w = if self.entries.len() > old(self).entries.len() {
                        old(self).entries.len() as int
                    } else {
                        choose|j: int| 0 <= j < old(self).entries.len() && old(self).entries[j].0@ == k
                    };
                    assert(self.entries[w].0@ == q);
                } else {
                    let c = choose|j: int| 0 <= j < old(self).entries.len() && old(self).entries[j].0@ == q;
                    assert(self.entries[c].0@ == q);
                }
            }
        }
    }
}

/// Builds a mapping from `pairs`, in order: a later pair overwrites an earlier
/// one with the same key.
pub fn string_args<V>(pairs: Vec<(String, V)>) -> (r: Vars<V>)
    ensures
        r.wf(),
        r@ == pairs_map(pairs@),
{
    let ghost all = pairs@;
    let n: usize = pairs.len();
    let mut rest = pairs;
    let mut r = Vars::new();
    let mut k: usize = 0;
    while k < n
        invariant
            r.wf(),
            k + rest@.len() == all.len(),
            all.len() == n,
            rest@ == all.skip(k as int),
            r@ == pairs_map(all.take(k as int)),
        decreases n - k,
    {
        let (key, value) = rest.remove(0);
        proof {
            assert(all[k as int] == (key, value));
            assert(all.take(k + 1).drop_last() =~= all.take(k as int));
        }
        r.insert(key, value);
        k = k + 1;
        assert(rest@ =~= all.skip(k as int));
    }
    assert(all.take(k as int) =~= all);
    r
}

/// The mapping built from no pairs is empty.
pub proof fn lemma_no_pairs_empty<V>()
    ensures
        pairs_map(Seq::<(String, V)>::empty()) == Map::<Seq<char>, V>::empty(),
{
}

/// The names in the mapping built from `pairs` are exactly the keys of the pairs,
/// each once.
pub proof fn lemma_pairs_map_keys<V>(pairs: Seq<(String, V)>)
    ensures
        pairs_map(pairs).dom() == pairs.map_values(|p: (String, V)| p.0@).to_set(),
    decreases pairs.len(),
{
    let keys = pairs.map_values(|p: (String, V)| p.0@);
    if pairs.len() > 0 {
        let init = pairs.drop_last();
        lemma_pairs_map_keys(init);
        let init_keys = init.map_values(|p: (String, V)| p.0@);
        assert(keys =~= init_keys.push(pairs.last().0@));
        init_keys.lemma_push_to_set_commute(pairs.last().0@);
    } else {
        assert(keys.to_set() =~= Set::empty());
    }
}

/// Under a key that several pairs share, the mapping holds the value of the
/// last of them.
pub proof fn lemma_last_pair_wins<V>(pairs: Seq<(String, V)>, i: int)
    requires
        0 <= i < pairs.len(),
        forall|j: int| i < j < pairs.len() ==> #[trigger] pairs[j].0@ != pairs[i].0@,
    ensures
        pairs_map(pairs).contains_key(pairs[i].0@),
        pairs_map(pairs)[pairs[i].0@] == pairs[i].1,
    decreases pairs.len(),
{
    if i < pairs.len() - 1 {
        let init = pairs.drop_last();
        assert(pairs.last().0@ != pairs[i].0@);
        assert forall|j: int| i < j < init.len() implies #[trigger] init[j].0@ != init[i].0@ by {
            assert(init[j] == pairs[j]);
        }
        lemma_last_pair_wins(init, i);
    }
}

} // verus!
