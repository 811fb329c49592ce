use vstd::prelude::*;

verus! {

/// No name occurs twice among the first components of `s`.
pub open spec fn keys_unique<V>(s: Seq<(Seq<char>, V)>) -> bool {
    forall|i: int, j: int| 0 <= i < j < s.len() ==> s[i].0 != s[j].0
}

/// The map obtained by inserting the pairs of `s` one after another, so that a
/// later pair with the same name replaces an earlier one.
pub open spec fn pairs_to_map<V>(s: Seq<(Seq<char>, V)>) -> Map<Seq<char>, V>
    decreases s.len(),
{
    if s.len() == 0 {
        Map::empty()
    } else {
        pairs_to_map(s.drop_last()).insert(s.last().0, s.last().1)
    }
}

/// A name is a key of `pairs_to_map(s)` exactly when some pair of `s` carries it.
pub proof fn lemma_pairs_to_map_dom<V>(s: Seq<(Seq<char>, V)>, k: Seq<char>)
    ensures
        pairs_to_map(s).contains_key(k) <==> exists|i: int| 0 <= i < s.len() && s[i].0 == k,
    decreases s.len(),
{
    if s.len() > 0 {
        lemma_pairs_to_map_dom(s.drop_last(), k);
        if pairs_to_map(s).contains_key(k) {
            if k != s.last().0 {
                let i = choose|i: int| 0 <= i < s.len() - 1 && s.drop_last()[i].0 == k;
                assert(s[i].0 == k);
            } else {
                assert(s[s.len() - 1].0 == k);
            }
        }
        if exists|i: int| 0 <= i < s.len() && s[i].0 == k {
            let i = choose|i: int| 0 <= i < s.len() && s[i].0 == k;
            if i < s.len() - 1 {
                assert(s.drop_last()[i].0 == k);
            }
        }
    }
}

/// When no name repeats, the map sends the name of each pair to that pair's value.
pub proof fn lemma_pairs_to_map_value<V>(s: Seq<(Seq<char>, V)>, i: int)
    requires
        keys_unique(s),
        0 <= i < s.len(),
    ensures
        pairs_to_map(s).contains_key(s[i].0),
        pairs_to_map(s)[s[i].0] == s[i].1,
    decreases s.len(),
{
    if i < s.len() - 1 {
        assert(keys_unique(s.drop_last()));
        lemma_pairs_to_map_value(s.drop_last(), i);
        assert(s.drop_last()[i] == s[i]);
        assert(s[i].0 != s[s.len() - 1].0);
    }
}

/// The map built from a sequence of pairs is finite.
pub proof fn lemma_pairs_to_map_finite<V>(s: Seq<(Seq<char>, V)>)
    ensures
        pairs_to_map(s).dom().finite(),
    decreases s.len(),
{
    if s.len() > 0 {
        lemma_pairs_to_map_finite(s.drop_last());
    }
}

/// With unique names, each name of the map carries the value of the pair
/// that holds that name.
pub proof fn lemma_pairs_to_map_lookup<V>(s: Seq<(Seq<char>, V)>, k: Seq<char>)
    requires
        keys_unique(s),
        pairs_to_map(s).contains_key(k),
    ensures
        exists|i: int| 0 <= i < s.len() && s[i].0 == k && s[i].1 == pairs_to_map(s)[k],
{
    lemma_pairs_to_map_dom(s, k);
    let i = choose|i: int| 0 <= i < s.len() && s[i].0 == k;
    lemma_pairs_to_map_value(s, i);
}

/// With unique names, the map has one name per pair.
pub proof fn lemma_pairs_to_map_len<V>(s: Seq<(Seq<char>, V)>)
    requires
        keys_unique(s),
    ensures
        pairs_to_map(s).dom().len() == s.len(),
    decreases s.len(),
{
    if s.len() > 0 {
        let t = s.drop_last();
        assert(keys_unique(t));
        lemma_pairs_to_map_len(t);
        lemma_pairs_to_map_finite(t);
        lemma_pairs_to_map_dom(t, s.last().0);
        if pairs_to_map(t).contains_key(s.last().0) {
            let i = choose|i: int| 0 <= i < t.len() && t[i].0 == s.last().0;
            assert(s[i].0 == s[s.len() - 1].0);
        }
        assert(pairs_to_map(s).dom() =~= pairs_to_map(t).dom().insert(s.last().0));
    }
}

/// A name carries the value of its last pair: later pairs with the same name
/// replace earlier ones.
pub proof fn lemma_pairs_to_map_last_wins<V>(s: Seq<(Seq<char>, V)>, i: int)
    requires
        0 <= i < s.len(),
        forall|j: int| i < j < s.len() ==> s[j].0 != s[i].0,
    ensures
        pairs_to_map(s).contains_key(s[i].0),
        pairs_to_map(s)[s[i].0] == s[i].1,
    decreases s.len(),
{
    if i < s.len() - 1 {
        assert forall|j: int| i < j < s.drop_last().len() implies s.drop_last()[j].0 != s.drop_last()[i].0 by {
            assert(s.drop_last()[j] == s[j]);
        }
        lemma_pairs_to_map_last_wins(s.drop_last(), i);
        assert(s.drop_last()[i] == s[i]);
        assert(s[s.len() - 1].0 != s[i].0);
    }
}

/// Inserting a fresh name at the end keeps names unique.
proof fn lemma_push_unique<V>(s: Seq<(Seq<char>, V)>, k: Seq<char>, v: V)
    requires
        keys_unique(s),
        forall|i: int| 0 <= i < s.len() ==> s[i].0 != k,
    ensures
        keys_unique(s.push((k, v))),
        pairs_to_map(s.push((k, v))) == pairs_to_map(s).insert(k, v),
{
    assert(s.push((k, v)).drop_last() =~= s);
}

/// Replacing the value of the pair at `i` keeps the names, and updates the map there.
proof fn lemma_update_value<V>(s: Seq<(Seq<char>, V)>, i: int, v: V)
    requires
        keys_unique(s),
        0 <= i < s.len(),
    ensures
        keys_unique(s.update(i, (s[i].0, v))),
        pairs_to_map(s.update(i, (s[i].0, v))) == pairs_to_map(s).insert(s[i].0, v),
    decreases s.len(),
{
    let t = s.update(i, (s[i].0, v));
    assert(keys_unique(t));
    if i == s.len() - 1 {
        assert(t.drop_last() =~= s.drop_last());
        assert(pairs_to_map(s).insert(s[i].0, v) =~= pairs_to_map(s.drop_last()).insert(s[i].0, v));
    } else {
        assert(keys_unique(s.drop_last()));
        lemma_update_value(s.drop_last(), i, v);
        assert(t.drop_last() =~= s.drop_last().update(i, (s[i].0, v)));
        assert(s[i].0 != s.last().0);
        assert(pairs_to_map(t) =~= pairs_to_map(s).insert(s[i].0, v));
    }
}

/// A finite map from names to values that keeps its entries in the order in
/// which their names were first inserted.
pub struct NameMap<V> {
    entries: Vec<(String, V)>,
}

impl<V> NameMap<V> {
    /// The entries as (name, value) pairs, in insertion order.
    pub closed spec fn pairs(self) -> Seq<(Seq<char>, V)> {
        Seq::new(self.entries@.len(), |i: int| (self.entries@[i].0@, self.entries@[i].1))
    }

    /// No name occurs twice.
    #[verifier::type_invariant]
    pub open spec fn well_formed(self) -> bool {
        keys_unique(self.pairs())
    }

    /// An empty map.
    pub fn new() -> (m: Self)
        ensures
            m.pairs() == Seq::<(Seq<char>, V)>::empty(),
            m@ == Map::<Seq<char>, V>::empty(),
    {
        let m = NameMap { entries: Vec::new() };
        assert(m.pairs() =~= Seq::<(Seq<char>, V)>::empty());
        m
    }

    /// The number of names in the map.
    pub fn len(&self) -> (n: usize)
        ensures
            n == self.pairs().len(),
    {
        self.entries.len()
    }

    /// The entries in insertion order.
    pub fn entries(&self) -> (s: &[(String, V)])
        ensures
            s@.len() == self.pairs().len(),
            forall|i: int| 0 <= i < s@.len() ==> (#[trigger] s@[i]).0@ == self.pairs()[i].0 && s@[i].1
                == self.pairs()[i].1,
    {
        self.entries.as_slice()
    }

    /// The position of the entry named `key`, if there is one.
    pub fn position(&self, key: &str) -> (r: Option<usize>)
        ensures
            match r {
                Some(i) => i < self.pairs().len() && self.pairs()[i as int].0 == key@,
                None => forall|i: int| 0 <= i < self.pairs().len() ==> self.pairs()[i].0 != key@,
            },
    {
        let k: String = key.to_owned();
        let mut i: usize = 0;
        while i < self.entries.len()
            invariant
                i <= self.entries@.len(),
                k@ == key@,
                forall|j: int| 0 <= j < i ==> self.pairs()[j].0 != key@,
            decreases self.entries@.len() - i,
        {
            if self.entries[i].0 == k {
                return Some(i);
            }
            i = i + 1;
        }
        None
    }

    /// Whether some entry is named `key`.
    pub fn contains_key(&self, key: &str) -> (b: bool)
        ensures
            b == self@.contains_key(key@),
    {
        proof {
            lemma_pairs_to_map_dom(self.pairs(), key@);
        }
        match self.position(key) {
            Some(_) => true,
            None => false,
        }
    }

    /// The value stored under `key`, if there is one.
    pub fn get(&self, key: &str) -> (r: Option<&V>)
        ensures
            match r {
                Some(v) => self@.contains_key(key@) && *v == self@[key@],
                None => !self@.contains_key(key@),
            },
    {
        proof {
            lemma_pairs_to_map_dom(self.pairs(), key@);
        }
        match self.position(key) {
            Some(i) => {
                proof {
                    use_type_invariant(self);
                    lemma_pairs_to_map_value(self.pairs(), i as int);
                }
                Some(&self.entries[i].1)
            },
            None => None,
        }
    }

    /// Stores `value` under `key`: a new name goes at the end, a known name
    /// keeps its place and gets the new value.
    pub fn insert(&mut self, key: String, value: V)
        ensures
            final(self)@ == old(self)@.insert(key@, value),
            !old(self)@.contains_key(key@) ==> final(self).pairs() == old(self).pairs().push(
                (key@, value),
            ),
            forall|i: int|
                0 <= i < old(self).pairs().len() && old(self).pairs()[i].0 == key@
                    ==> final(self).pairs() == old(self).pairs().update(i, (key@, value)),
    {
        proof {
            use_type_invariant(&*self);
        }
        let ghost old_pairs = self.pairs();
        proof {
            lemma_pairs_to_map_dom(old_pairs, key@);
        }
        let pos = self.position(key.as_str());
        let mut entries: Vec<(String, V)> = Vec::new();
        std::mem::swap(&mut entries, &mut self.entries);
        assert(old_pairs =~= Seq::new(entries@.len(), |j: int| (entries@[j].0@, entries@[j].1)));
        match pos {
            Some(i) => {
                proof {
                    lemma_update_value(old_pairs, i as int, value);
                }
                entries.set(i, (key, value));
                assert(Seq::new(entries@.len(), |j: int| (entries@[j].0@, entries@[j].1))
                    =~= old_pairs.update(i as int, (old_pairs[i as int].0, value)));
                self.entries = entries;
                assert(self.pairs() =~= old_pairs.update(i as int, (old_pairs[i as int].0, value)));
                assert forall|j: int|
                    0 <= j < old_pairs.len() && old_pairs[j].0 == old_pairs[i as int].0 implies j
                    == i by {
                    if j != i {
                        assert(old_pairs[j].0 != old_pairs[i as int].0);
                    }
                }
            },
            None => {
                proof {
                    lemma_push_unique(old_pairs, key@, value);
                }
                entries.push((key, value));
                assert(Seq::new(entries@.len(), |j: int| (entries@[j].0@, entries@[j].1))
                    =~= old_pairs.push((key@, value)));
                self.entries = entries;
                assert(self.pairs() =~= old_pairs.push((key@, value)));
            },
        }
    }

    /// The map built from `pairs`, a later pair replacing an earlier one with
    /// the same name.
    pub fn from_pairs(pairs: Vec<(String, V)>) -> (m: Self)
        ensures
            m@ == pairs_to_map(Seq::new(pairs@.len(), |i: int| (pairs@[i].0@, pairs@[i].1))),
    {
        let ghost src = Seq::new(pairs@.len(), |i: int| (pairs@[i].0@, pairs@[i].1));
        let mut m = NameMap::new();
        let mut rest = pairs;
        let mut idx: usize = 0;
        let n = rest.len();
        let mut rev: Vec<(String, V)> = Vec::new();
        while rest.len() > 0
            invariant
                rest@.len() + rev@.len() == n,
                n == src.len(),
                forall|j: int| 0 <= j < rest@.len() ==> (rest@[j].0@, rest@[j].1) == src[j],
                forall|j: int|
                    0 <= j < rev@.len() ==> (rev@[j].0@, rev@[j].1) == src[n - 1 - j],
            decreases rest@.len(),
        {
            let p = rest.pop().unwrap();
            rev.push(p);
        }
        while rev.len() > 0
            invariant
                idx + rev@.len() == n,
                n == src.len(),
                forall|j: int|
                    0 <= j < rev@.len() ==> (rev@[j].0@, rev@[j].1) == src[n - 1 - j],
                m@ == pairs_to_map(src.take(idx as int)),
            decreases rev@.len(),
        {
            let p = rev.pop().unwrap();
            assert(src.take(idx + 1).drop_last() =~= src.take(idx as int));
            m.insert(p.0, p.1);
            idx = idx + 1;
        }
        assert(src.take(n as int) =~= src);
        m
    }
}

impl<V> View for NameMap<V> {
    type V = Map<Seq<char>, V>;

    open spec fn view(&self) -> Map<Seq<char>, V> {
        pairs_to_map(self.pairs())
    }
}

} // verus!
