//! Small string-keyed maps on vectors: a key → position map, and a key →
//! posting-list map. Keys are compared as whole strings and are distinct.
use vstd::prelude::*;

verus! {

/// Whether no two entries share a key.
pub open spec fn keys_distinct<V>(e: Seq<(String, V)>) -> bool {
    forall|i: int, j: int|
        #![trigger e[i], e[j]]
        0 <= i < e.len() && 0 <= j < e.len() && i != j ==> e[i].0@ != e[j].0@
}

/// Whether some entry has key `k`.
pub open spec fn has_key<V>(e: Seq<(String, V)>, k: Seq<char>) -> bool {
    exists|i: int| 0 <= i < e.len() && #[trigger] e[i].0@ == k
}

/// The value of the entry with key `k` (meaningful where `has_key`).
pub open spec fn value_for<V>(e: Seq<(String, V)>, k: Seq<char>) -> V {
    e[choose|i: int| 0 <= i < e.len() && #[trigger] e[i].0@ == k].1
}

/// The entries as a map.
pub open spec fn entries_map<V>(e: Seq<(String, V)>) -> Map<Seq<char>, V> {
    Map::new(|k: Seq<char>| has_key(e, k), |k: Seq<char>| value_for(e, k))
}

pub proof fn lemma_value_at<V>(e: Seq<(String, V)>, i: int)
    requires
        keys_distinct(e),
        0 <= i < e.len(),
    ensures
        has_key(e, e[i].0@),
        value_for(e, e[i].0@) == e[i].1,
        entries_map(e).contains_key(e[i].0@),
        entries_map(e)[e[i].0@] == e[i].1,
{
    assert(e[i].0@ == e[i].0@);
    let j = choose|j: int| 0 <= j < e.len() && #[trigger] e[j].0@ == e[i].0@;
    assert(e[i] == e[i] && e[j] == e[j]);
}

proof fn lemma_map_after_set<V>(e: Seq<(String, V)>, j: int, k: String, v: V)
    requires
        keys_distinct(e),
        0 <= j < e.len(),
        e[j].0@ == k@,
    ensures
        keys_distinct(e.update(j, (k, v))),
        entries_map(e.update(j, (k, v))) =~= entries_map(e).insert(k@, v),
{
    let f = e.update(j, (k, v));
    assert forall|a: int, b: int|
        #![trigger f[a], f[b]]
        0 <= a < f.len() && 0 <= b < f.len() && a != b implies f[a].0@ != f[b].0@ by {
        assert(e[a] == e[a] && e[b] == e[b]);
    }
    assert forall|x: Seq<char>| #[trigger] has_key(f, x) == has_key(e, x) by {
        if has_key(e, x) {
            let i = choose|i: int| 0 <= i < e.len() && #[trigger] e[i].0@ == x;
            assert(f[i].0@ == x);
        }
        if has_key(f, x) {
            let i = choose|i: int| 0 <= i < f.len() && #[trigger] f[i].0@ == x;
            assert(e[i].0@ == x);
        }
    }
    assert forall|x: Seq<char>| has_key(f, x) implies #[trigger] value_for(f, x) == (if x == k@ {
        v
    } else {
        value_for(e, x)
    }) by {
        let i = choose|i: int| 0 <= i < f.len() && #[trigger] f[i].0@ == x;
        lemma_value_at(f, i);
        if i != j {
            lemma_value_at(e, i);
        }
    }
}

proof fn lemma_map_after_push<V>(e: Seq<(String, V)>, k: String, v: V)
    requires
        keys_distinct(e),
        !has_key(e, k@),
    ensures
        keys_distinct(e.push((k, v))),
        entries_map(e.push((k, v))) =~= entries_map(e).insert(k@, v),
{
    let f = e.push((k, v));
    assert forall|a: int, b: int|
        #![trigger f[a], f[b]]
        0 <= a < f.len() && 0 <= b < f.len() && a != b implies f[a].0@ != f[b].0@ by {
        if a < e.len() && b < e.len() {
            assert(e[a] == f[a] && e[b] == f[b]);
        } else if a < e.len() {
            assert(e[a] == f[a]);
        } else {
            assert(e[b] == f[b]);
        }
    }
    assert forall|x: Seq<char>| #[trigger] has_key(f, x) == (has_key(e, x) || x == k@) by {
        if has_key(e, x) {
            let i = choose|i: int| 0 <= i < e.len() && #[trigger] e[i].0@ == x;
            assert(f[i].0@ == x);
        }
        if x == k@ {
            assert(f[e.len() as int].0@ == x);
        }
        if has_key(f, x) {
            let i = choose|i: int| 0 <= i < f.len() && #[trigger] f[i].0@ == x;
            if i < e.len() {
                assert(e[i].0@ == x);
            }
        }
    }
    assert forall|x: Seq<char>| has_key(f, x) implies #[trigger] value_for(f, x) == (if x == k@ {
        v
    } else {
        value_for(e, x)
    }) by {
        let i = choose|i: int| 0 <= i < f.len() && #[trigger] f[i].0@ == x;
        lemma_value_at(f, i);
        if i < e.len() {
            assert(e[i] == f[i]);
            lemma_value_at(e, i);
        }
    }
}

/// Position of the entry with key `k`, if any.
fn find_key<V>(e: &Vec<(String, V)>, k: &str) -> (r: Option<usize>)
    ensures
        r.is_none() == !has_key(e@, k@),
        r.is_some() ==> r.unwrap() < e@.len() && e@[r.unwrap() as int].0@ == k@,
{
    let key = k.to_owned();
    let mut i: usize = 0;
    while i < e.len()
        invariant
            i <= e@.len(),
            key@ == k@,
            forall|m: int| 0 <= m < i ==> e@[m].0@ != k@,
        decreases e@.len() - i,
    {
        if e[i].0 == key {
            return Some(i);
        }
        i = i + 1;
    }
    None
}

/// A map from string keys to record positions.
#[derive(Debug, Clone)]
pub struct NameIndex {
    entries: Vec<(String, usize)>,
}

impl View for NameIndex {
    type V = Map<Seq<char>, usize>;

    closed spec fn view(&self) -> Map<Seq<char>, usize> {
        entries_map(self.entries@)
    }
}

impl NameIndex {
    pub closed spec fn wf(&self) -> bool {
        keys_distinct(self.entries@)
    }

    /// The entries in insertion order.
    pub closed spec fn entry_seq(&self) -> Seq<(String, usize)> {
        self.entries@
    }

    pub fn new() -> (r: Self)
        ensures
            r.wf(),
            r@ == Map::<Seq<char>, usize>::empty(),
    {
        let r = NameIndex { entries: Vec::new() };
        assert(r@ =~= Map::<Seq<char>, usize>::empty());
        r
    }

    /// The position stored under `k`.
    pub fn get(&self, k: &str) -> (r: Option<usize>)
        requires
            self.wf(),
        ensures
            r == if self@.contains_key(k@) {
                Some(self@[k@])
            } else {
                None::<usize>
            },
    {
        match find_key(&self.entries, k) {
            Some(i) => {
                proof {
                    lemma_value_at(self.entries@, i as int);
                }
                Some(self.entries[i].1)
            },
            None => None,
        }
    }

    /// Whether `k` is a key.
    pub fn contains_key(&self, k: &str) -> (r: bool)
        requires
            self.wf(),
        ensures
            r == self@.contains_key(k@),
    {
        find_key(&self.entries, k).is_some()
    }

    /// Store `v` under `k`, replacing any earlier value.
    pub fn insert(&mut self, k: String, v: usize)
        requires
            old(self).wf(),
        ensures
            final(self).wf(),
            final(self)@ == old(self)@.insert(k@, v),
    {
        match find_key(&self.entries, k.as_str()) {
            Some(j) => {
                proof {
                    lemma_map_after_set(self.entries@, j as int, k, v);
                }
                self.entries.set(j, (k, v));
            },
            None => {
                proof {
                    lemma_map_after_push(self.entries@, k, v);
                }
                self.entries.push((k, v));
            },
        }
    }

    /// Number of entries.
    pub fn len(&self) -> (r: usize)
        ensures
            r == self.entry_seq().len(),
    {
        self.entries.len()
    }

    /// The entry at `i`, which is one of the map's pairs.
    pub fn entry(&self, i: usize) -> (r: (&String, usize))
        requires
            self.wf(),
            i < self.entry_seq().len(),
        ensures
            *r.0 == self.entry_seq()[i as int].0,
            r.1 == self.entry_seq()[i as int].1,
            self@.contains_key(r.0@),
            self@[r.0@] == r.1,
    {
        proof {
            lemma_value_at(self.entries@, i as int);
        }
        (&self.entries[i].0, self.entries[i].1)
    }

    /// The entry at `i` is one of the map's pairs.
    pub proof fn lemma_entry_in_map(&self, i: int)
        requires
            self.wf(),
            0 <= i < self.entry_seq().len(),
        ensures
            self@.contains_key(self.entry_seq()[i].0@),
            self@[self.entry_seq()[i].0@] == self.entry_seq()[i].1,
    {
        lemma_value_at(self.entries@, i);
    }

    /// Every key of the map is the key of some entry.
    pub proof fn lemma_key_has_entry(&self, k: Seq<char>)
        requires
            self.wf(),
            self@.contains_key(k),
        ensures
            exists|i: int| 0 <= i < self.entry_seq().len() && #[trigger] self.entry_seq()[i].0@ == k,
    {
        assert(has_key(self.entries@, k));
        let i = choose|i: int| 0 <= i < self.entries@.len() && #[trigger] self.entries@[i].0@ == k;
        assert(self.entry_seq()[i].0@ == k);
    }
}

/// A map from string keys to posting lists of record positions.
#[derive(Debug, Clone)]
pub struct PostingIndex {
    entries: Vec<(String, Vec<usize>)>,
}

impl View for PostingIndex {
    type V = Map<Seq<char>, Seq<usize>>;

    closed spec fn view(&self) -> Map<Seq<char>, Seq<usize>> {
        entries_map(self.entries@).map_values(|v: Vec<usize>| v@)
    }
}

/// The posting list under `k`, empty where there is none.
pub open spec fn postings(m: Map<Seq<char>, Seq<usize>>, k: Seq<char>) -> Seq<usize> {
    if m.contains_key(k) {
        m[k]
    } else {
        Seq::empty()
    }
}

impl PostingIndex {
    pub closed spec fn wf(&self) -> bool {
        keys_distinct(self.entries@)
    }

    pub fn new() -> (r: Self)
        ensures
            r.wf(),
            r@ == Map::<Seq<char>, Seq<usize>>::empty(),
    {
        let r = PostingIndex { entries: Vec::new() };
        assert(r@ =~= Map::<Seq<char>, Seq<usize>>::empty());
        r
    }

    /// Append `v` to the list under `k`, creating the list if needed.
    pub fn append(&mut self, k: String, v: usize)
        requires
            old(self).wf(),
        ensures
            final(self).wf(),
            final(self)@ == old(self)@.insert(k@, postings(old(self)@, k@).push(v)),
    {
        match find_key(&self.entries, k.as_str()) {
            Some(j) => {
                let ghost e = self.entries@;
                proof {
                    lemma_value_at(e, j as int);
                }
                let mut list: Vec<usize> = Vec::new();
                std::mem::swap(&mut list, &mut self.entries[j].1);
                assert(list@ == e[j as int].1@);
                list.push(v);
                let ghost list_v = list;
                let ghost k_v = k;
                proof {
                    lemma_map_after_set(e, j as int, k, list_v);
                }
                self.entries.set(j, (k, list));
                proof {
                    assert(self.entries@ =~= e.update(j as int, (k_v, list_v)));
                    assert(postings(old(self)@, k@) == e[j as int].1@);
                    assert(self@ =~= old(self)@.insert(k@, postings(old(self)@, k@).push(v)));
                }
            },
            None => {
                let mut list: Vec<usize> = Vec::new();
                list.push(v);
                proof {
                    lemma_map_after_push(self.entries@, k, list);
                }
                self.entries.push((k, list));
                proof {
                    assert(self@ =~= old(self)@.insert(k@, postings(old(self)@, k@).push(v)));
                }
            },
        }
    }

    /// The list under `k`, empty where there is none.
    pub fn get(&self, k: &str) -> (r: &[usize])
        requires
            self.wf(),
        ensures
            r@ == postings(self@, k@),
    {
        match find_key(&self.entries, k) {
            Some(i) => {
                proof {
                    lemma_value_at(self.entries@, i as int);
                }
                self.entries[i].1.as_slice()
            },
            None => &[],
        }
    }

    /// Number of keys.
    pub fn len(&self) -> (r: usize) {
        self.entries.len()
    }
}

} // verus!
