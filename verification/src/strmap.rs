//! A small map keyed by text, kept as a vector of entries whose keys are
//! pairwise distinct: lookups and inserts behave as a `HashMap<String, _>`'s
//! do, and the entries keep the order in which their keys first came.

use vstd::prelude::*;

use crate::text::seq_equal;
use crate::text::chars_of;

verus! {

/// A map from text to values, with `HashMap` semantics.
pub struct StrMap<V> {
    entries: Vec<(String, V)>,
}

/// The map that a list of entries with distinct keys describes.
pub open spec fn entries_map<V>(es: Seq<(String, V)>) -> Map<Seq<char>, V>
    decreases es.len(),
{
    if es.len() == 0 {
        Map::empty()
    } else {
        entries_map(es.drop_last()).insert(es.last().0@, es.last().1)
    }
}

/// No key occurs twice among the entries.
pub open spec fn keys_distinct<V>(es: Seq<(String, V)>) -> bool {
    forall|i: int, j: int| 0 <= i < j < es.len() ==> #[trigger] es[i].0@ != #[trigger] es[j].0@
}

/// With distinct keys, the map holds exactly the entries, one key each.
pub proof fn lemma_entries_map<V>(es: Seq<(String, V)>)
    requires
        keys_distinct(es),
    ensures
        forall|k: Seq<char>|
            #[trigger] entries_map(es).dom().contains(k) <==> exists|i: int|
                0 <= i < es.len() && es[i].0@ == k,
        forall|i: int|
            0 <= i < es.len() ==> #[trigger] entries_map(es)[es[i].0@] == es[i].1
                && entries_map(es).dom().contains(es[i].0@),
        entries_map(es).dom().finite(),
        entries_map(es).dom().len() == es.len(),
    decreases es.len(),
{
    if es.len() > 0 {
        let init = es.drop_last();
        assert(keys_distinct(init)) by {
            assert forall|i: int, j: int| 0 <= i < j < init.len() implies #[trigger] init[i].0@
                != #[trigger] init[j].0@ by {
                assert(init[i] == es[i] && init[j] == es[j]);
            }
        }
        lemma_entries_map(init);
        let last = es.last();
        assert(!entries_map(init).dom().contains(last.0@)) by {
            if entries_map(init).dom().contains(last.0@) {
                let i = choose|i: int| 0 <= i < init.len() && init[i].0@ == last.0@;
                assert(es[i].0@ == es[es.len() - 1].0@);
            }
        }
        assert forall|k: Seq<char>| #[trigger]
            entries_map(es).dom().contains(k) <==> exists|i: int|
                0 <= i < es.len() && es[i].0@ == k by {
            if entries_map(es).dom().contains(k) {
                if k == last.0@ {
                    assert(es[es.len() - 1].0@ == k);
                } else {
                    let i = choose|i: int| 0 <= i < init.len() && init[i].0@ == k;
                    assert(es[i] == init[i]);
                }
            }
            if exists|i: int| 0 <= i < es.len() && es[i].0@ == k {
                let i = choose|i: int| 0 <= i < es.len() && es[i].0@ == k;
                if i < es.len() - 1 {
                    assert(init[i] == es[i]);
                }
            }
        }
        assert forall|i: int| 0 <= i < es.len() implies #[trigger] entries_map(es)[es[i].0@]
            == es[i].1 && entries_map(es).dom().contains(es[i].0@) by {
            if i < es.len() - 1 {
                assert(init[i] == es[i]);
                assert(es[i].0@ != last.0@);
            }
        }
    }
}

impl<V> View for StrMap<V> {
    type V = Map<Seq<char>, V>;

    closed spec fn view(&self) -> Map<Seq<char>, V> {
        entries_map(self.entries@)
    }
}

impl<V> StrMap<V> {
    /// No key occurs twice.
    #[verifier::type_invariant]
    spec fn keys_unique(self) -> bool {
        keys_distinct(self.entries@)
    }

    /// The entries in the order their keys were first inserted.
    pub closed spec fn entry_seq(&self) -> Seq<(String, V)> {
        self.entries@
    }

    /// An empty map.
    pub fn new() -> (m: Self)
        ensures
            m@ == Map::<Seq<char>, V>::empty(),
            m.entry_seq().len() == 0,
    {
        StrMap { entries: Vec::new() }
    }

    /// How many keys the map holds.
    pub fn len(&self) -> (n: usize)
        ensures
            n == self@.dom().len(),
            n == self.entry_seq().len(),
    {
        proof {
            use_type_invariant(self);
            lemma_entries_map(self.entries@);
        }
        self.entries.len()
    }

    /// The entries, in the order their keys were first inserted: one per key
    /// of the map, with the key's value.
    pub fn entries(&self) -> (es: &Vec<(String, V)>)
        ensures
            es@ == self.entry_seq(),
            keys_distinct(es@),
            self@ == entries_map(es@),
            forall|k: Seq<char>|
                #[trigger] self@.dom().contains(k) <==> exists|i: int|
                    0 <= i < es@.len() && es@[i].0@ == k,
            forall|i: int|
                0 <= i < es@.len() ==> #[trigger] self@[es@[i].0@] == es@[i].1
                    && self@.dom().contains(es@[i].0@),
            self@.dom().len() == es@.len(),
    {
        proof {
            use_type_invariant(self);
            lemma_entries_map(self.entries@);
        }
        &self.entries
    }

    fn position(&self, key: &Vec<char>) -> (r: Option<usize>)
        ensures
            match r {
                Some(i) => i < self.entry_seq().len() && self.entry_seq()[i as int].0@ == key@,
                None => forall|i: int|
                    0 <= i < self.entry_seq().len() ==> #[trigger] self.entry_seq()[i].0@ != key@,
            },
    {
        let mut i: usize = 0;
        while i < self.entries.len()
            invariant
                i <= self.entries.len(),
                forall|j: int| 0 <= j < i ==> #[trigger] self.entries@[j].0@ != key@,
            decreases self.entries.len() - i,
        {
            let k = chars_of(self.entries[i].0.as_str());
            if seq_equal(&k, key) {
                return Some(i);
            }
            i = i + 1;
        }
        None
    }

    /// The value stored under `key`, as `HashMap::get`.
    pub fn get(&self, key: &str) -> (r: Option<&V>)
        ensures
            match r {
                Some(v) => self@.dom().contains(key@) && self@[key@] == *v,
                None => !self@.dom().contains(key@),
            },
    {
        proof {
            use_type_invariant(self);
            lemma_entries_map(self.entries@);
        }
        let k = chars_of(key);
        assert(self.entry_seq() == self.entries@);
        match self.position(&k) {
            Some(i) => Some(&self.entries[i].1),
            None => None,
        }
    }

    /// Stores `value` under `key`, replacing an earlier value, as
    /// `HashMap::insert` does.
    pub fn insert(&mut self, key: String, value: V)
        ensures
            final(self)@ == old(self)@.insert(key@, value),
    {
        proof {
            use_type_invariant(&*self);
            lemma_entries_map(self.entries@);
        }
        let k = chars_of(key.as_str());
        let ghost old_es = self.entries@;
        let found = self.position(&k);
        assert(self.entry_seq() == old_es);
        assert(keys_distinct(old_es));
        let mut es: Vec<(String, V)> = Vec::new();
        std::mem::swap(&mut es, &mut self.entries);
        assert(es@ == old_es);
        match found {
            Some(i) => {
                let ghost new_es = old_es.update(i as int, (key, value));
                proof {
                    assert(keys_distinct(new_es)) by {
                        assert forall|a: int, b: int| 0 <= a < b < new_es.len() implies #[trigger] new_es[a].0@
                            != #[trigger] new_es[b].0@ by {
                            if a != i && b != i {
                                assert(new_es[a] == old_es[a] && new_es[b] == old_es[b]);
                            } else if a == i {
                                assert(new_es[b] == old_es[b]);
                            } else {
                                assert(new_es[a] == old_es[a]);
                            }
                        }
                    }
                    lemma_entries_map(new_es);
                    lemma_entries_map(old_es);
                    let m_new = entries_map(new_es);
                    let m_old = entries_map(old_es).insert(key@, value);
                    assert forall|q: Seq<char>| #[trigger] m_new.dom().contains(q) == m_old.dom().contains(q)
                        by {
                        if m_new.dom().contains(q) {
                            let j = choose|j: int| 0 <= j < new_es.len() && new_es[j].0@ == q;
                            if j != i {
                                assert(old_es[j] == new_es[j]);
                            }
                        }
                        if q == key@ {
                            assert(new_es[i as int].0@ == key@);
                            assert(m_new.dom().contains(new_es[i as int].0@));
                        }
                        if m_old.dom().contains(q) && q != key@ {
                            let j = choose|j: int| 0 <= j < old_es.len() && old_es[j].0@ == q;
                            assert(j != i);
                            assert(old_es[j] == new_es[j]);
                        }
                    }
                    assert forall|q: Seq<char>| #[trigger] m_new.dom().contains(q) implies m_new[q]
                        == m_old[q] by {
                        let j = choose|j: int| 0 <= j < new_es.len() && new_es[j].0@ == q;
                        if j != i {
                            assert(old_es[j] == new_es[j]);
                        }
                    }
                    assert(m_new =~= m_old);
                }
                es.set(i, (key, value));
                assert(es@ == new_es);
                self.entries = es;
            },
            None => {
                let ghost new_es = old_es.push((key, value));
                proof {
                    assert(keys_distinct(new_es)) by {
                        assert forall|a: int, b: int| 0 <= a < b < new_es.len() implies #[trigger] new_es[a].0@
                            != #[trigger] new_es[b].0@ by {
                            assert(new_es[a] == old_es[a]);
                            if b < old_es.len() {
                                assert(new_es[b] == old_es[b]);
                            }
                        }
                    }
                    assert(new_es.drop_last() =~= old_es);
                }
                es.push((key, value));
                assert(es@ == new_es);
                self.entries = es;
            },
        }
    }
}

} // verus!
