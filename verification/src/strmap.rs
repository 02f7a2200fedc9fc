//! A map keyed by strings, kept as a list of entries in insertion order with
//! no key twice. Its view is the mathematical map from keys to the values'
//! views.
use vstd::prelude::*;
use crate::text::{chars_eq, chars_of};

verus! {

/// The map that a list of (key, value) pairs describes; a later pair
/// overrides an earlier one with the same key.
pub open spec fn pairs_map<V>(es: Seq<(Seq<char>, V)>) -> Map<Seq<char>, V>
    decreases es.len(),
{
    if es.len() == 0 {
        Map::empty()
    } else {
        pairs_map(es.drop_last()).insert(es.last().0, es.last().1)
    }
}

pub open spec fn keys_unique<V>(es: Seq<(Seq<char>, V)>) -> bool {
    forall|i: int, j: int| 0 <= i < es.len() && 0 <= j < es.len() && i != j ==> es[i].0 != es[j].0
}

pub proof fn lemma_pairs_map_dom<V>(es: Seq<(Seq<char>, V)>, k: Seq<char>)
    ensures
        pairs_map(es).dom().contains(k) <==> exists|i: int| 0 <= i < es.len() && es[i].0 == k,
    decreases es.len(),
{
    if es.len() > 0 {
        lemma_pairs_map_dom(es.drop_last(), k);
        if pairs_map(es).dom().contains(k) && k != es.last().0 {
            let i = choose|i: int| 0 <= i < es.drop_last().len() && es.drop_last()[i].0 == k;
            assert(es[i].0 == k);
        }
        if exists|i: int| 0 <= i < es.len() && es[i].0 == k {
            let i = choose|i: int| 0 <= i < es.len() && es[i].0 == k;
            if i < es.len() - 1 {
                assert(es.drop_last()[i].0 == k);
            }
        }
    }
}

pub proof fn lemma_pairs_map_val<V>(es: Seq<(Seq<char>, V)>, i: int)
    requires
        keys_unique(es),
        0 <= i < es.len(),
    ensures
        pairs_map(es).dom().contains(es[i].0),
        pairs_map(es)[es[i].0] == es[i].1,
    decreases es.len(),
{
    if i < es.len() - 1 {
        lemma_pairs_map_val(es.drop_last(), i);
        assert(es.drop_last()[i] == es[i]);
    }
}

/// A string-keyed map.
pub struct StrMap<T: View> {
    entries: Vec<(String, T)>,
}

impl<T: View> StrMap<T> {
    /// The entries in insertion order, by their views.
    pub closed spec fn entry_views(&self) -> Seq<(Seq<char>, T::V)> {
        self.entries@.map_values(|p: (String, T)| (p.0@, p.1@))
    }

    #[verifier::type_invariant]
    closed spec fn inv(&self) -> bool {
        keys_unique(self.entry_views())
    }

    /// The keys in insertion order.
    pub closed spec fn key_order(&self) -> Seq<Seq<char>> {
        self.entry_views().map_values(|p: (Seq<char>, T::V)| p.0)
    }

    pub fn new() -> (m: Self)
        ensures
            m@ == Map::<Seq<char>, T::V>::empty(),
            m.key_order() == Seq::<Seq<char>>::empty(),
    {
        let m = StrMap { entries: Vec::new() };
        assert(m.entry_views() =~= Seq::<(Seq<char>, T::V)>::empty());
        assert(m.key_order() =~= Seq::<Seq<char>>::empty());
        m
    }

    pub fn len(&self) -> (n: usize)
        ensures
            n == self@.dom().len(),
            n == self.key_order().len(),
    {
        proof {
            use_type_invariant(self);
            self.lemma_dom_finite_len();
        }
        self.entries.len()
    }

    proof fn lemma_dom_finite_len(&self)
        requires
            keys_unique(self.entry_views()),
        ensures
            self@.dom().finite(),
            self@.dom().len() == self.entries.len(),
            self.key_order().len() == self.entries.len(),
            self.key_order().no_duplicates(),
            self@.dom() == self.key_order().to_set(),
    {
        let ko = self.key_order();
        assert(ko.no_duplicates()) by {
            assert forall|i: int, j: int| 0 <= i < ko.len() && 0 <= j < ko.len() && i != j implies ko[i] != ko[j] by {
                assert(ko[i] == self.entry_views()[i].0);
                assert(ko[j] == self.entry_views()[j].0);
            }
        }
        assert forall|k: Seq<char>| self@.dom().contains(k) <==> ko.to_set().contains(k) by {
            lemma_pairs_map_dom(self.entry_views(), k);
            if ko.to_set().contains(k) {
                let i = choose|i: int| 0 <= i < ko.len() && ko[i] == k;
                assert(self.entry_views()[i].0 == k);
            }
            if self@.dom().contains(k) {
                let i = choose|i: int| 0 <= i < self.entry_views().len() && self.entry_views()[i].0 == k;
                assert(ko[i] == k);
            }
        }
        assert(self@.dom() =~= ko.to_set());
        ko.unique_seq_to_set();
    }

    /// The entry at position `i` in insertion order.
    pub fn entry(&self, i: usize) -> (r: (&String, &T))
        requires
            i < self.key_order().len(),
        ensures
            r.0@ == self.key_order()[i as int],
            self@.dom().contains(r.0@),
            self@[r.0@] == r.1@,
    {
        proof {
            use_type_invariant(self);
            lemma_pairs_map_val(self.entry_views(), i as int);
        }
        let e = &self.entries[i];
        (&e.0, &e.1)
    }

    fn index_of(&self, key: &Vec<char>) -> (r: Option<usize>)
        ensures
            r matches Some(i) ==> i < self.entries.len() && self.entry_views()[i as int].0 == key@,
            r is None ==> !self@.dom().contains(key@),
    {
        proof {
            use_type_invariant(self);
        }
        let mut i: usize = 0;
        while i < self.entries.len()
            invariant
                i <= self.entries.len(),
                forall|j: int| 0 <= j < i ==> self.entry_views()[j].0 != key@,
            decreases self.entries.len() - i,
        {
            let k = chars_of(self.entries[i].0.as_str());
            if chars_eq(&k, key) {
                return Some(i);
            }
            i += 1;
        }
        proof {
            lemma_pairs_map_dom(self.entry_views(), key@);
        }
        None
    }

    /// Facts about the key order: no key twice, and the keys are those of
    /// the map.
    pub fn key_order_facts(&self)
        ensures
            self.key_order().no_duplicates(),
            forall|k: Seq<char>| #![auto] self@.dom().contains(k) <==> self.key_order().contains(k),
            self.key_order().len() == self@.dom().len(),
            self@.dom().finite(),
    {
        proof {
            use_type_invariant(self);
            self.lemma_dom_finite_len();
            assert forall|k: Seq<char>| #![auto] self@.dom().contains(k) <==> self.key_order().contains(k) by {
                assert(self.key_order().to_set().contains(k) == self.key_order().contains(k));
            }
        }
    }

    /// The position of `key` in the key order.
    pub fn index_of_key(&self, key: &Vec<char>) -> (r: Option<usize>)
        ensures
            r matches Some(i) ==> i < self.key_order().len() && self.key_order()[i as int] == key@,
            r is None ==> !self@.dom().contains(key@),
    {
        let r = self.index_of(key);
        r
    }

    /// The value stored under `key`.
    pub fn get_chars(&self, key: &Vec<char>) -> (r: Option<&T>)
        ensures
            r matches Some(v) ==> self@.dom().contains(key@) && v@ == self@[key@],
            r is None ==> !self@.dom().contains(key@),
    {
        proof {
            use_type_invariant(self);
        }
        match self.index_of(key) {
            Some(i) => {
                proof {
                    lemma_pairs_map_val(self.entry_views(), i as int);
                }
                Some(&self.entries[i].1)
            },
            None => None,
        }
    }

    /// The value stored under `key`.
    pub fn get(&self, key: &str) -> (r: Option<&T>)
        ensures
            r matches Some(v) ==> self@.dom().contains(key@) && v@ == self@[key@],
            r is None ==> !self@.dom().contains(key@),
    {
        let k = chars_of(key);
        self.get_chars(&k)
    }

    /// Stores `value` under `key`, replacing what was there.
    pub fn insert(&mut self, key: String, value: T)
        ensures
            final(self)@ == old(self)@.insert(key@, value@),
            old(self)@.dom().contains(key@) ==> final(self).key_order() == old(self).key_order(),
            !old(self)@.dom().contains(key@) ==> final(self).key_order() == old(self).key_order().push(key@),
    {
        proof {
            use_type_invariant(&*self);
        }
        let kc = chars_of(key.as_str());
        let ghost old_es = self.entry_views();
        match self.index_of(&kc) {
            Some(i) => {
                let ghost new_es = old_es.update(i as int, (key@, value@));
                proof {
                    lemma_pairs_map_val(old_es, i as int);
                }
                assert(keys_unique(new_es));
                let mut es: Vec<(String, T)> = Vec::new();
                std::mem::swap(&mut es, &mut self.entries);
                es.set(i, (key, value));
                assert(es@.map_values(|p: (String, T)| (p.0@, p.1@)) =~= new_es);
                self.entries = es;
                proof {
                    assert(self.entry_views() == new_es);
                    assert forall|k: Seq<char>| #![auto] pairs_map(new_es).dom().contains(k) <==> pairs_map(old_es).insert(key@, value@).dom().contains(k) by {
                        lemma_pairs_map_dom(new_es, k);
                        lemma_pairs_map_dom(old_es, k);
                        if k == key@ {
                            assert(new_es[i as int].0 == k);
                        }
                        if k != key@ && pairs_map(old_es).dom().contains(k) {
                            let j = choose|j: int| 0 <= j < old_es.len() && old_es[j].0 == k;
                            assert(new_es[j].0 == k);
                        }
                        if pairs_map(new_es).dom().contains(k) {
                            let j = choose|j: int| 0 <= j < new_es.len() && new_es[j].0 == k;
                            if j != i { assert(old_es[j].0 == k); }
                        }
                    }
                    assert forall|k: Seq<char>| #![auto] pairs_map(new_es).dom().contains(k) implies pairs_map(new_es)[k] == pairs_map(old_es).insert(key@, value@)[k] by {
                        lemma_pairs_map_dom(new_es, k);
                        let j = choose|j: int| 0 <= j < new_es.len() && new_es[j].0 == k;
                        lemma_pairs_map_val(new_es, j);
                        if j != i {
                            lemma_pairs_map_val(old_es, j);
                        }
                    }
                    assert(pairs_map(new_es) =~= pairs_map(old_es).insert(key@, value@));
                    assert(self.key_order() =~= old(self).key_order());
                }
            },
            None => {
                let ghost new_es = old_es.push((key@, value@));
                proof {
                    assert forall|j: int| 0 <= j < old_es.len() implies old_es[j].0 != key@ by {
                        lemma_pairs_map_dom(old_es, key@);
                    }
                    assert(keys_unique(new_es));
                    assert(new_es.drop_last() =~= old_es);
                }
                let mut es: Vec<(String, T)> = Vec::new();
                std::mem::swap(&mut es, &mut self.entries);
                es.push((key, value));
                assert(es@.map_values(|p: (String, T)| (p.0@, p.1@)) =~= new_es);
                self.entries = es;
                proof {
                    assert(self.key_order() =~= old(self).key_order().push(key@));
                }
            },
        }
    }
}

impl<T: View> StrMap<T> {
    /// Removes the entry under `key`, if there is one.
    pub fn remove(&mut self, key: &str)
        ensures
            final(self)@ == old(self)@.remove(key@),
    {
        proof {
            use_type_invariant(&*self);
        }
        let kc = chars_of(key);
        let ghost old_es = self.entry_views();
        match self.index_of(&kc) {
            Some(i) => {
                let ghost new_es = old_es.remove(i as int);
                assert(keys_unique(new_es)) by {
                    assert forall|a: int, b: int| 0 <= a < new_es.len() && 0 <= b < new_es.len() && a != b implies new_es[a].0 != new_es[b].0 by {
                        let a0 = if a < i { a } else { a + 1 };
                        let b0 = if b < i { b } else { b + 1 };
                        assert(new_es[a] == old_es[a0]);
                        assert(new_es[b] == old_es[b0]);
                    }
                }
                let mut es: Vec<(String, T)> = Vec::new();
                std::mem::swap(&mut es, &mut self.entries);
                es.remove(i);
                assert(es@.map_values(|p: (String, T)| (p.0@, p.1@)) =~= new_es);
                self.entries = es;
                proof {
                    assert(self.entry_views() == new_es);
                    assert forall|k: Seq<char>| #![auto] pairs_map(new_es).dom().contains(k) <==> pairs_map(old_es).remove(key@).dom().contains(k) by {
                        lemma_pairs_map_dom(new_es, k);
                        lemma_pairs_map_dom(old_es, k);
                        if pairs_map(new_es).dom().contains(k) {
                            let j = choose|j: int| 0 <= j < new_es.len() && new_es[j].0 == k;
                            let j0 = if j < i { j } else { j + 1 };
                            assert(old_es[j0].0 == k);
                            assert(j0 != i);
                        }
                        if k != key@ && pairs_map(old_es).dom().contains(k) {
                            let j = choose|j: int| 0 <= j < old_es.len() && old_es[j].0 == k;
                            assert(j != i);
                            let j1 = if j < i { j } else { j - 1 };
                            assert(new_es[j1].0 == k);
                        }
                    }
                    assert forall|k: Seq<char>| #![auto] pairs_map(new_es).dom().contains(k) implies pairs_map(new_es)[k] == pairs_map(old_es)[k] by {
                        lemma_pairs_map_dom(new_es, k);
                        let j = choose|j: int| 0 <= j < new_es.len() && new_es[j].0 == k;
                        let j0 = if j < i { j } else { j + 1 };
                        lemma_pairs_map_val(new_es, j);
                        lemma_pairs_map_val(old_es, j0);
                    }
                    assert(pairs_map(new_es) =~= pairs_map(old_es).remove(key@));
                }
            },
            None => {
                assert(self@ =~= old(self)@.remove(key@));
            },
        }
    }
}

/// Values that can be copied with the same view.
pub trait ViewCopy: View + Sized {
    fn view_copy(&self) -> (r: Self)
        ensures
            r@ == self@,
    ;
}

impl ViewCopy for String {
    fn view_copy(&self) -> (r: String) {
        self.clone()
    }
}

impl<T: ViewCopy> StrMap<T> {
    /// Copies every entry of `other` in, replacing values under keys that
    /// are already present.
    pub fn extend_from(&mut self, other: &StrMap<T>)
        ensures
            final(self)@ == old(self)@.union_prefer_right(other@),
    {
        other.key_order_facts();
        let ghost ko = other.key_order();
        let n = other.len();
        let mut i: usize = 0;
        assert(other@.restrict(ko.take(0).to_set()) =~= Map::<Seq<char>, T::V>::empty());
        assert(old(self)@.union_prefer_right(Map::<Seq<char>, T::V>::empty()) =~= old(self)@);
        while i < n
            invariant
                n == ko.len(),
                ko == other.key_order(),
                i <= n,
                forall|k: Seq<char>| #![auto] other@.dom().contains(k) <==> ko.contains(k),
                self@ == old(self)@.union_prefer_right(other@.restrict(ko.take(i as int).to_set())),
            decreases n - i,
        {
            let (k, v) = other.entry(i);
            let ghost before = self@;
            self.insert(k.clone(), v.view_copy());
            proof {
                assert(ko.take(i + 1).to_set() =~= ko.take(i as int).to_set().insert(k@)) by {
                    assert(ko.take(i + 1) =~= ko.take(i as int).push(k@));
                    ko.take(i as int).lemma_push_to_set_commute(k@);
                }
                assert(self@ =~= old(self)@.union_prefer_right(
                    other@.restrict(ko.take(i + 1).to_set()),
                ));
            }
            i += 1;
        }
        proof {
            assert(ko.take(n as int) =~= ko);
            assert(other@.restrict(ko.to_set()) =~= other@) by {
                assert forall|k: Seq<char>| #![auto] ko.to_set().contains(k) <==> other@.dom().contains(k) by {
                    assert(ko.to_set().contains(k) == ko.contains(k));
                }
            }
        }
    }

    /// A copy of the map.
    pub fn copy(&self) -> (r: StrMap<T>)
        ensures
            r@ == self@,
    {
        let mut r = StrMap::new();
        r.extend_from(self);
        assert(Map::<Seq<char>, T::V>::empty().union_prefer_right(self@) =~= self@);
        r
    }
}

impl<T: View> View for StrMap<T> {
    type V = Map<Seq<char>, T::V>;

    closed spec fn view(&self) -> Map<Seq<char>, T::V> {
        pairs_map(self.entry_views())
    }
}

} // verus!
