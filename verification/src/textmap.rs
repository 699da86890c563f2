//! A small map keyed by text. It stands where a hash map keyed by `String`
//! would: every name is held once, a later insert under a name replaces the
//! earlier value, and the order of the entries carries no meaning.

use vstd::prelude::*;

verus! {

/// The mapping that a list of `(name, value)` entries stands for; where a name
/// occurs twice, the later entry counts.
pub open spec fn entries_view<V: View>(s: Seq<(String, V)>) -> Map<Seq<char>, V::V>
    decreases s.len(),
{
    if s.len() == 0 {
        Map::empty()
    } else {
        entries_view(s.drop_last()).insert(s.last().0@, s.last().1@)
    }
}

/// The names of a list of entries, in order.
pub open spec fn entry_names<V>(s: Seq<(String, V)>) -> Seq<Seq<char>> {
    Seq::new(s.len(), |i: int| s[i].0@)
}

proof fn lemma_entries_view<V: View>(s: Seq<(String, V)>)
    requires
        entry_names(s).no_duplicates(),
    ensures
        forall|i: int|
            0 <= i < s.len() ==> entries_view(s).dom().contains(#[trigger] s[i].0@) && entries_view(
                s,
            )[s[i].0@] == s[i].1@,
        forall|k: Seq<char>| #[trigger]
            entries_view(s).dom().contains(k) ==> entry_names(s).contains(k),
        entries_view(s).dom().finite(),
    decreases s.len(),
{
    if s.len() > 0 {
        let t = s.drop_last();
        assert forall|i: int, j: int| 0 <= i < j < t.len() implies entry_names(t)[i] != entry_names(
            t,
        )[j] by {
            assert(entry_names(s)[i] != entry_names(s)[j]);
        }
        lemma_entries_view(t);
        assert forall|i: int| 0 <= i < s.len() implies entries_view(s).dom().contains(
            #[trigger] s[i].0@,
        ) && entries_view(s)[s[i].0@] == s[i].1@ by {
            if i < s.len() - 1 {
                assert(t[i] == s[i]);
                assert(entry_names(s)[i] != entry_names(s)[s.len() - 1]);
            }
        }
        assert forall|k: Seq<char>| #[trigger]
            entries_view(s).dom().contains(k) implies entry_names(s).contains(k) by {
            if k == s.last().0@ {
                assert(entry_names(s)[s.len() - 1] == k);
            } else {
                assert(entry_names(t).contains(k));
                let i = choose|i: int| 0 <= i < t.len() && entry_names(t)[i] == k;
                assert(entry_names(s)[i] == k);
            }
        }
    }
}

proof fn lemma_entries_view_update<V: View>(s: Seq<(String, V)>, i: int, e: (String, V))
    requires
        entry_names(s).no_duplicates(),
        0 <= i < s.len(),
        e.0@ == s[i].0@,
    ensures
        entries_view(s.update(i, e)) == entries_view(s).insert(e.0@, e.1@),
        entry_names(s.update(i, e)) == entry_names(s),
    decreases s.len(),
{
    let u = s.update(i, e);
    assert(entry_names(u) =~= entry_names(s));
    let t = s.drop_last();
    if i == s.len() - 1 {
        assert(u.drop_last() =~= t);
        assert(entries_view(u) =~= entries_view(s).insert(e.0@, e.1@));
    } else {
        assert forall|a: int, b: int| 0 <= a < b < t.len() implies entry_names(t)[a] != entry_names(
            t,
        )[b] by {
            assert(entry_names(s)[a] != entry_names(s)[b]);
        }
        lemma_entries_view_update(t, i, e);
        assert(u.drop_last() =~= t.update(i, e));
        assert(entry_names(s)[i] != entry_names(s)[s.len() - 1]);
        assert(entries_view(u) =~= entries_view(s).insert(e.0@, e.1@));
    }
}

/// A map from names to values of type `V`.
#[derive(Debug)]
pub struct TextMap<V> {
    entries: Vec<(String, V)>,
}

impl<V: View> View for TextMap<V> {
    type V = Map<Seq<char>, V::V>;

    closed spec fn view(&self) -> Map<Seq<char>, V::V> {
        entries_view(self.entries@)
    }
}

impl<V> TextMap<V> {
    #[verifier::type_invariant]
    spec fn names_are_unique(self) -> bool {
        entry_names(self.entries@).no_duplicates()
    }
}

impl<V: View> TextMap<V> {
    /// The names held, in the order in which `name_at` hands them out.
    pub closed spec fn names(self) -> Seq<Seq<char>> {
        entry_names(self.entries@)
    }

    /// The empty map.
    pub fn new() -> (r: Self)
        ensures
            r@ == Map::<Seq<char>, V::V>::empty(),
            r.names().len() == 0,
    {
        TextMap { entries: Vec::new() }
    }

    /// The number of names held, which is the size of the map. Each name of the
    /// map is among `names()` once.
    pub fn len(&self) -> (n: usize)
        ensures
            n == self@.dom().len(),
            n == self.names().len(),
            self.names().no_duplicates(),
            self@.dom().finite(),
            forall|k: Seq<char>| self@.dom().contains(k) <==> self.names().contains(k),
    {
        proof {
            use_type_invariant(self);
            lemma_entries_view(self.entries@);
            assert forall|k: Seq<char>| self.names().contains(k) implies self@.dom().contains(
                k,
            ) by {
                let i = choose|i: int| 0 <= i < self.names().len() && self.names()[i] == k;
                assert(self.entries@[i].0@ == k);
            }
            self.names().unique_seq_to_set();
            assert(self.names().to_set() =~= self@.dom());
        }
        self.entries.len()
    }

    /// The `i`-th name held.
    pub fn name_at(&self, i: usize) -> (r: &String)
        requires
            i < self.names().len(),
        ensures
            r@ == self.names()[i as int],
    {
        &self.entries[i].0
    }

    /// The value under the `i`-th name.
    pub fn value_at(&self, i: usize) -> (r: &V)
        requires
            i < self.names().len(),
        ensures
            self@.dom().contains(self.names()[i as int]),
            r@ == self@[self.names()[i as int]],
    {
        proof {
            use_type_invariant(self);
            lemma_entries_view(self.entries@);
        }
        &self.entries[i].1
    }

    fn position(&self, name: &String) -> (r: Option<usize>)
        ensures
            match r {
                Some(i) => i < self.entries@.len() && self.entries@[i as int].0@ == name@,
                None => !entry_names(self.entries@).contains(name@),
            },
    {
        let mut i: usize = 0;
        while i < self.entries.len()
            invariant
                i <= self.entries@.len(),
                forall|j: int| 0 <= j < i ==> self.entries@[j].0@ != name@,
            decreases self.entries@.len() - i,
        {
            if self.entries[i].0 == *name {
                return Some(i);
            }
            i += 1;
        }
        None
    }

    /// The value held under `name`, if any.
    pub fn get(&self, name: &str) -> (r: Option<&V>)
        ensures
            match r {
                Some(v) => self@.dom().contains(name@) && self@[name@] == v@,
                None => !self@.dom().contains(name@),
            },
    {
        let key = name.to_owned();
        proof {
            use_type_invariant(self);
            lemma_entries_view(self.entries@);
        }
        match self.position(&key) {
            Some(i) => Some(&self.entries[i].1),
            None => None,
        }
    }

    /// Whether a value is held under `name`.
    pub fn contains_key(&self, name: &str) -> (r: bool)
        ensures
            r == self@.dom().contains(name@),
    {
        self.get(name).is_some()
    }

    /// Puts `value` under `name`, in place of what was held there before.
    pub fn insert(&mut self, name: String, value: V)
        ensures
            final(self)@ == old(self)@.insert(name@, value@),
    {
        proof {
            use_type_invariant(&*self);
        }
        let found = self.position(&name);
        let mut entries: Vec<(String, V)> = Vec::new();
        assert(entry_names(entries@) =~= Seq::<Seq<char>>::empty());
        std::mem::swap(&mut self.entries, &mut entries);
        let ghost before = entries@;
        match found {
            Some(i) => {
                proof {
                    lemma_entries_view_update(before, i as int, (name, value));
                }
                entries.set(i, (name, value));
            },
            None => {
                entries.push((name, value));
                assert(entries@.drop_last() =~= before);
                assert forall|a: int, b: int| 0 <= a < b < entries@.len() implies entry_names(
                    entries@,
                )[a] != entry_names(entries@)[b] by {
                    assert(entry_names(before)[a] == entry_names(entries@)[a]);
                    if b < before.len() {
                        assert(entry_names(before)[b] == entry_names(entries@)[b]);
                    }
                }
            },
        }
        std::mem::swap(&mut self.entries, &mut entries);
    }
}

} // verus!
