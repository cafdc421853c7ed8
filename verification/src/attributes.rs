//! Opaque string attributes, ordered by key.
use vstd::prelude::*;

use crate::json::{keys_in_order, pair_views};
use crate::text::{
    lemma_text_total, lemma_text_transitive, precedes, same_text, text_before,
};

verus! {

/// A map from strings to strings, kept in the order of its keys.
#[derive(Debug, PartialEq, Eq)]
pub struct Attributes {
    entries: Vec<(String, String)>,
}

/// Whether every key comes before the keys after it.
spec fn in_order(entries: Seq<(String, String)>) -> bool {
    forall|i: int, j: int|
        0 <= i < j < entries.len() ==> text_before(
            #[trigger] entries[i].0@,
            #[trigger] entries[j].0@,
        )
}

/// Whether the `i`-th entry is the one for a key.
spec fn keyed(entries: Seq<(String, String)>, key: Seq<char>, i: int) -> bool {
    0 <= i < entries.len() && entries[i].0@ == key
}

spec fn has_key(entries: Seq<(String, String)>, key: Seq<char>) -> bool {
    exists|i: int| #[trigger] keyed(entries, key, i)
}

spec fn value_for(entries: Seq<(String, String)>, key: Seq<char>) -> Seq<char> {
    entries[choose|i: int| #[trigger] keyed(entries, key, i)].1@
}

spec fn map_of(entries: Seq<(String, String)>) -> Map<Seq<char>, Seq<char>> {
    Map::new(|key: Seq<char>| has_key(entries, key), |key: Seq<char>| value_for(entries, key))
}

proof fn lemma_keyed_unique(entries: Seq<(String, String)>, key: Seq<char>, i: int)
    requires
        in_order(entries),
        keyed(entries, key, i),
    ensures
        has_key(entries, key),
        value_for(entries, key) == entries[i].1@,
{
    let j: int = choose|j: int| #[trigger] keyed(entries, key, j);
    lemma_text_total(key, key);
    if i < j {
        assert(text_before(entries[i].0@, entries[j].0@));
    } else if j < i {
        assert(text_before(entries[j].0@, entries[i].0@));
    }
}

/// Whether the `i`-th pair is the one for a key.
pub open spec fn pair_keyed(pairs: Seq<(Seq<char>, Seq<char>)>, key: Seq<char>, i: int) -> bool {
    0 <= i < pairs.len() && pairs[i].0 == key
}

/// The map with the given keys and values.
pub open spec fn map_of_pairs(pairs: Seq<(Seq<char>, Seq<char>)>) -> Map<Seq<char>, Seq<char>> {
    Map::new(
        |key: Seq<char>| exists|i: int| #[trigger] pair_keyed(pairs, key, i),
        |key: Seq<char>| pairs[choose|i: int| #[trigger] pair_keyed(pairs, key, i)].1,
    )
}

proof fn lemma_map_of_pairs(entries: Seq<(String, String)>)
    requires
        in_order(entries),
    ensures
        map_of(entries) == map_of_pairs(pair_views(entries)),
{
    let pairs: Seq<(Seq<char>, Seq<char>)> = pair_views(entries);
    let a: Map<Seq<char>, Seq<char>> = map_of(entries);
    let b: Map<Seq<char>, Seq<char>> = map_of_pairs(pairs);
    assert forall|key: Seq<char>| #[trigger] a.dom().contains(key) == b.dom().contains(key) && (
    b.dom().contains(key) ==> a[key] == b[key]) by {
        if has_key(entries, key) {
            let i: int = choose|i: int| #[trigger] keyed(entries, key, i);
            assert(pair_keyed(pairs, key, i));
        }
        if exists|i: int| #[trigger] pair_keyed(pairs, key, i) {
            let i: int = choose|i: int| #[trigger] pair_keyed(pairs, key, i);
            assert(keyed(entries, key, i));
            lemma_keyed_unique(entries, key, i);
        }
    }
    assert(a =~= b);
}

impl View for Attributes {
    type V = Map<Seq<char>, Seq<char>>;

    closed spec fn view(&self) -> Map<Seq<char>, Seq<char>> {
        map_of(self.entries@)
    }
}

impl Attributes {
    #[verifier::type_invariant]
    spec fn sorted(self) -> bool {
        in_order(self.entries@)
    }

    /// No attributes.
    pub fn new() -> (r: Attributes)
        ensures
            r@ == Map::<Seq<char>, Seq<char>>::empty(),
            r.pairs() == Seq::<(Seq<char>, Seq<char>)>::empty(),
    {
        let r: Attributes = Attributes { entries: Vec::new() };
        assert(r@ =~= Map::<Seq<char>, Seq<char>>::empty());
        assert(r.pairs() =~= Seq::<(Seq<char>, Seq<char>)>::empty());
        r
    }

    /// Number of attributes.
    pub fn len(&self) -> (r: usize)
        ensures
            r == self.pairs().len(),
    {
        self.entries.len()
    }

    /// The `i`-th attribute in key order.
    pub fn entry(&self, i: usize) -> (r: (&str, &str))
        requires
            i < self.pairs().len(),
        ensures
            (r.0@, r.1@) == self.pairs()[i as int],
    {
        (self.entries[i].0.as_str(), self.entries[i].1.as_str())
    }

    /// The value of a key.
    pub fn get(&self, key: &str) -> (r: Option<&str>)
        ensures
            match r {
                Some(value) => self@.dom().contains(key@) && self@[key@] == value@,
                None => !self@.dom().contains(key@),
            },
    {
        proof {
            use_type_invariant(self);
        }
        let mut i: usize = 0;
        while i < self.entries.len()
            invariant
                i <= self.entries@.len(),
                in_order(self.entries@),
                forall|j: int| 0 <= j < i ==> !#[trigger] keyed(self.entries@, key@, j),
            decreases self.entries@.len() - i,
        {
            if same_text(self.entries[i].0.as_str(), key) {
                proof {
                    assert(keyed(self.entries@, key@, i as int));
                    lemma_keyed_unique(self.entries@, key@, i as int);
                }
                return Some(self.entries[i].1.as_str());
            }
            i = i + 1;
        }
        None
    }

    /// The attributes with the given keys and values, which are in key order.
    pub(crate) fn from_entries(entries: Vec<(String, String)>) -> (r: Attributes)
        requires
            keys_in_order(pair_views(entries@)),
        ensures
            r.pairs() == pair_views(entries@),
            r@ == map_of_pairs(pair_views(entries@)),
    {
        proof {
            let pairs: Seq<(Seq<char>, Seq<char>)> = pair_views(entries@);
            assert forall|i: int, j: int| 0 <= i < j < entries@.len() implies text_before(
                #[trigger] entries@[i].0@,
                #[trigger] entries@[j].0@,
            ) by {
                assert(text_before(pairs[i].0, pairs[j].0));
            }
        }
        let r: Attributes = Attributes { entries };
        proof {
            lemma_map_of_pairs(r.entries@);
        }
        r
    }

    /// Keys and values, in key order.
    pub closed spec fn pairs(&self) -> Seq<(Seq<char>, Seq<char>)> {
        pair_views(self.entries@)
    }

    /// Keys and values, in key order.
    pub(crate) fn entries(&self) -> (r: &Vec<(String, String)>)
        ensures
            pair_views(r@) == self.pairs(),
            keys_in_order(self.pairs()),
            self@ == map_of_pairs(self.pairs()),
    {
        proof {
            use_type_invariant(self);
            let pairs: Seq<(Seq<char>, Seq<char>)> = self.pairs();
            assert forall|i: int, j: int| 0 <= i < j < pairs.len() implies text_before(
                (#[trigger] pairs[i]).0,
                (#[trigger] pairs[j]).0,
            ) by {
                assert(text_before(self.entries@[i].0@, self.entries@[j].0@));
            }
            lemma_map_of_pairs(self.entries@);
        }
        &self.entries
    }

    /// Whether a key has a value.
    pub fn contains_key(&self, key: &str) -> (r: bool)
        ensures
            r == self@.dom().contains(key@),
    {
        self.get(key).is_some()
    }

    /// Sets the value of a key.
    pub fn insert(&mut self, key: String, value: String)
        ensures
            final(self)@ == old(self)@.insert(key@, value@),
    {
        proof {
            use_type_invariant(&*self);
        }
        let ghost before: Seq<(String, String)> = self.entries@;
        let mut entries: Vec<(String, String)> = Vec::new();
        std::mem::swap(&mut entries, &mut self.entries);
        let mut i: usize = 0;
        while i < entries.len() && precedes(entries[i].0.as_str(), key.as_str())
            invariant
                i <= entries@.len(),
                entries@ == before,
                forall|j: int| 0 <= j < i ==> text_before(#[trigger] before[j].0@, key@),
            decreases entries@.len() - i,
        {
            i = i + 1;
        }
        let ghost fresh: (String, String) = (key, value);
        if i < entries.len() && same_text(entries[i].0.as_str(), key.as_str()) {
            entries.set(i, (key, value));
            proof {
                lemma_replaced(before, entries@, i as int, fresh);
            }
        } else {
            entries.insert(i, (key, value));
            proof {
                lemma_inserted(before, entries@, i as int, fresh);
            }
        }
        self.entries = entries;
    }
}

proof fn lemma_replaced(
    before: Seq<(String, String)>,
    after: Seq<(String, String)>,
    i: int,
    fresh: (String, String),
)
    requires
        in_order(before),
        0 <= i < before.len(),
        before[i].0@ == fresh.0@,
        after == before.update(i, fresh),
    ensures
        in_order(after),
        map_of(after) == map_of(before).insert(fresh.0@, fresh.1@),
{
    assert forall|a: int, b: int| 0 <= a < b < after.len() implies text_before(
        #[trigger] after[a].0@,
        #[trigger] after[b].0@,
    ) by {
        assert(text_before(before[a].0@, before[b].0@));
    }
    let whole: Map<Seq<char>, Seq<char>> = map_of(before).insert(fresh.0@, fresh.1@);
    assert forall|key: Seq<char>| #[trigger] map_of(after).dom().contains(key) == whole.dom().contains(
        key,
    ) && (whole.dom().contains(key) ==> map_of(after)[key] == whole[key]) by {
        if has_key(after, key) {
            let a: int = choose|a: int| #[trigger] keyed(after, key, a);
            assert(keyed(before, key, a));
            lemma_keyed_unique(after, key, a);
            lemma_keyed_unique(before, key, a);
            if a != i {
                lemma_text_total(key, key);
                assert(key != fresh.0@) by {
                    if a < i {
                        assert(text_before(before[a].0@, before[i].0@));
                    } else {
                        assert(text_before(before[i].0@, before[a].0@));
                    }
                }
            }
        }
        if has_key(before, key) {
            let a: int = choose|a: int| #[trigger] keyed(before, key, a);
            assert(keyed(after, key, a));
        }
        assert(keyed(after, fresh.0@, i));
    }
    assert(map_of(after) =~= whole);
}

proof fn lemma_inserted(
    before: Seq<(String, String)>,
    after: Seq<(String, String)>,
    i: int,
    fresh: (String, String),
)
    requires
        in_order(before),
        0 <= i <= before.len(),
        forall|j: int| 0 <= j < i ==> text_before(#[trigger] before[j].0@, fresh.0@),
        i < before.len() ==> !text_before(before[i].0@, fresh.0@) && before[i].0@ != fresh.0@,
        after == before.insert(i, fresh),
    ensures
        in_order(after),
        map_of(after) == map_of(before).insert(fresh.0@, fresh.1@),
{
    assert forall|j: int| i <= j < before.len() implies text_before(
        fresh.0@,
        #[trigger] before[j].0@,
    ) by {
        lemma_text_total(before[i].0@, fresh.0@);
        if i < j {
            assert(text_before(before[i].0@, before[j].0@));
            lemma_text_transitive(fresh.0@, before[i].0@, before[j].0@);
        }
    }
    assert forall|a: int, b: int| 0 <= a < b < after.len() implies text_before(
        #[trigger] after[a].0@,
        #[trigger] after[b].0@,
    ) by {
        if a < i && b < i {
            assert(text_before(before[a].0@, before[b].0@));
        } else if a < i && b > i {
            assert(text_before(before[a].0@, before[b - 1].0@));
        } else if a > i {
            assert(text_before(before[a - 1].0@, before[b - 1].0@));
        } else if a == i {
            assert(after[b] == before[b - 1]);
        } else {
            assert(after[a] == before[a]);
        }
    }
    let whole: Map<Seq<char>, Seq<char>> = map_of(before).insert(fresh.0@, fresh.1@);
    assert(keyed(after, fresh.0@, i));
    lemma_keyed_unique(after, fresh.0@, i);
    assert forall|key: Seq<char>| #[trigger] map_of(after).dom().contains(key) == whole.dom().contains(
        key,
    ) && (whole.dom().contains(key) ==> map_of(after)[key] == whole[key]) by {
        if has_key(after, key) && key != fresh.0@ {
            let a: int = choose|a: int| #[trigger] keyed(after, key, a);
            let b: int = if a < i {
                a
            } else {
                a - 1
            };
            assert(keyed(before, key, b));
            lemma_keyed_unique(after, key, a);
            lemma_keyed_unique(before, key, b);
        }
        if has_key(before, key) {
            let b: int = choose|b: int| #[trigger] keyed(before, key, b);
            let a: int = if b < i {
                b
            } else {
                b + 1
            };
            assert(keyed(after, key, a));
        }
    }
    assert(map_of(after) =~= whole);
}

impl Clone for Attributes {
    fn clone(&self) -> (r: Attributes)
        ensures
            r@ == self@,
            r.pairs() == self.pairs(),
    {
        proof {
            use_type_invariant(self);
        }
        let mut entries: Vec<(String, String)> = Vec::new();
        let mut i: usize = 0;
        while i < self.entries.len()
            invariant
                i <= self.entries@.len(),
                entries@.len() == i,
                forall|j: int| 0 <= j < i ==> #[trigger] entries@[j] == self.entries@[j],
            decreases self.entries@.len() - i,
        {
            entries.push((self.entries[i].0.clone(), self.entries[i].1.clone()));
            i = i + 1;
        }
        assert(entries@ =~= self.entries@);
        Attributes { entries }
    }
}

} // verus!
