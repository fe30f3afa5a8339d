//! The headers container: a mapping from header name to header value.
//!
//! Names are matched exactly, byte for byte: `Host` and `host` are two
//! different headers. Entries are kept in the order in which their names were
//! first inserted, and that is the order in which they go onto the wire.

use super::text::str_eq;
use vstd::prelude::*;

verus! {

/// The mapping that a list of name/value pairs builds when the pairs are
/// inserted front to back; a later pair overwrites an earlier one of the
/// same name.
pub open spec fn pairs_map<K, V>(pairs: Seq<(K, V)>) -> Map<K, V>
    decreases pairs.len(),
{
    if pairs.len() == 0 {
        Map::empty()
    } else {
        pairs_map(pairs.drop_last()).insert(pairs.last().0, pairs.last().1)
    }
}

/// No name occurs twice.
pub open spec fn keys_distinct<K, V>(pairs: Seq<(K, V)>) -> bool {
    forall|i: int, j: int| 0 <= i < j < pairs.len() ==> pairs[i].0 != pairs[j].0
}

/// The position of `key` among `pairs`, or their number where it is absent.
pub open spec fn index_of<K, V>(pairs: Seq<(K, V)>, key: K) -> int
    decreases pairs.len(),
{
    if pairs.len() == 0 {
        0
    } else if pairs[0].0 == key {
        0
    } else {
        1 + index_of(pairs.drop_first(), key)
    }
}

/// `pairs` with `value` under `key`: in the place of the pair of that name,
/// or at the end where there is none.
pub open spec fn pairs_insert<K, V>(pairs: Seq<(K, V)>, key: K, value: V) -> Seq<(K, V)> {
    if index_of(pairs, key) < pairs.len() {
        pairs.update(index_of(pairs, key), (key, value))
    } else {
        pairs.push((key, value))
    }
}

/// `index_of` gives the first position that holds the name.
pub proof fn lemma_index_of<K, V>(pairs: Seq<(K, V)>, key: K)
    ensures
        0 <= index_of(pairs, key) <= pairs.len(),
        index_of(pairs, key) < pairs.len() ==> pairs[index_of(pairs, key)].0 == key,
        forall|i: int| 0 <= i < index_of(pairs, key) ==> (#[trigger] pairs[i]).0 != key,
    decreases pairs.len(),
{
    if pairs.len() > 0 && pairs[0].0 != key {
        let t = pairs.drop_first();
        lemma_index_of(t, key);
        assert forall|i: int| 0 <= i < index_of(pairs, key) implies (#[trigger] pairs[i]).0
            != key by {
            if i > 0 {
                assert(pairs[i] == t[i - 1]);
            }
        }
    }
}

/// What the mapping holds under a name is the value of the last pair of that name.
pub proof fn lemma_pairs_map_contains<K, V>(pairs: Seq<(K, V)>, key: K)
    ensures
        pairs_map(pairs).contains_key(key) <==> exists|i: int|
            0 <= i < pairs.len() && (#[trigger] pairs[i]).0 == key,
        pairs_map(pairs).dom().finite(),
    decreases pairs.len(),
{
    if pairs.len() > 0 {
        let t = pairs.drop_last();
        lemma_pairs_map_contains(t, key);
        if pairs_map(pairs).contains_key(key) {
            if pairs.last().0 == key {
                assert(pairs[pairs.len() - 1].0 == key);
            } else {
                let i = choose|i: int| 0 <= i < t.len() && (#[trigger] t[i]).0 == key;
                assert(pairs[i].0 == key);
            }
        }
        if exists|i: int| 0 <= i < pairs.len() && (#[trigger] pairs[i]).0 == key {
            let i = choose|i: int| 0 <= i < pairs.len() && (#[trigger] pairs[i]).0 == key;
            if i < t.len() {
                assert(t[i].0 == key);
            }
        }
    }
}

/// With distinct names, the mapping holds each pair's value under its name,
/// and has as many entries as there are pairs.
pub proof fn lemma_pairs_map_distinct<K, V>(pairs: Seq<(K, V)>)
    requires
        keys_distinct(pairs),
    ensures
        forall|i: int|
            0 <= i < pairs.len() ==> pairs_map(pairs).contains_key((#[trigger] pairs[i]).0)
                && pairs_map(pairs)[pairs[i].0] == pairs[i].1,
        pairs_map(pairs).dom().finite(),
        pairs_map(pairs).dom().len() == pairs.len(),
    decreases pairs.len(),
{
    if pairs.len() > 0 {
        let t = pairs.drop_last();
        let last = pairs.last();
        assert(keys_distinct(t)) by {
            assert forall|i: int, j: int| 0 <= i < j < t.len() implies t[i].0 != t[j].0 by {
                assert(t[i] == pairs[i] && t[j] == pairs[j]);
            }
        }
        lemma_pairs_map_distinct(t);
        lemma_pairs_map_contains(t, last.0);
        assert(!pairs_map(t).contains_key(last.0)) by {
            if pairs_map(t).contains_key(last.0) {
                let i = choose|i: int| 0 <= i < t.len() && (#[trigger] t[i]).0 == last.0;
                assert(pairs[i].0 == pairs[pairs.len() - 1].0);
            }
        }
        assert forall|i: int| 0 <= i < pairs.len() implies pairs_map(pairs).contains_key(
            (#[trigger] pairs[i]).0,
        ) && pairs_map(pairs)[pairs[i].0] == pairs[i].1 by {
            if i < t.len() {
                assert(t[i] == pairs[i]);
                assert(pairs[i].0 != pairs[pairs.len() - 1].0);
            }
        }
    }
}

/// Replacing the value of a pair is inserting under its name.
pub proof fn lemma_pairs_map_update<K, V>(pairs: Seq<(K, V)>, i: int, value: V)
    requires
        keys_distinct(pairs),
        0 <= i < pairs.len(),
    ensures
        keys_distinct(pairs.update(i, (pairs[i].0, value))),
        pairs_map(pairs.update(i, (pairs[i].0, value))) == pairs_map(pairs).insert(
            pairs[i].0,
            value,
        ),
    decreases pairs.len(),
{
    let key = pairs[i].0;
    let updated = pairs.update(i, (key, value));
    assert(keys_distinct(updated)) by {
        assert forall|a: int, b: int| 0 <= a < b < updated.len() implies updated[a].0
            != updated[b].0 by {
            assert(updated[a].0 == pairs[a].0 && updated[b].0 == pairs[b].0);
        }
    }
    let t = pairs.drop_last();
    assert(keys_distinct(t)) by {
        assert forall|a: int, b: int| 0 <= a < b < t.len() implies t[a].0 != t[b].0 by {
            assert(t[a] == pairs[a] && t[b] == pairs[b]);
        }
    }
    if i == pairs.len() - 1 {
        assert(updated.drop_last() =~= t);
        assert(pairs_map(updated) =~= pairs_map(pairs).insert(key, value));
    } else {
        lemma_pairs_map_update(t, i, value);
        assert(updated.drop_last() =~= t.update(i, (key, value)));
        assert(pairs.last().0 != key) by {
            assert(pairs[i].0 != pairs[pairs.len() - 1].0);
        }
        assert(pairs_map(updated) =~= pairs_map(pairs).insert(key, value));
    }
}

/// The name/value pairs that a list of entries holds.
pub open spec fn pairs_of(entries: Seq<(String, String)>) -> Seq<(Seq<char>, Seq<char>)> {
    Seq::new(entries.len(), |i: int| (entries[i].0@, entries[i].1@))
}

/// A repeated name overwrites: what the mapping holds under a name is the
/// value of the last pair of that name.
pub proof fn lemma_pairs_map_last_wins<K, V>(pairs: Seq<(K, V)>, i: int)
    requires
        0 <= i < pairs.len(),
        forall|j: int| i < j < pairs.len() ==> (#[trigger] pairs[j]).0 != pairs[i].0,
    ensures
        pairs_map(pairs).contains_key(pairs[i].0),
        pairs_map(pairs)[pairs[i].0] == pairs[i].1,
    decreases pairs.len(),
{
    if i < pairs.len() - 1 {
        let before = pairs.drop_last();
        assert(before[i] == pairs[i]);
        assert forall|j: int| i < j < before.len() implies (#[trigger] before[j]).0
            != before[i].0 by {
            assert(before[j] == pairs[j]);
        }
        lemma_pairs_map_last_wins(before, i);
        assert(pairs[pairs.len() - 1].0 != pairs[i].0);
    }
}

/// The headers of one request or response.
#[derive(Debug)]
pub struct Headers {
    entries: Vec<(String, String)>,
}

impl View for Headers {
    type V = Map<Seq<char>, Seq<char>>;

    /// The mapping from name to value.
    open spec fn view(&self) -> Map<Seq<char>, Seq<char>> {
        pairs_map(self.pairs())
    }
}

impl Headers {
    /// The entries as name/value pairs, in wire order.
    pub closed spec fn pairs(&self) -> Seq<(Seq<char>, Seq<char>)> {
        pairs_of(self.entries@)
    }

    #[verifier::type_invariant]
    spec fn names_are_distinct(&self) -> bool {
        keys_distinct(self.pairs())
    }

    /// An empty container.
    pub fn new() -> (r: Self)
        ensures
            r.pairs() == Seq::<(Seq<char>, Seq<char>)>::empty(),
            r@ == Map::<Seq<char>, Seq<char>>::empty(),
    {
        let r = Headers { entries: Vec::new() };
        assert(r.pairs() =~= Seq::empty());
        r
    }

    /// The number of entries.
    pub fn len(&self) -> (r: usize)
        ensures
            r == self.pairs().len(),
            r == self@.dom().len(),
    {
        proof {
            use_type_invariant(self);
            lemma_pairs_map_distinct(self.pairs());
        }
        self.entries.len()
    }

    /// The position of the entry named `key`, or the number of entries where
    /// there is none.
    fn position(&self, key: &str) -> (r: usize)
        ensures
            r == index_of(self.pairs(), key@),
            r <= self.entries@.len(),
    {
        let n: usize = self.entries.len();
        let mut i: usize = 0;
        while i < n
            invariant
                i <= n,
                n == self.entries@.len(),
                forall|k: int| 0 <= k < i ==> (#[trigger] self.pairs()[k]).0 != key@,
            decreases n - i,
        {
            if str_eq(self.entries[i].0.as_str(), key) {
                proof {
                    lemma_index_of_is(self.pairs(), key@, i as int);
                }
                return i;
            }
            i += 1;
        }
        proof {
            lemma_index_of_is(self.pairs(), key@, n as int);
        }
        n
    }

    /// Tells whether a header named `key` is present.
    pub fn contains_key(&self, key: &str) -> (r: bool)
        ensures
            r == self@.contains_key(key@),
    {
        let i = self.position(key);
        proof {
            lemma_index_of(self.pairs(), key@);
            lemma_pairs_map_contains(self.pairs(), key@);
        }
        i < self.entries.len()
    }

    /// The value of the header named `key`.
    pub fn get(&self, key: &str) -> (r: Option<&String>)
        ensures
            match r {
                Some(value) => self@.contains_key(key@) && value@ == self@[key@],
                None => !self@.contains_key(key@),
            },
    {
        let i = self.position(key);
        proof {
            lemma_index_of(self.pairs(), key@);
            lemma_pairs_map_contains(self.pairs(), key@);
            use_type_invariant(self);
            lemma_pairs_map_distinct(self.pairs());
        }
        if i < self.entries.len() {
            Some(&self.entries[i].1)
        } else {
            None
        }
    }

    /// Sets the header named `key` to `value`. An entry of that name keeps its
    /// place and hands back its old value; a new name goes to the end.
    pub fn insert(&mut self, key: String, value: String) -> (r: Option<String>)
        ensures
            final(self)@ == old(self)@.insert(key@, value@),
            match r {
                Some(previous) => old(self)@.contains_key(key@) && previous@ == old(self)@[key@],
                None => !old(self)@.contains_key(key@),
            },
            final(self).pairs() == pairs_insert(old(self).pairs(), key@, value@),
    {
        let i = self.position(key.as_str());
        proof {
            lemma_index_of(self.pairs(), key@);
            lemma_pairs_map_contains(self.pairs(), key@);
            use_type_invariant(&*self);
            lemma_pairs_map_distinct(self.pairs());
        }
        let ghost before = self.pairs();
        let mut entries: Vec<(String, String)> = Vec::new();
        std::mem::swap(&mut entries, &mut self.entries);
        assert(self.pairs() =~= Seq::empty());
        let previous = if i < entries.len() {
            proof {
                lemma_pairs_map_update(before, i as int, value@);
            }
            let mut entry = (key, value);
            std::mem::swap(&mut entries[i], &mut entry);
            assert(pairs_of(entries@) =~= before.update(i as int, (key@, value@)));
            Some(entry.1)
        } else {
            proof {
                assert(keys_distinct(before.push((key@, value@)))) by {
                    let after = before.push((key@, value@));
                    assert forall|a: int, b: int| 0 <= a < b < after.len() implies after[a].0
                        != after[b].0 by {
                        if b < before.len() {
                            assert(after[a] == before[a] && after[b] == before[b]);
                        } else {
                            assert(after[a] == before[a]);
                        }
                    }
                }
                assert(before.push((key@, value@)).drop_last() =~= before);
            }
            entries.push((key, value));
            assert(pairs_of(entries@) =~= before.push((key@, value@)));
            None
        };
        std::mem::swap(&mut entries, &mut self.entries);
        previous
    }

    /// The name and the value of the entry at position `i`, in wire order.
    pub fn entry(&self, i: usize) -> (r: (&String, &String))
        requires
            i < self.pairs().len(),
        ensures
            (r.0@, r.1@) == self.pairs()[i as int],
    {
        (&self.entries[i].0, &self.entries[i].1)
    }
}

/// The first position that holds the name is what `index_of` gives.
pub proof fn lemma_index_of_is<K, V>(pairs: Seq<(K, V)>, key: K, i: int)
    requires
        0 <= i <= pairs.len(),
        forall|k: int| 0 <= k < i ==> (#[trigger] pairs[k]).0 != key,
        i < pairs.len() ==> pairs[i].0 == key,
    ensures
        index_of(pairs, key) == i,
    decreases pairs.len(),
{
    if i > 0 {
        let t = pairs.drop_first();
        assert(pairs[0].0 != key);
        assert forall|k: int| 0 <= k < i - 1 implies (#[trigger] t[k]).0 != key by {
            assert(t[k] == pairs[k + 1]);
        }
        lemma_index_of_is(t, key, i - 1);
    }
}

} // verus!
