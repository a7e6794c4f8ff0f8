//! The table of a language file: string keys, each with one string value.
//!
//! [`EntryMap`] keeps its pairs in a sequence and finds a key through a hash
//! index. A new key goes to the end of the sequence, and a key that gets a
//! new value keeps its place. The view of the table is the mapping from key
//! to value; [`EntryMap::order`] is the sequence of pairs behind it.
//!
//! The table is not a `std::collections::HashMap<String, String>`: vstd
//! states what a `HashMap` does only for key types with a key model, and
//! `String` has none, so Verus accepts the calls and proves nothing of
//! them, not even that the length is 1 after one `insert`. The index is
//! vstd's `StringHashMap`, which is made for `String` keys but cannot be
//! walked; hence the sequence beside it.

use vstd::hash_map::StringHashMap;
use vstd::prelude::*;
use vstd::std_specs::iter::IteratorSpec;

verus! {

/// A key and its value, as sequences of characters.
pub type Entry = (Seq<char>, Seq<char>);

/// No key stands at two places of `es`.
pub open spec fn keys_distinct(es: Seq<Entry>) -> bool {
    forall|i: int, j: int| 0 <= i < j < es.len() ==> es[i].0 != es[j].0
}

/// Some pair of `es` has the key `k`.
pub open spec fn has_key(es: Seq<Entry>, k: Seq<char>) -> bool {
    exists|i: int| 0 <= i < es.len() && #[trigger] es[i].0 == k
}

/// The mapping that results from inserting the pairs of `es` one after the
/// other into an empty mapping: of two pairs with one key the later wins.
pub open spec fn entries_map(es: Seq<Entry>) -> Map<Seq<char>, Seq<char>>
    decreases es.len(),
{
    if es.len() == 0 {
        Map::empty()
    } else {
        entries_map(es.drop_last()).insert(es.last().0, es.last().1)
    }
}

/// `es` with the value of `k` replaced by `v` where `k` is a key of `es`,
/// and with the pair `(k, v)` added at the end where it is not.
pub open spec fn put(es: Seq<Entry>, k: Seq<char>, v: Seq<char>) -> Seq<Entry>
    decreases es.len(),
{
    if es.len() == 0 {
        seq![(k, v)]
    } else if es[0].0 == k {
        seq![(k, v)] + es.drop_first()
    } else {
        seq![es[0]] + put(es.drop_first(), k, v)
    }
}

/// The place of the first pair of `es` with the key `k`, or the length of
/// `es` where no pair has that key.
pub open spec fn place(es: Seq<Entry>, k: Seq<char>) -> int
    decreases es.len(),
{
    if es.len() == 0 || es[0].0 == k {
        0
    } else {
        1 + place(es.drop_first(), k)
    }
}

/// `es` without the pair at `i`: the last pair takes the place that
/// becomes free.
pub open spec fn without(es: Seq<Entry>, i: int) -> Seq<Entry> {
    es.update(i, es.last()).drop_last()
}

/// The keys of `entries_map(es)` are the keys of the pairs of `es`, and
/// there are finitely many of them.
pub proof fn lemma_entries_map_keys(es: Seq<Entry>)
    ensures
        entries_map(es).dom().finite(),
        forall|k: Seq<char>| #[trigger] entries_map(es).contains_key(k) <==> has_key(es, k),
    decreases es.len(),
{
    if es.len() > 0 {
        let init = es.drop_last();
        lemma_entries_map_keys(init);
        assert forall|k: Seq<char>| #[trigger]
            entries_map(es).contains_key(k) <==> has_key(es, k) by {
            if has_key(es, k) {
                let i = choose|i: int| 0 <= i < es.len() && #[trigger] es[i].0 == k;
                if i < es.len() - 1 {
                    assert(init[i].0 == k);
                }
            }
            if has_key(init, k) {
                let i = choose|i: int| 0 <= i < init.len() && #[trigger] init[i].0 == k;
                assert(es[i].0 == k);
            }
            if k == es.last().0 {
                assert(es[es.len() - 1].0 == k);
            }
        }
    }
}

/// Where no key occurs twice, each pair of `es` is a pair of the mapping.
pub proof fn lemma_entries_map_value(es: Seq<Entry>, i: int)
    requires
        keys_distinct(es),
        0 <= i < es.len(),
    ensures
        entries_map(es).contains_key(es[i].0),
        entries_map(es)[es[i].0] == es[i].1,
    decreases es.len(),
{
    if i < es.len() - 1 {
        let init = es.drop_last();
        assert(init[i] == es[i]);
        lemma_entries_map_value(init, i);
    }
}

/// Where no key occurs twice, the mapping has as many keys as `es` has
/// pairs.
pub proof fn lemma_entries_map_len(es: Seq<Entry>)
    requires
        keys_distinct(es),
    ensures
        entries_map(es).dom().finite(),
        entries_map(es).len() == es.len(),
    decreases es.len(),
{
    if es.len() > 0 {
        let init = es.drop_last();
        lemma_entries_map_len(init);
        lemma_entries_map_keys(init);
        if has_key(init, es.last().0) {
            let i = choose|i: int| 0 <= i < init.len() && #[trigger] init[i].0 == es.last().0;
            assert(es[i].0 == es[es.len() - 1].0);
        }
    }
}

/// Replacing the value at the place of a key is what `put` does.
pub proof fn lemma_put_present(es: Seq<Entry>, i: int, v: Seq<char>)
    requires
        keys_distinct(es),
        0 <= i < es.len(),
    ensures
        put(es, es[i].0, v) == es.update(i, (es[i].0, v)),
    decreases es.len(),
{
    let k = es[i].0;
    if i == 0 {
        assert(put(es, k, v) =~= es.update(0, (k, v)));
    } else {
        let tail = es.drop_first();
        assert(es[0].0 != es[i].0);
        assert(keys_distinct(tail)) by {
            assert forall|a: int, b: int| 0 <= a < b < tail.len() implies tail[a].0
                != tail[b].0 by {
                assert(tail[a] == es[a + 1] && tail[b] == es[b + 1]);
            }
        }
        lemma_put_present(tail, i - 1, v);
    }
}

/// Adding a pair at the end is what `put` does with a new key.
pub proof fn lemma_put_absent(es: Seq<Entry>, k: Seq<char>, v: Seq<char>)
    requires
        !has_key(es, k),
    ensures
        put(es, k, v) == es.push((k, v)),
    decreases es.len(),
{
    if es.len() == 0 {
        assert(put(es, k, v) =~= es.push((k, v)));
    } else {
        let tail = es.drop_first();
        assert(es[0].0 != k);
        assert(!has_key(tail, k)) by {
            if has_key(tail, k) {
                let i = choose|i: int| 0 <= i < tail.len() && #[trigger] tail[i].0 == k;
                assert(es[i + 1].0 == k);
            }
        }
        lemma_put_absent(tail, k, v);
    }
}

/// `put` keeps the keys apart and does to the mapping what `Map::insert`
/// does.
pub proof fn lemma_put(es: Seq<Entry>, k: Seq<char>, v: Seq<char>)
    requires
        keys_distinct(es),
    ensures
        keys_distinct(put(es, k, v)),
        entries_map(put(es, k, v)) == entries_map(es).insert(k, v),
{
    let after = put(es, k, v);
    if has_key(es, k) {
        let i = choose|i: int| 0 <= i < es.len() && #[trigger] es[i].0 == k;
        lemma_put_present(es, i, v);
        assert(keys_distinct(after)) by {
            assert forall|a: int, b: int| 0 <= a < b < after.len() implies after[a].0
                != after[b].0 by {
                assert(after[a].0 == es[a].0 && after[b].0 == es[b].0);
            }
        }
        lemma_entries_map_keys(es);
        lemma_entries_map_keys(after);
        assert forall|q: Seq<char>| has_key(after, q) <==> has_key(es, q) by {
            if has_key(after, q) {
                let j = choose|j: int| 0 <= j < after.len() && #[trigger] after[j].0 == q;
                assert(es[j].0 == q);
            }
            if has_key(es, q) {
                let j = choose|j: int| 0 <= j < es.len() && #[trigger] es[j].0 == q;
                assert(after[j].0 == q);
            }
        }
        assert forall|q: Seq<char>| #[trigger]
            entries_map(after).contains_key(q) implies entries_map(after)[q] == entries_map(
            es,
        ).insert(k, v)[q] by {
            let j = choose|j: int| 0 <= j < after.len() && #[trigger] after[j].0 == q;
            lemma_entries_map_value(after, j);
            lemma_entries_map_value(es, j);
        }
    } else {
        lemma_put_absent(es, k, v);
        assert(after.drop_last() =~= es);
        assert(keys_distinct(after)) by {
            assert forall|a: int, b: int| 0 <= a < b < after.len() implies after[a].0
                != after[b].0 by {
                if b == es.len() {
                    assert(es[a].0 != k);
                }
            }
        }
    }
}

/// Two sequences without a repeated key that hold the same pairs give the
/// same mapping, whatever the order of the pairs.
pub proof fn lemma_order_is_immaterial(a: Seq<Entry>, b: Seq<Entry>)
    requires
        keys_distinct(a),
        keys_distinct(b),
        forall|i: int| 0 <= i < a.len() ==> b.contains(#[trigger] a[i]),
        forall|j: int| 0 <= j < b.len() ==> a.contains(#[trigger] b[j]),
    ensures
        entries_map(a) == entries_map(b),
{
    lemma_entries_map_keys(a);
    lemma_entries_map_keys(b);
    assert forall|k: Seq<char>| has_key(a, k) implies has_key(b, k) && entries_map(a)[k]
        == entries_map(b)[k] by {
        let i = choose|i: int| 0 <= i < a.len() && #[trigger] a[i].0 == k;
        assert(b.contains(a[i]));
        let j = choose|j: int| 0 <= j < b.len() && b[j] == a[i];
        assert(b[j].0 == k);
        lemma_entries_map_value(a, i);
        lemma_entries_map_value(b, j);
    }
    assert forall|k: Seq<char>| has_key(b, k) implies has_key(a, k) by {
        let j = choose|j: int| 0 <= j < b.len() && #[trigger] b[j].0 == k;
        assert(a.contains(b[j]));
        let i = choose|i: int| 0 <= i < a.len() && a[i] == b[j];
        assert(a[i].0 == k);
    }
}

/// `place` finds the pair with the key `k`, or the end of `es`.
pub proof fn lemma_place(es: Seq<Entry>, k: Seq<char>)
    ensures
        0 <= place(es, k) <= es.len(),
        has_key(es, k) <==> place(es, k) < es.len(),
        place(es, k) < es.len() ==> es[place(es, k)].0 == k,
    decreases es.len(),
{
    if es.len() > 0 && es[0].0 != k {
        let tail = es.drop_first();
        lemma_place(tail, k);
        if has_key(es, k) {
            let i = choose|i: int| 0 <= i < es.len() && #[trigger] es[i].0 == k;
            assert(tail[i - 1].0 == k);
        }
        if place(tail, k) < tail.len() {
            assert(es[place(tail, k) + 1].0 == k);
        }
    } else if es.len() > 0 {
        assert(es[0].0 == k);
    }
}

/// Taking a pair out keeps the keys apart and does to the mapping what
/// `Map::remove` does.
pub proof fn lemma_without(es: Seq<Entry>, i: int)
    requires
        keys_distinct(es),
        0 <= i < es.len(),
    ensures
        keys_distinct(without(es, i)),
        entries_map(without(es, i)) == entries_map(es).remove(es[i].0),
{
    let rest = without(es, i);
    let last = es.len() - 1;
    assert forall|a: int, b: int| 0 <= a < b < rest.len() implies rest[a].0 != rest[b].0 by {
        assert(rest[a] == if a == i { es[last] } else { es[a] });
        assert(rest[b] == if b == i { es[last] } else { es[b] });
    }
    lemma_entries_map_keys(es);
    lemma_entries_map_keys(rest);
    assert forall|q: Seq<char>| has_key(rest, q) <==> (has_key(es, q) && q != es[i].0) by {
        if has_key(rest, q) {
            let j = choose|j: int| 0 <= j < rest.len() && #[trigger] rest[j].0 == q;
            if j == i {
                assert(es[last].0 == q);
            } else {
                assert(es[j].0 == q);
            }
        }
        if has_key(es, q) && q != es[i].0 {
            let j = choose|j: int| 0 <= j < es.len() && #[trigger] es[j].0 == q;
            if j == last {
                assert(rest[i].0 == q);
            } else {
                assert(rest[j].0 == q);
            }
        }
    }
    assert forall|q: Seq<char>| #[trigger]
        entries_map(rest).contains_key(q) implies entries_map(rest)[q] == entries_map(es)[q] by {
        let j = choose|j: int| 0 <= j < rest.len() && #[trigger] rest[j].0 == q;
        lemma_entries_map_value(rest, j);
        if j == i {
            lemma_entries_map_value(es, last);
        } else {
            lemma_entries_map_value(es, j);
        }
    }
}

/// Giving a key a value twice is the same as giving it the second value
/// once: the key keeps one place.
pub proof fn lemma_put_twice(es: Seq<Entry>, k: Seq<char>, a: Seq<char>, b: Seq<char>)
    ensures
        put(put(es, k, a), k, b) == put(es, k, b),
        put(es, k, a).len() == put(es, k, b).len(),
    decreases es.len(),
{
    if es.len() == 0 {
        assert(seq![(k, a)].drop_first() =~= Seq::<Entry>::empty());
    } else if es[0].0 == k {
        assert((seq![(k, a)] + es.drop_first()).drop_first() =~= es.drop_first());
    } else {
        let tail = es.drop_first();
        lemma_put_twice(tail, k, a, b);
        assert((seq![es[0]] + put(tail, k, a)).drop_first() =~= put(tail, k, a));
    }
}

/// The pair of character sequences that a stored pair of strings stands for.
pub open spec fn entry_view(e: (String, String)) -> Entry {
    (e.0@, e.1@)
}

/// A table of string pairs in which no key occurs twice.
pub struct EntryMap {
    entries: Vec<(String, String)>,
    index: StringHashMap<usize>,
}

impl View for EntryMap {
    type V = Map<Seq<char>, Seq<char>>;

    /// The mapping from each key to its value.
    open spec fn view(&self) -> Map<Seq<char>, Seq<char>> {
        entries_map(self.order())
    }
}

impl EntryMap {
    /// The pairs of the table, in the order in which the table keeps them.
    pub closed spec fn order(&self) -> Seq<Entry> {
        self.entries@.map_values(|e: (String, String)| entry_view(e))
    }

    /// The index knows the place of each key, and of nothing else.
    pub closed spec fn indexed(&self) -> bool {
        &&& forall|i: int|
            #![trigger self.entries@[i]]
            0 <= i < self.entries@.len() ==> self.index@.contains_key(self.entries@[i].0@)
                && self.index@[self.entries@[i].0@] == i
        &&& forall|k: Seq<char>| #[trigger]
            self.index@.contains_key(k) ==> self.index@[k] < self.entries@.len()
                && self.entries@[self.index@[k] as int].0@ == k
    }

    /// What holds of every table: no key occurs twice, and the index is
    /// right.
    #[verifier::type_invariant]
    pub open spec fn wf(&self) -> bool {
        &&& keys_distinct(self.order())
        &&& self.indexed()
    }

    /// An empty table.
    pub fn new() -> (r: Self)
        ensures
            r.order() == Seq::<Entry>::empty(),
            r@ == Map::<Seq<char>, Seq<char>>::empty(),
    {
        let r = EntryMap { entries: Vec::new(), index: StringHashMap::new() };
        assert(r.order() =~= Seq::<Entry>::empty());
        r
    }

    /// The number of pairs.
    pub fn len(&self) -> (r: usize)
        ensures
            r == self.order().len(),
            r == self@.len(),
    {
        proof {
            use_type_invariant(self);
            lemma_entries_map_len(self.order());
        }
        self.entries.len()
    }

    /// The value of `key`, if the table has that key.
    pub fn get(&self, key: &str) -> (r: Option<&String>)
        ensures
            match r {
                Some(v) => self@.contains_key(key@) && v@ == self@[key@],
                None => !self@.contains_key(key@),
            },
    {
        proof {
            use_type_invariant(self);
            lemma_entries_map_keys(self.order());
        }
        match self.index.get(key) {
            Some(i) => {
                let i: usize = *i;
                proof {
                    lemma_entries_map_value(self.order(), i as int);
                }
                Some(&self.entries[i].1)
            },
            None => None,
        }
    }

    /// Gives `key` the value `value` and returns the value that it had.
    ///
    /// A key that the table has keeps its place; a new key goes to the end.
    pub fn insert(&mut self, key: String, value: String) -> (r: Option<String>)
        ensures
            final(self).order() == put(old(self).order(), key@, value@),
            final(self)@ == old(self)@.insert(key@, value@),
            match r {
                Some(v) => old(self)@.contains_key(key@) && v@ == old(self)@[key@],
                None => !old(self)@.contains_key(key@),
            },
    {
        let ghost before = self.order();
        proof {
            use_type_invariant(&*self);
            lemma_entries_map_keys(before);
            lemma_put(before, key@, value@);
        }
        let mut table = Self::new();
        std::mem::swap(self, &mut table);
        let EntryMap { mut entries, mut index } = table;
        let found: Option<usize> = match index.get(key.as_str()) {
            Some(i) => Some(*i),
            None => None,
        };
        let previous = match found {
            Some(i) => {
                proof {
                    lemma_entries_map_value(before, i as int);
                    lemma_put_present(before, i as int, value@);
                }
                entries.push((key, value));
                Some(entries.swap_remove(i).1)
            },
            None => {
                proof {
                    lemma_put_absent(before, key@, value@);
                }
                index.insert(key.clone(), entries.len());
                entries.push((key, value));
                None
            },
        };
        let table = EntryMap { entries, index };
        assert(table.order() =~= put(before, key@, value@));
        *self = table;
        previous
    }

    /// Takes `key` out of the table and returns the value that it had.
    ///
    /// The last pair of the table moves to the place of the pair that
    /// leaves.
    pub fn remove(&mut self, key: &str) -> (r: Option<String>)
        ensures
            final(self)@ == old(self)@.remove(key@),
            match r {
                Some(v) => old(self)@.contains_key(key@) && v@ == old(self)@[key@]
                    && final(self).order() == without(
                    old(self).order(),
                    place(old(self).order(), key@),
                ),
                None => !old(self)@.contains_key(key@) && final(self).order() == old(
                    self,
                ).order(),
            },
    {
        let ghost before = self.order();
        proof {
            use_type_invariant(&*self);
            lemma_entries_map_keys(before);
            lemma_place(before, key@);
        }
        let found: Option<usize> = match self.index.get(key) {
            Some(i) => Some(*i),
            None => None,
        };
        match found {
            Some(i) => {
                proof {
                    lemma_entries_map_value(before, i as int);
                    lemma_without(before, i as int);
                }
                let mut table = Self::new();
                std::mem::swap(self, &mut table);
                let EntryMap { mut entries, mut index } = table;
                let last: usize = entries.len() - 1;
                index.remove(key);
                let removed = entries.swap_remove(i);
                if i < last {
                    let moved = entries[i].0.clone();
                    index.insert(moved, i);
                }
                let table = EntryMap { entries, index };
                assert(table.order() =~= without(before, i as int));
                *self = table;
                Some(removed.1)
            },
            None => None,
        }
    }

    /// An iterator over the pairs of the table, in order. No key comes
    /// twice.
    pub fn iter(&self) -> (r: std::slice::Iter<'_, (String, String)>)
        ensures
            r.remaining().map_values(|e: &(String, String)| entry_view(*e)) == self.order(),
            keys_distinct(self.order()),
    {
        proof {
            use_type_invariant(self);
        }
        let r = self.entries.as_slice().iter();
        assert(r.remaining().map_values(|e: &(String, String)| entry_view(*e)) =~= self.order());
        r
    }

    /// The pairs of the table, in order. No key stands twice.
    pub fn as_slice(&self) -> (r: &[(String, String)])
        ensures
            r@.map_values(|e: (String, String)| entry_view(e)) == self.order(),
            keys_distinct(self.order()),
    {
        proof {
            use_type_invariant(self);
        }
        self.entries.as_slice()
    }
}

} // verus!
