//! The table and how it is built from entries.

use crate::closure::{
    closed_table, closed_up_to, entity_table, is_inner_prefix, lemma_closed_table_prefix_closed,
    lemma_closing_end, lemma_closing_start, lemma_closing_step, lemma_entity_table_push,
    prefix_closed, seeded_table, with_prefixes, SENTINEL,
};
use crate::reference::PrefixEntry;
use vstd::hash_map::StringHashMap;
use vstd::prelude::*;
use vstd::seq_lib::seq_to_set_is_finite;
use vstd::string::*;

verus! {

/// `keys` names each key of `table` exactly once.
pub open spec fn lists_keys(keys: Seq<String>, table: Map<Seq<char>, (u32, u32)>) -> bool {
    &&& forall|i: int| 0 <= i < keys.len() ==> table.contains_key(#[trigger] keys[i]@)
    &&& forall|key: Seq<char>|
        table.contains_key(key) ==> exists|i: int|
            0 <= i < keys.len() && (#[trigger] keys[i])@ == key
    &&& forall|i: int, j: int|
        0 <= i < j < keys.len() ==> (#[trigger] keys[i])@ != (#[trigger] keys[j])@
}

/// `rows` holds each entry of `table` exactly once.
pub open spec fn lists_rows(rows: Seq<PrefixEntry>, table: Map<Seq<char>, (u32, u32)>) -> bool {
    &&& forall|i: int|
        0 <= i < rows.len() ==> table.contains_key((#[trigger] rows[i]).key@)
            && table[rows[i].key@] == rows[i].value
    &&& forall|key: Seq<char>|
        table.contains_key(key) ==> exists|i: int|
            0 <= i < rows.len() && (#[trigger] rows[i]).key@ == key
    &&& forall|i: int, j: int|
        0 <= i < j < rows.len() ==> (#[trigger] rows[i]).key@ != (#[trigger] rows[j]).key@
}

/// A list that names each key of a table once is as long as the table has
/// keys, and such a table has finitely many.
pub proof fn lemma_listed_keys_count(keys: Seq<String>, table: Map<Seq<char>, (u32, u32)>)
    requires
        lists_keys(keys, table),
    ensures
        table.dom().finite(),
        table.dom().len() == keys.len(),
{
    let names = keys.map_values(|key: String| key@);
    assert forall|i: int, j: int|
        0 <= i < names.len() && 0 <= j < names.len() && i != j implies names[i] != names[j] by {
        if i < j {
            assert(keys[i]@ != keys[j]@);
        } else {
            assert(keys[j]@ != keys[i]@);
        }
    }
    assert forall|key: Seq<char>| table.dom().contains(key) implies names.to_set().contains(
        key,
    ) by {
        let i = choose|i: int| 0 <= i < keys.len() && (#[trigger] keys[i])@ == key;
        assert(names[i] == key);
    }
    assert forall|key: Seq<char>| names.to_set().contains(key) implies table.dom().contains(
        key,
    ) by {
        let i = choose|i: int| 0 <= i < names.len() && names[i] == key;
        assert(table.contains_key(keys[i]@));
    }
    assert(names.to_set() =~= table.dom());
    seq_to_set_is_finite(names);
    names.unique_seq_to_set();
}

/// Stores `value` under `key`, in place of what was stored there if anything
/// was.
fn put(
    table: &mut StringHashMap<(u32, u32)>,
    keys: &mut Vec<String>,
    key: String,
    value: (u32, u32),
)
    requires
        lists_keys(old(keys)@, old(table)@),
    ensures
        lists_keys(final(keys)@, final(table)@),
        final(keys)@.len() >= old(keys)@.len(),
        forall|i: int| 0 <= i < old(keys)@.len() ==> final(keys)@[i] == old(keys)@[i],
        final(table)@ == old(table)@.insert(key@, value),
{
    if !table.contains_key(key.as_str()) {
        keys.push(key.clone());
    }
    table.insert(key, value);
    proof {
        let after = keys@;
        let before = old(keys)@;
        assert forall|k: Seq<char>| final(table)@.contains_key(k) implies exists|i: int|
            0 <= i < after.len() && (#[trigger] after[i])@ == k by {
            if old(table)@.contains_key(k) {
                let i = choose|i: int| 0 <= i < before.len() && (#[trigger] before[i])@ == k;
                assert(after[i]@ == k);
            } else {
                assert(after[after.len() - 1]@ == k);
            }
        }
    }
}

/// Adds to the table, with the sentinel, each inner prefix of the key at
/// `position` that the table does not hold yet. What the table holds already
/// keeps its value.
fn add_prefixes(table: &mut StringHashMap<(u32, u32)>, keys: &mut Vec<String>, position: usize)
    requires
        position < old(keys).len(),
        lists_keys(old(keys)@, old(table)@),
    ensures
        lists_keys(final(keys)@, final(table)@),
        final(keys)@.len() >= old(keys)@.len(),
        forall|i: int| 0 <= i < old(keys)@.len() ==> final(keys)@[i] == old(keys)@[i],
        final(table)@ == with_prefixes(
            old(table)@,
            old(keys)@[position as int]@,
            old(keys)@[position as int]@.len() as int,
        ),
{
    let key: String = keys[position].clone();
    let length: usize = key.as_str().unicode_len();
    let mut n: usize = 1;
    while n < length
        invariant
            1 <= n,
            position < old(keys)@.len(),
            length == key@.len(),
            key@ == old(keys)@[position as int]@,
            lists_keys(keys@, table@),
            keys@.len() >= old(keys)@.len(),
            forall|i: int| 0 <= i < old(keys)@.len() ==> keys@[i] == old(keys)@[i],
            table@ == with_prefixes(old(table)@, key@, n as int),
        decreases length - n,
    {
        let prefix: &str = key.as_str().substring_char(0, n);
        let ghost before = table@;
        assert(is_inner_prefix(prefix@, key@));
        if !table.contains_key(prefix) {
            put(table, keys, prefix.to_owned(), SENTINEL);
        }
        proof {
            assert forall|p: Seq<char>|
                is_inner_prefix(p, key@) && p.len() < n + 1 && !before.contains_key(
                    p,
                ) implies p == prefix@ by {
                assert(p.len() == n);
                assert(p =~= prefix@);
            }
            assert(table@ =~= with_prefixes(old(table)@, key@, n + 1));
        }
        n += 1;
    }
}

/// A table from keys to pairs of codepoints, built once and read-only from
/// then on. Its keys are kept in the order in which they were added, so that
/// the rows come out in the same order on every run.
pub struct PrefixMap {
    table: StringHashMap<(u32, u32)>,
    keys: Vec<String>,
}

impl View for PrefixMap {
    type V = Map<Seq<char>, (u32, u32)>;

    closed spec fn view(&self) -> Map<Seq<char>, (u32, u32)> {
        self.table@
    }
}

impl PrefixMap {
    #[verifier::type_invariant]
    spec fn keys_listed(&self) -> bool {
        lists_keys(self.keys@, self.table@)
    }

    /// Builds the table of `entries`. This cannot fail.
    ///
    /// Each entry is stored under its key, a later entry of a key taking the
    /// place of an earlier one. Then the empty string is stored with the
    /// sentinel, whatever the entries say of it. Then, for each key that
    /// stands in the table at that point, every prefix that is not yet in
    /// the table is stored with the sentinel, so that no prefix ever takes
    /// the place of a name.
    pub fn from_entries(entries: &[PrefixEntry]) -> (map: PrefixMap)
        ensures
            map@ == closed_table(entries.deep_view()),
            prefix_closed(map@),
            map@.contains_key(Seq::<char>::empty()),
            map@[Seq::<char>::empty()] == SENTINEL,
    {
        let ghost given = entries.deep_view();
        let mut table: StringHashMap<(u32, u32)> = StringHashMap::new();
        let mut keys: Vec<String> = Vec::new();

        let mut i: usize = 0;
        assert(table@ =~= entity_table(given.take(0)));
        while i < entries.len()
            invariant
                i <= entries.len(),
                given == entries.deep_view(),
                lists_keys(keys@, table@),
                table@ == entity_table(given.take(i as int)),
            decreases entries.len() - i,
        {
            let entry: &PrefixEntry = &entries[i];
            proof {
                assert(entry@ == given[i as int]);
                lemma_entity_table_push(given.take(i as int), given[i as int]);
                assert(given.take(i + 1) =~= given.take(i as int).push(given[i as int]));
            }
            put(&mut table, &mut keys, entry.key.clone(), entry.value);
            i += 1;
        }
        assert(given.take(i as int) =~= given);

        put(&mut table, &mut keys, String::new(), SENTINEL);

        // Only the keys that stand in the table at this point are walked:
        // the prefixes of an added prefix are prefixes of a name too.
        let count: usize = keys.len();
        let ghost snapshot = keys@;
        proof {
            lemma_closing_start(given, snapshot);
        }
        let mut position: usize = 0;
        while position < count
            invariant
                position <= count,
                count == snapshot.len(),
                count <= keys@.len(),
                forall|j: int| 0 <= j < count ==> keys@[j] == snapshot[j],
                lists_keys(keys@, table@),
                lists_keys(snapshot, seeded_table(given)),
                closed_up_to(given, snapshot, position as int, table@),
            decreases count - position,
        {
            proof {
                assert(seeded_table(given).contains_key(snapshot[position as int]@));
                lemma_closing_step(given, snapshot, position as int, table@);
            }
            add_prefixes(&mut table, &mut keys, position);
            position += 1;
        }
        proof {
            lemma_closing_end(given, snapshot, table@);
            lemma_closed_table_prefix_closed(given);
        }
        PrefixMap { table, keys }
    }

    /// The pair stored under `key`, if `key` is in the table.
    pub fn get(&self, key: &str) -> (value: Option<(u32, u32)>)
        ensures
            self@.contains_key(key@) ==> value == Some(self@[key@]),
            !self@.contains_key(key@) ==> value is None,
    {
        match self.table.get(key) {
            Some(pair) => Some(*pair),
            None => None,
        }
    }

    /// Whether `key` is in the table.
    pub fn contains_key(&self, key: &str) -> (held: bool)
        ensures
            held == self@.contains_key(key@),
    {
        self.table.contains_key(key)
    }

    /// The number of keys.
    pub fn len(&self) -> (count: usize)
        ensures
            self@.dom().finite(),
            count == self@.dom().len(),
    {
        proof {
            use_type_invariant(self);
            lemma_listed_keys_count(self.keys@, self.table@);
        }
        self.keys.len()
    }

    /// The entries of the table, each once, in the order in which their keys
    /// were added.
    pub fn entries(&self) -> (rows: Vec<PrefixEntry>)
        ensures
            lists_rows(rows@, self@),
            self@.dom().finite(),
            rows@.len() == self@.dom().len(),
    {
        proof {
            use_type_invariant(self);
            lemma_listed_keys_count(self.keys@, self.table@);
        }
        let mut rows: Vec<PrefixEntry> = Vec::new();
        let mut i: usize = 0;
        while i < self.keys.len()
            invariant
                i <= self.keys@.len(),
                rows@.len() == i,
                lists_keys(self.keys@, self.table@),
                forall|j: int|
                    0 <= j < i ==> (#[trigger] rows@[j]).key@ == self.keys@[j]@ && rows@[j].value
                        == self.table@[self.keys@[j]@],
            decreases self.keys@.len() - i,
        {
            let key: &String = &self.keys[i];
            assert(self.table@.contains_key(self.keys@[i as int]@));
            let value: (u32, u32) = *self.table.get(key.as_str()).unwrap();
            rows.push(PrefixEntry { key: key.clone(), value });
            i += 1;
        }
        proof {
            assert forall|key: Seq<char>| self.table@.contains_key(key) implies exists|j: int|
                0 <= j < rows@.len() && (#[trigger] rows@[j]).key@ == key by {
                let j = choose|j: int|
                    0 <= j < self.keys@.len() && (#[trigger] self.keys@[j])@ == key;
                assert(rows@[j].key@ == key);
            }
        }
        rows
    }
}

} // verus!
