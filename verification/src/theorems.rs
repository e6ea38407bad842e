//! What holds of every table: first of the table of any entries, then of the
//! table of a well-formed dataset.

use crate::builder::{normalized_dataset, well_formed_dataset};
use crate::closure::{
    closed_table, is_entity_name, is_last_occurrence, is_table_key, last_occurrence,
    lemma_last_occurrence, names_agree, table_value, SENTINEL,
};
use crate::reference::{EntryView, ReferenceView};
use vstd::prelude::*;

verus! {

/// Every prefix of every entity name is a key of the table: the empty
/// prefix, the name itself and all that lies between them.
pub proof fn theorem_prefixes_present(entries: Seq<EntryView>, i: int, prefix: Seq<char>)
    requires
        0 <= i < entries.len(),
        prefix.is_prefix_of(entries[i].key),
    ensures
        closed_table(entries).contains_key(prefix),
{
}

/// The empty string is a key of every table, and the sentinel is stored
/// under it.
pub proof fn theorem_root(entries: Seq<EntryView>)
    ensures
        closed_table(entries).contains_key(Seq::<char>::empty()),
        closed_table(entries)[Seq::<char>::empty()] == SENTINEL,
{
}

/// Under an entity name the table holds the pair of the last entry of that
/// name, whatever earlier entries of the name hold.
pub proof fn theorem_last_entry_wins(entries: Seq<EntryView>, key: Seq<char>, i: int)
    requires
        key.len() > 0,
        is_last_occurrence(entries, key, i),
    ensures
        closed_table(entries).contains_key(key),
        closed_table(entries)[key] == entries[i].value,
{
    assert(key.is_prefix_of(entries[i].key));
    lemma_last_occurrence(entries, key);
}

/// An entity name has the sentinel as its value only if the entry that
/// decides its value holds the sentinel itself.
pub proof fn theorem_sentinel_under_name(entries: Seq<EntryView>, key: Seq<char>, i: int)
    requires
        key.len() > 0,
        is_last_occurrence(entries, key, i),
    ensures
        closed_table(entries)[key] == SENTINEL <==> entries[i].value == SENTINEL,
{
    theorem_last_entry_wins(entries, key, i);
}

/// Where no entry has the empty key and none holds the sentinel, the
/// sentinel marks exactly the keys of the table that are not entity names.
pub proof fn theorem_sentinel_exclusive(entries: Seq<EntryView>)
    requires
        forall|i: int| 0 <= i < entries.len() ==> (#[trigger] entries[i]).key.len() > 0,
        forall|i: int| 0 <= i < entries.len() ==> (#[trigger] entries[i]).value != SENTINEL,
    ensures
        forall|key: Seq<char>| #[trigger]
            closed_table(entries).contains_key(key) ==> (closed_table(entries)[key] == SENTINEL
                <==> !is_entity_name(entries, key)),
{
    assert forall|key: Seq<char>| #[trigger]
        closed_table(entries).contains_key(key) implies (closed_table(entries)[key] == SENTINEL
        <==> !is_entity_name(entries, key)) by {
        if is_entity_name(entries, key) {
            lemma_last_occurrence(entries, key);
            assert(entries[last_occurrence(entries, key)].key.len() > 0);
        }
    }
}

/// The table depends on which entries there are, not on where they stand,
/// as long as no two entries of one key hold different pairs.
pub proof fn lemma_same_entries_same_table(a: Seq<EntryView>, b: Seq<EntryView>)
    requires
        forall|entry: EntryView| a.contains(entry) <==> b.contains(entry),
        names_agree(a),
    ensures
        closed_table(a) == closed_table(b),
{
    assert forall|j: int| 0 <= j < b.len() implies a.contains(#[trigger] b[j]) by {
        assert(b.contains(b[j]));
    }
    assert forall|i: int| 0 <= i < a.len() implies b.contains(#[trigger] a[i]) by {
        assert(a.contains(a[i]));
    }
    assert forall|key: Seq<char>| is_table_key(a, key) <==> is_table_key(b, key) by {
        if key.len() > 0 && is_table_key(a, key) {
            let i = choose|i: int| 0 <= i < a.len() && key.is_prefix_of((#[trigger] a[i]).key);
            let j = choose|j: int| 0 <= j < b.len() && #[trigger] b[j] == a[i];
            assert(key.is_prefix_of(b[j].key));
        }
        if key.len() > 0 && is_table_key(b, key) {
            let j = choose|j: int| 0 <= j < b.len() && key.is_prefix_of((#[trigger] b[j]).key);
            let i = choose|i: int| 0 <= i < a.len() && #[trigger] a[i] == b[j];
            assert(key.is_prefix_of(a[i].key));
        }
    }
    assert forall|key: Seq<char>| table_value(a, key) == table_value(b, key) by {
        if is_entity_name(a, key) {
            let i = choose|i: int| 0 <= i < a.len() && (#[trigger] a[i]).key == key;
            let j = choose|j: int| 0 <= j < b.len() && #[trigger] b[j] == a[i];
            assert(b[j].key == key);
        }
        if is_entity_name(b, key) {
            let j = choose|j: int| 0 <= j < b.len() && (#[trigger] b[j]).key == key;
            let i = choose|i: int| 0 <= i < a.len() && #[trigger] a[i] == b[j];
            assert(a[i].key == key);
            lemma_last_occurrence(a, key);
            lemma_last_occurrence(b, key);
            let last_b = last_occurrence(b, key);
            let twin = choose|i: int| 0 <= i < a.len() && #[trigger] a[i] == b[last_b];
            assert(a[twin].key == a[last_occurrence(a, key)].key);
        }
    }
    assert(closed_table(a) =~= closed_table(b));
}

/// Two sequences that hold the same entries, each as often as the other, in
/// whatever order, have the same table, as long as no two entries of one key
/// hold different pairs. Where they do, the later entry decides, and the
/// order matters.
pub proof fn theorem_order_independent(a: Seq<EntryView>, b: Seq<EntryView>)
    requires
        a.to_multiset() == b.to_multiset(),
        names_agree(a),
    ensures
        closed_table(a) == closed_table(b),
{
    a.to_multiset_ensures();
    b.to_multiset_ensures();
    assert forall|entry: EntryView| a.contains(entry) <==> b.contains(entry) by {
        assert(a.contains(entry) <==> a.to_multiset().count(entry) > 0);
        assert(b.contains(entry) <==> b.to_multiset().count(entry) > 0);
    }
    lemma_same_entries_same_table(a, b);
}

/// The entries of a well-formed dataset have keys that are not empty, and
/// the entry of a record with a single codepoint holds that codepoint
/// followed by zero.
pub proof fn lemma_normalized_entries(dataset: Seq<ReferenceView>)
    requires
        well_formed_dataset(dataset),
    ensures
        normalized_dataset(dataset).len() == dataset.len(),
        forall|i: int|
            0 <= i < dataset.len() ==> (#[trigger] normalized_dataset(dataset)[i])
                == dataset[i].normalized(),
        forall|i: int|
            0 <= i < dataset.len() ==> (#[trigger] normalized_dataset(dataset)[i]).key.len() > 0,
        forall|i: int|
            0 <= i < dataset.len() && dataset[i].codepoints.len() == 1 ==> (
            #[trigger] normalized_dataset(dataset)[i]).value == (dataset[i].codepoints[0], 0u32),
{
    assert forall|i: int| 0 <= i < dataset.len() implies (#[trigger] normalized_dataset(
        dataset,
    )[i]).key.len() > 0 by {
        assert(dataset[i].well_formed());
        assert(dataset[i].entity_name().len() == dataset[i].name.len() - 1);
    }
}

/// In the table of a well-formed dataset, the empty string has the sentinel
/// and is the name of no record.
pub proof fn theorem_dataset_root(dataset: Seq<ReferenceView>)
    requires
        well_formed_dataset(dataset),
    ensures
        closed_table(normalized_dataset(dataset)).contains_key(Seq::<char>::empty()),
        closed_table(normalized_dataset(dataset))[Seq::<char>::empty()] == SENTINEL,
        !is_entity_name(normalized_dataset(dataset), Seq::<char>::empty()),
{
    lemma_normalized_entries(dataset);
    let entries = normalized_dataset(dataset);
    if is_entity_name(entries, Seq::<char>::empty()) {
        let i = choose|i: int|
            0 <= i < entries.len() && (#[trigger] entries[i]).key == Seq::<char>::empty();
            assert(entries[i].key.len() > 0);
    }
}

/// In the table of a well-formed dataset, every prefix of the name of every
/// record is a key, and the name itself has the codepoints of the last
/// record of that name.
pub proof fn theorem_dataset_closed(dataset: Seq<ReferenceView>, i: int, prefix: Seq<char>)
    requires
        well_formed_dataset(dataset),
        0 <= i < dataset.len(),
        prefix.is_prefix_of(dataset[i].entity_name()),
    ensures
        closed_table(normalized_dataset(dataset)).contains_key(prefix),
        closed_table(normalized_dataset(dataset)).contains_key(dataset[i].entity_name()),
        is_last_occurrence(normalized_dataset(dataset), dataset[i].entity_name(), i)
            ==> closed_table(normalized_dataset(dataset))[dataset[i].entity_name()]
            == dataset[i].codepoint_pair(),
{
    lemma_normalized_entries(dataset);
    let entries = normalized_dataset(dataset);
    let name = dataset[i].entity_name();
    assert(entries[i].key == name);
    theorem_prefixes_present(entries, i, prefix);
    theorem_prefixes_present(entries, i, name);
    if is_last_occurrence(entries, name, i) {
        theorem_last_entry_wins(entries, name, i);
    }
}

/// Where the record that decides the value of a name has a single codepoint,
/// the table holds that codepoint followed by zero.
pub proof fn theorem_single_codepoint_padded(dataset: Seq<ReferenceView>, i: int)
    requires
        well_formed_dataset(dataset),
        0 <= i < dataset.len(),
        is_last_occurrence(normalized_dataset(dataset), dataset[i].entity_name(), i),
        dataset[i].codepoints.len() == 1,
    ensures
        closed_table(normalized_dataset(dataset))[dataset[i].entity_name()] == (
            dataset[i].codepoints[0],
            0u32,
        ),
{
    lemma_normalized_entries(dataset);
    let entries = normalized_dataset(dataset);
    assert(entries[i].key == dataset[i].entity_name());
    theorem_last_entry_wins(entries, dataset[i].entity_name(), i);
}

/// In the table of a well-formed dataset none of whose records decodes to a
/// first codepoint of zero, the sentinel marks exactly the keys that are not
/// entity names. A record that decodes to zero alone, or to two zeros, is
/// stored as it is and cannot be told from a prefix.
pub proof fn theorem_dataset_sentinel_exclusive(dataset: Seq<ReferenceView>)
    requires
        well_formed_dataset(dataset),
        forall|i: int| 0 <= i < dataset.len() ==> (#[trigger] dataset[i]).codepoints[0] != 0,
    ensures
        forall|key: Seq<char>| #[trigger]
            closed_table(normalized_dataset(dataset)).contains_key(key) ==> (closed_table(
                normalized_dataset(dataset),
            )[key] == SENTINEL <==> !is_entity_name(normalized_dataset(dataset), key)),
{
    lemma_normalized_entries(dataset);
    let entries = normalized_dataset(dataset);
    assert forall|i: int| 0 <= i < entries.len() implies (#[trigger] entries[i]).value
        != SENTINEL by {
            assert(dataset[i].codepoints[0] != 0);
    }
    theorem_sentinel_exclusive(entries);
}

/// Two datasets that hold the same records, each as often as the other, in
/// whatever order, are well formed together and have the same table, as long
/// as no two records of one name decode differently. Where they do, the
/// later record decides, and the order matters.
pub proof fn theorem_dataset_order_independent(a: Seq<ReferenceView>, b: Seq<ReferenceView>)
    requires
        a.to_multiset() == b.to_multiset(),
        names_agree(normalized_dataset(a)),
    ensures
        well_formed_dataset(a) <==> well_formed_dataset(b),
        closed_table(normalized_dataset(a)) == closed_table(normalized_dataset(b)),
{
    a.to_multiset_ensures();
    b.to_multiset_ensures();
    assert forall|record: ReferenceView| a.contains(record) <==> b.contains(record) by {
        assert(a.contains(record) <==> a.to_multiset().count(record) > 0);
        assert(b.contains(record) <==> b.to_multiset().count(record) > 0);
    }
    assert forall|j: int| 0 <= j < b.len() implies a.contains(#[trigger] b[j]) by {
        assert(b.contains(b[j]));
    }
    assert forall|i: int| 0 <= i < a.len() implies b.contains(#[trigger] a[i]) by {
        assert(a.contains(a[i]));
    }
    if well_formed_dataset(a) {
        assert forall|j: int| 0 <= j < b.len() implies (#[trigger] b[j]).well_formed() by {
            let i = choose|i: int| 0 <= i < a.len() && #[trigger] a[i] == b[j];
            assert(a[i].well_formed());
        }
    }
    if well_formed_dataset(b) {
        assert forall|i: int| 0 <= i < a.len() implies (#[trigger] a[i]).well_formed() by {
            let j = choose|j: int| 0 <= j < b.len() && #[trigger] b[j] == a[i];
            assert(b[j].well_formed());
        }
    }
    let ea = normalized_dataset(a);
    let eb = normalized_dataset(b);
    assert forall|entry: EntryView| ea.contains(entry) <==> eb.contains(entry) by {
        if ea.contains(entry) {
            let i = choose|i: int| 0 <= i < ea.len() && ea[i] == entry;
            let j = choose|j: int| 0 <= j < b.len() && #[trigger] b[j] == a[i];
            assert(eb[j] == entry);
        }
        if eb.contains(entry) {
            let j = choose|j: int| 0 <= j < eb.len() && eb[j] == entry;
            let i = choose|i: int| 0 <= i < a.len() && #[trigger] a[i] == b[j];
            assert(ea[i] == entry);
        }
    }
    lemma_same_entries_same_table(ea, eb);
}

} // verus!
