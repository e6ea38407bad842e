//! What the table of a sequence of entries is: each key with the codepoints
//! of the last entry of that key, the empty string with the sentinel, and
//! every prefix of a key that is not a key itself with the sentinel too.

use crate::reference::EntryView;
use vstd::prelude::*;

verus! {

/// The pair stored under the empty string and under every prefix of an
/// entity name that is not an entity name itself.
pub const SENTINEL: (u32, u32) = (0, 0);

/// Some entry has the key `key`.
pub open spec fn is_entity_name(entries: Seq<EntryView>, key: Seq<char>) -> bool {
    exists|i: int| 0 <= i < entries.len() && (#[trigger] entries[i]).key == key
}

/// Entry `i` has the key `key` and no later entry has.
pub open spec fn is_last_occurrence(entries: Seq<EntryView>, key: Seq<char>, i: int) -> bool {
    &&& 0 <= i < entries.len()
    &&& entries[i].key == key
    &&& forall|j: int| i < j < entries.len() ==> (#[trigger] entries[j]).key != key
}

/// The position of the last entry of the key `key`, where there is one.
pub open spec fn last_occurrence(entries: Seq<EntryView>, key: Seq<char>) -> int {
    choose|i: int| is_last_occurrence(entries, key, i)
}

/// `key` is the empty string or a prefix of an entity name, the whole name
/// included.
pub open spec fn is_table_key(entries: Seq<EntryView>, key: Seq<char>) -> bool {
    key.len() == 0 || exists|i: int|
        0 <= i < entries.len() && key.is_prefix_of((#[trigger] entries[i]).key)
}

/// The pair that the entries themselves give to `key`: that of the last
/// entry of that key.
pub open spec fn entered_value(entries: Seq<EntryView>, key: Seq<char>) -> (u32, u32) {
    entries[last_occurrence(entries, key)].value
}

/// The pair stored under `key`: for an entity name, the empty one apart, the
/// pair of the last entry of that name, and for any other key the sentinel.
pub open spec fn table_value(entries: Seq<EntryView>, key: Seq<char>) -> (u32, u32) {
    if key.len() > 0 && is_entity_name(entries, key) {
        entered_value(entries, key)
    } else {
        SENTINEL
    }
}

/// The table of a sequence of entries.
pub open spec fn closed_table(entries: Seq<EntryView>) -> Map<Seq<char>, (u32, u32)> {
    Map::new(
        |key: Seq<char>| is_table_key(entries, key),
        |key: Seq<char>| table_value(entries, key),
    )
}

/// With every key the table holds each prefix of that key.
pub open spec fn prefix_closed(table: Map<Seq<char>, (u32, u32)>) -> bool {
    forall|prefix: Seq<char>, key: Seq<char>|
        table.contains_key(key) && #[trigger] prefix.is_prefix_of(key) ==> table.contains_key(
            prefix,
        )
}

/// No two entries of the same key have different pairs.
pub open spec fn names_agree(entries: Seq<EntryView>) -> bool {
    forall|i: int, j: int|
        0 <= i < entries.len() && 0 <= j < entries.len() && (#[trigger] entries[i]).key
            == (#[trigger] entries[j]).key ==> entries[i].value == entries[j].value
}

/// The table before the empty string and the prefixes are added: the entity
/// names alone, each with the pair of the last entry of that name.
pub open spec fn entity_table(entries: Seq<EntryView>) -> Map<Seq<char>, (u32, u32)> {
    Map::new(
        |key: Seq<char>| is_entity_name(entries, key),
        |key: Seq<char>| entered_value(entries, key),
    )
}

/// The table of names with the empty string added, which has the sentinel.
pub open spec fn seeded_table(entries: Seq<EntryView>) -> Map<Seq<char>, (u32, u32)> {
    entity_table(entries).insert(Seq::<char>::empty(), SENTINEL)
}

/// `prefix` is a prefix of `key` that is neither empty nor the whole key.
pub open spec fn is_inner_prefix(prefix: Seq<char>, key: Seq<char>) -> bool {
    0 < prefix.len() < key.len() && prefix.is_prefix_of(key)
}

/// `table` and, with the sentinel, each inner prefix of `key` that is shorter
/// than `bound` and that `table` does not hold yet.
pub open spec fn with_prefixes(
    table: Map<Seq<char>, (u32, u32)>,
    key: Seq<char>,
    bound: int,
) -> Map<Seq<char>, (u32, u32)> {
    Map::new(
        |prefix: Seq<char>|
            table.contains_key(prefix) || (is_inner_prefix(prefix, key) && prefix.len() < bound),
        |prefix: Seq<char>|
            if table.contains_key(prefix) {
                table[prefix]
            } else {
                SENTINEL
            },
    )
}

/// What holds of `table` while the prefixes are being added and those of the
/// first `done` of `keys` are in: the table still holds the names and the
/// empty string, it holds nothing that the finished table does not hold, and
/// it holds every prefix of each of those first keys.
pub open spec fn closed_up_to(
    entries: Seq<EntryView>,
    keys: Seq<String>,
    done: int,
    table: Map<Seq<char>, (u32, u32)>,
) -> bool {
    &&& forall|key: Seq<char>| #[trigger]
        seeded_table(entries).contains_key(key) ==> table.contains_key(key)
    &&& forall|key: Seq<char>| #[trigger]
        table.contains_key(key) ==> is_table_key(entries, key) && table[key] == table_value(
            entries,
            key,
        )
    &&& forall|j: int, prefix: Seq<char>|
        0 <= j < done && #[trigger] prefix.is_prefix_of((#[trigger] keys[j])@)
            ==> table.contains_key(prefix)
}

/// A name that occurs among the entries has exactly one last occurrence, and
/// `last_occurrence` is its position.
pub proof fn lemma_last_occurrence(entries: Seq<EntryView>, key: Seq<char>)
    requires
        is_entity_name(entries, key),
    ensures
        is_last_occurrence(entries, key, last_occurrence(entries, key)),
        forall|i: int|
            is_last_occurrence(entries, key, i) ==> i == last_occurrence(entries, key),
{
    let some = choose|i: int| 0 <= i < entries.len() && (#[trigger] entries[i]).key == key;
    let last = lemma_last_from(entries, key, some);
    let chosen = last_occurrence(entries, key);
    assert forall|i: int| is_last_occurrence(entries, key, i) implies i == chosen by {
        if i < chosen {
        } else if chosen < i {
        }
    }
}

/// From any occurrence of a name onwards there is a last one.
proof fn lemma_last_from(entries: Seq<EntryView>, key: Seq<char>, from: int) -> (last: int)
    requires
        0 <= from < entries.len(),
        entries[from].key == key,
    ensures
        from <= last,
        is_last_occurrence(entries, key, last),
    decreases entries.len() - from,
{
    if exists|j: int| from < j < entries.len() && (#[trigger] entries[j]).key == key {
        let next = choose|j: int| from < j < entries.len() && (#[trigger] entries[j]).key == key;
        lemma_last_from(entries, key, next)
    } else {
        from
    }
}

/// One more entry puts its key into the table of names, over whatever an
/// earlier entry of that key put there.
pub proof fn lemma_entity_table_push(entries: Seq<EntryView>, entry: EntryView)
    ensures
        entity_table(entries.push(entry)) == entity_table(entries).insert(entry.key, entry.value),
{
    let longer = entries.push(entry);
    let end = entries.len() as int;
    assert(longer[end] == entry);
    assert forall|key: Seq<char>| is_entity_name(longer, key) <==> (is_entity_name(entries, key)
        || key == entry.key) by {
        if is_entity_name(longer, key) {
            let i = choose|i: int| 0 <= i < longer.len() && (#[trigger] longer[i]).key == key;
            if i < end {
            }
        }
        if is_entity_name(entries, key) {
            let i = choose|i: int| 0 <= i < entries.len() && (#[trigger] entries[i]).key == key;
            assert(longer[i].key == key);
        }
    }
    assert forall|key: Seq<char>| is_entity_name(longer, key) implies entered_value(longer, key)
        == (if key == entry.key {
        entry.value
    } else {
        entered_value(entries, key)
    }) by {
        lemma_last_occurrence(longer, key);
        if key == entry.key {
        } else {
            lemma_last_occurrence(entries, key);
            let last = last_occurrence(entries, key);
            assert forall|j: int| last < j < longer.len() implies (#[trigger] longer[j]).key
                != key by {
                if j < end {
                }
            }
            assert(is_last_occurrence(longer, key, last));
        }
    }
}

/// A prefix of a prefix of a name is a prefix of that name, so the table of
/// any entries is closed under taking prefixes.
pub proof fn lemma_closed_table_prefix_closed(entries: Seq<EntryView>)
    ensures
        prefix_closed(closed_table(entries)),
{
    let table = closed_table(entries);
    assert forall|prefix: Seq<char>, key: Seq<char>|
        table.contains_key(key) && #[trigger] prefix.is_prefix_of(key) implies table.contains_key(
        prefix,
    ) by {
        if prefix.len() > 0 {
            let i = choose|i: int|
                0 <= i < entries.len() && key.is_prefix_of((#[trigger] entries[i]).key);
        }
    }
}

/// Before any prefix is added, the names and the empty string are in the
/// table with the values that they have in the end.
pub proof fn lemma_closing_start(entries: Seq<EntryView>, keys: Seq<String>)
    ensures
        closed_up_to(entries, keys, 0, seeded_table(entries)),
{
    let table = seeded_table(entries);
    assert forall|key: Seq<char>| #[trigger] table.contains_key(key) implies is_table_key(
        entries,
        key,
    ) && table[key] == table_value(entries, key) by {
        if key.len() > 0 {
            let i = choose|i: int| 0 <= i < entries.len() && (#[trigger] entries[i]).key == key;
        } else {
            assert(key =~= Seq::<char>::empty());
        }
    }
}

/// Adding the inner prefixes of the next key keeps what holds of the table
/// and brings every prefix of that key in.
pub proof fn lemma_closing_step(
    entries: Seq<EntryView>,
    keys: Seq<String>,
    done: int,
    table: Map<Seq<char>, (u32, u32)>,
)
    requires
        0 <= done < keys.len(),
        closed_up_to(entries, keys, done, table),
        table.contains_key(keys[done]@),
    ensures
        closed_up_to(
            entries,
            keys,
            done + 1,
            with_prefixes(table, keys[done]@, keys[done]@.len() as int),
        ),
{
    let key = keys[done]@;
    let after = with_prefixes(table, key, key.len() as int);
    assert(seeded_table(entries).contains_key(Seq::<char>::empty()));
    assert forall|prefix: Seq<char>| #[trigger] after.contains_key(prefix) implies is_table_key(
        entries,
        prefix,
    ) && after[prefix] == table_value(entries, prefix) by {
        if !table.contains_key(prefix) {
            let i = choose|i: int|
                0 <= i < entries.len() && key.is_prefix_of((#[trigger] entries[i]).key);
            assert(prefix.is_prefix_of(entries[i].key));
            assert(!seeded_table(entries).contains_key(prefix));
        }
    }
    assert forall|j: int, prefix: Seq<char>|
        0 <= j < done + 1 && #[trigger] prefix.is_prefix_of(
            (#[trigger] keys[j])@,
        ) implies after.contains_key(prefix) by {
        if j < done {
            assert(table.contains_key(prefix));
        } else if prefix.len() == 0 {
            assert(prefix =~= Seq::<char>::empty());
        } else if prefix.len() == key.len() {
            assert(prefix =~= key);
        } else {
            assert(is_inner_prefix(prefix, key));
        }
    }
}

/// Once the prefixes of every name are in, the table is finished.
pub proof fn lemma_closing_end(
    entries: Seq<EntryView>,
    keys: Seq<String>,
    table: Map<Seq<char>, (u32, u32)>,
)
    requires
        closed_up_to(entries, keys, keys.len() as int, table),
        forall|key: Seq<char>| #[trigger]
            seeded_table(entries).contains_key(key) ==> exists|j: int|
                0 <= j < keys.len() && (#[trigger] keys[j])@ == key,
    ensures
        table == closed_table(entries),
{
    let whole = closed_table(entries);
    assert forall|key: Seq<char>| whole.contains_key(key) implies table.contains_key(key) by {
        if key.len() > 0 {
            let i = choose|i: int|
                0 <= i < entries.len() && key.is_prefix_of((#[trigger] entries[i]).key);
            let name = entries[i].key;
            assert(seeded_table(entries).contains_key(name));
            let j = choose|j: int| 0 <= j < keys.len() && (#[trigger] keys[j])@ == name;
            assert(key.is_prefix_of(keys[j]@));
        } else {
            assert(key =~= Seq::<char>::empty());
            assert(seeded_table(entries).contains_key(key));
        }
    }
    assert(table =~= whole);
}

} // verus!
