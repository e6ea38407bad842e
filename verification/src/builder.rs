//! From a dataset to its table.

use crate::closure::{closed_table, prefix_closed, SENTINEL};
use crate::prefix_map::PrefixMap;
use crate::reference::{validate, CharacterReference, Defect, EntryView, PrefixEntry, ReferenceView};
use vstd::prelude::*;

verus! {

/// A dataset was refused: the first record that is not well formed, by its
/// position and its name as the dataset spells it, and what is wrong with it.
#[derive(Debug, PartialEq, Eq)]
pub struct MalformedEntity {
    pub index: usize,
    pub name: String,
    pub defect: Defect,
}

impl Clone for MalformedEntity {
    fn clone(&self) -> (copy: MalformedEntity)
        ensures
            copy.index == self.index,
            copy.name@ == self.name@,
            copy.defect == self.defect,
    {
        MalformedEntity { index: self.index, name: self.name.clone(), defect: self.defect }
    }
}

/// Every record of the dataset is well formed.
pub open spec fn well_formed_dataset(dataset: Seq<ReferenceView>) -> bool {
    forall|i: int| 0 <= i < dataset.len() ==> (#[trigger] dataset[i]).well_formed()
}

/// The entries that the records of a dataset become, in the same order.
pub open spec fn normalized_dataset(dataset: Seq<ReferenceView>) -> Seq<EntryView> {
    Seq::new(dataset.len(), |i: int| dataset[i].normalized())
}

/// `error` reports the first record of `dataset` that is not well formed.
pub open spec fn reports_first_defect(
    dataset: Seq<ReferenceView>,
    error: MalformedEntity,
) -> bool {
    &&& error.index < dataset.len()
    &&& forall|i: int| 0 <= i < error.index ==> (#[trigger] dataset[i]).well_formed()
    &&& !dataset[error.index as int].well_formed()
    &&& dataset[error.index as int].defect() == Some(error.defect)
    &&& error.name@ == dataset[error.index as int].name
}

/// Checks every record of the dataset, in the order in which they stand, and
/// gives the entries that they become. The first record that is not well
/// formed is reported, and no entries are given then.
pub fn normalize(records: &[CharacterReference]) -> (result: Result<
    Vec<PrefixEntry>,
    MalformedEntity,
>)
    ensures
        result is Ok <==> well_formed_dataset(records.deep_view()),
        match result {
            Ok(entries) => entries.deep_view() == normalized_dataset(records.deep_view()),
            Err(error) => reports_first_defect(records.deep_view(), error),
        },
{
    let ghost dataset = records.deep_view();
    let mut entries: Vec<PrefixEntry> = Vec::new();
    let mut i: usize = 0;
    while i < records.len()
        invariant
            i <= records.len(),
            dataset == records.deep_view(),
            entries@.len() == i,
            forall|j: int| 0 <= j < i ==> (#[trigger] dataset[j]).well_formed(),
            forall|j: int| 0 <= j < i ==> (#[trigger] entries@[j])@ == dataset[j].normalized(),
        decreases records.len() - i,
    {
        let record: &CharacterReference = &records[i];
        assert(record@ == dataset[i as int]);
        match validate(record) {
            Err(defect) => {
                return Err(MalformedEntity { index: i, name: record.name.clone(), defect });
            },
            Ok(entry) => {
                entries.push(entry);
            },
        }
        i += 1;
    }
    assert(entries.deep_view() =~= normalized_dataset(dataset));
    Ok(entries)
}

/// Builds the table of a dataset.
///
/// If a record is not well formed, the first such record is reported and no
/// table is built: a table with a name missing would decode text wrongly
/// without anyone noticing. Otherwise the table holds each name, without its
/// marker, with the codepoints of the last record of that name, and the
/// empty string and every other prefix of a name with the sentinel.
pub fn build_map(records: &[CharacterReference]) -> (result: Result<PrefixMap, MalformedEntity>)
    ensures
        result is Ok <==> well_formed_dataset(records.deep_view()),
        match result {
            Ok(map) => {
                &&& map@ == closed_table(normalized_dataset(records.deep_view()))
                &&& prefix_closed(map@)
                &&& map@.contains_key(Seq::<char>::empty())
                &&& map@[Seq::<char>::empty()] == SENTINEL
            },
            Err(error) => reports_first_defect(records.deep_view(), error),
        },
{
    match normalize(records) {
        Ok(entries) => Ok(PrefixMap::from_entries(entries.as_slice())),
        Err(error) => Err(error),
    }
}

} // verus!
