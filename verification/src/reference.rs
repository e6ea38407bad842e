//! Records of the dataset, entries of the table, and the check that turns
//! the one into the other.

use vstd::prelude::*;
use vstd::string::*;

verus! {

/// The character that introduces a character reference in source text and
/// that every name in the dataset starts with.
pub const MARKER: char = '&';

/// One record of the dataset: a name as the dataset spells it, marker
/// included, and the codepoints that the reference decodes to.
#[derive(Debug, PartialEq, Eq)]
pub struct CharacterReference {
    pub name: String,
    pub codepoints: Vec<u32>,
}

/// What a [`CharacterReference`] holds, as mathematical sequences.
pub struct ReferenceView {
    pub name: Seq<char>,
    pub codepoints: Seq<u32>,
}

/// One entry of the table: a key and the pair of codepoints stored under it.
#[derive(Debug, PartialEq, Eq)]
pub struct PrefixEntry {
    pub key: String,
    pub value: (u32, u32),
}

/// What a [`PrefixEntry`] holds, its key as a mathematical sequence.
pub struct EntryView {
    pub key: Seq<char>,
    pub value: (u32, u32),
}

/// The reason why a record is refused.
#[derive(Clone, Copy, Debug, PartialEq, Eq)]
pub enum Defect {
    /// The record has no codepoint, or more than two.
    CodepointCount,
    /// The name does not start with [`MARKER`].
    MissingMarker,
    /// Nothing follows the marker.
    EmptyName,
}

impl View for CharacterReference {
    type V = ReferenceView;

    open spec fn view(&self) -> ReferenceView {
        ReferenceView { name: self.name@, codepoints: self.codepoints@ }
    }
}

impl DeepView for CharacterReference {
    type V = ReferenceView;

    open spec fn deep_view(&self) -> ReferenceView {
        self@
    }
}

impl View for PrefixEntry {
    type V = EntryView;

    open spec fn view(&self) -> EntryView {
        EntryView { key: self.key@, value: self.value }
    }
}

impl DeepView for PrefixEntry {
    type V = EntryView;

    open spec fn deep_view(&self) -> EntryView {
        self@
    }
}

impl Clone for CharacterReference {
    fn clone(&self) -> (copy: CharacterReference)
        ensures
            copy@ == self@,
    {
        CharacterReference { name: self.name.clone(), codepoints: self.codepoints.clone() }
    }
}

impl Clone for PrefixEntry {
    fn clone(&self) -> (copy: PrefixEntry)
        ensures
            copy@ == self@,
    {
        PrefixEntry { key: self.key.clone(), value: self.value }
    }
}

impl ReferenceView {
    /// A record is well formed when it decodes to one or two codepoints and
    /// its name is the marker followed by at least one character.
    pub open spec fn well_formed(self) -> bool {
        &&& 1 <= self.codepoints.len() <= 2
        &&& self.name.len() >= 2
        &&& self.name[0] == MARKER
    }

    /// The first thing that is wrong with the record, if anything is. The
    /// codepoints are looked at before the name.
    pub open spec fn defect(self) -> Option<Defect> {
        if self.codepoints.len() < 1 || self.codepoints.len() > 2 {
            Some(Defect::CodepointCount)
        } else if self.name.len() == 0 || self.name[0] != MARKER {
            Some(Defect::MissingMarker)
        } else if self.name.len() == 1 {
            Some(Defect::EmptyName)
        } else {
            None
        }
    }

    /// The name without its marker: the key under which the record is stored.
    pub open spec fn entity_name(self) -> Seq<char> {
        self.name.subrange(1, self.name.len() as int)
    }

    /// The codepoints as a pair, a single codepoint being followed by zero.
    pub open spec fn codepoint_pair(self) -> (u32, u32) {
        (
            self.codepoints[0],
            if self.codepoints.len() >= 2 {
                self.codepoints[1]
            } else {
                0u32
            },
        )
    }

    /// The entry that a well-formed record becomes.
    pub open spec fn normalized(self) -> EntryView {
        EntryView { key: self.entity_name(), value: self.codepoint_pair() }
    }
}

/// Checks one record and brings it into the form in which it is stored.
///
/// A well-formed record yields its name without the marker and its
/// codepoints as a pair; any other record yields the first of its defects.
/// Nothing else is changed: the case of the name is kept, and so is
/// everything that follows the marker.
pub fn validate(record: &CharacterReference) -> (result: Result<PrefixEntry, Defect>)
    ensures
        result is Ok <==> record@.well_formed(),
        match result {
            Ok(entry) => {
                &&& entry@ == record@.normalized()
                &&& entry.key@.len() >= 1
                &&& record@.codepoints.len() == 1 ==> entry.value == (record@.codepoints[0], 0u32)
            },
            Err(defect) => record@.defect() == Some(defect),
        },
{
    let count: usize = record.codepoints.len();
    if count < 1 || count > 2 {
        return Err(Defect::CodepointCount);
    }
    let raw: &str = record.name.as_str();
    let length: usize = raw.unicode_len();
    if length == 0 || raw.get_char(0) != MARKER {
        return Err(Defect::MissingMarker);
    }
    if length == 1 {
        return Err(Defect::EmptyName);
    }
    let key: String = raw.substring_char(1, length).to_owned();
    let first: u32 = record.codepoints[0];
    let second: u32 = if count == 2 {
        record.codepoints[1]
    } else {
        0
    };
    Ok(PrefixEntry { key, value: (first, second) })
}

} // verus!
