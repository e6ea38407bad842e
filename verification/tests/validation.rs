use named_entities::reference::{validate, CharacterReference, Defect, PrefixEntry};

fn reference(name: &str, codepoints: &[u32]) -> CharacterReference {
    CharacterReference { name: name.to_string(), codepoints: codepoints.to_vec() }
}

fn entry(key: &str, value: (u32, u32)) -> PrefixEntry {
    PrefixEntry { key: key.to_string(), value }
}

#[test]
fn single_codepoint_is_padded_with_zero() {
    assert_eq!(validate(&reference("&amp", &[38])), Ok(entry("amp", (38, 0))));
    assert_eq!(validate(&reference("&lt", &[60])), Ok(entry("lt", (60, 0))));
}

#[test]
fn two_codepoints_are_kept_in_order() {
    assert_eq!(
        validate(&reference("&NotEqualTilde;", &[8770, 824])),
        Ok(entry("NotEqualTilde;", (8770, 824)))
    );
    assert_eq!(validate(&reference("&bne;", &[61, 8421])), Ok(entry("bne;", (61, 8421))));
}

#[test]
fn largest_codepoints_are_kept() {
    assert_eq!(
        validate(&reference("&x", &[u32::MAX, u32::MAX])),
        Ok(entry("x", (u32::MAX, u32::MAX)))
    );
    assert_eq!(validate(&reference("&x", &[u32::MAX])), Ok(entry("x", (u32::MAX, 0))));
}

#[test]
fn only_the_marker_is_taken_off() {
    assert_eq!(validate(&reference("&amp;", &[38])), Ok(entry("amp;", (38, 0))));
    assert_eq!(validate(&reference("&AMP;", &[38])), Ok(entry("AMP;", (38, 0))));
    assert_eq!(validate(&reference("& a ", &[1])), Ok(entry(" a ", (1, 0))));
}

#[test]
fn second_marker_belongs_to_the_name() {
    assert_eq!(validate(&reference("&&", &[1])), Ok(entry("&", (1, 0))));
    assert_eq!(validate(&reference("&&amp", &[1])), Ok(entry("&amp", (1, 0))));
}

#[test]
fn name_beyond_ascii_is_cut_between_characters() {
    assert_eq!(validate(&reference("&\u{e9}t\u{e9}", &[233])), Ok(entry("\u{e9}t\u{e9}", (233, 0))));
    assert_eq!(validate(&reference("&\u{1d504}", &[120068])), Ok(entry("\u{1d504}", (120068, 0))));
}

#[test]
fn one_character_name_is_accepted() {
    assert_eq!(validate(&reference("&a", &[7])), Ok(entry("a", (7, 0))));
}

#[test]
fn zero_codepoint_is_stored_as_it_is() {
    assert_eq!(validate(&reference("&nul", &[0])), Ok(entry("nul", (0, 0))));
    assert_eq!(validate(&reference("&nul", &[0, 0])), Ok(entry("nul", (0, 0))));
    assert_eq!(validate(&reference("&nul", &[0, 5])), Ok(entry("nul", (0, 5))));
}

#[test]
fn record_without_codepoints_is_refused() {
    assert_eq!(validate(&reference("&amp;", &[])), Err(Defect::CodepointCount));
}

#[test]
fn record_with_three_codepoints_is_refused() {
    assert_eq!(validate(&reference("&amp;", &[1, 2, 3])), Err(Defect::CodepointCount));
    assert_eq!(validate(&reference("&amp;", &[1, 2, 3, 4, 5])), Err(Defect::CodepointCount));
}

#[test]
fn name_without_marker_is_refused() {
    assert_eq!(validate(&reference("amp;", &[38])), Err(Defect::MissingMarker));
    assert_eq!(validate(&reference("a&mp;", &[38])), Err(Defect::MissingMarker));
    assert_eq!(validate(&reference(";", &[38])), Err(Defect::MissingMarker));
}

#[test]
fn empty_string_is_refused_for_its_missing_marker() {
    assert_eq!(validate(&reference("", &[38])), Err(Defect::MissingMarker));
}

#[test]
fn marker_alone_is_refused() {
    assert_eq!(validate(&reference("&", &[38])), Err(Defect::EmptyName));
    assert_eq!(validate(&reference("&", &[38, 39])), Err(Defect::EmptyName));
}

#[test]
fn codepoints_are_checked_before_the_name() {
    assert_eq!(validate(&reference("amp", &[])), Err(Defect::CodepointCount));
    assert_eq!(validate(&reference("", &[1, 2, 3])), Err(Defect::CodepointCount));
    assert_eq!(validate(&reference("&", &[])), Err(Defect::CodepointCount));
}

#[test]
fn validation_leaves_the_record_alone() {
    let record = reference("&amp;", &[38]);
    let copy = record.clone();
    let first = validate(&record);
    let second = validate(&record);
    assert_eq!(first, second);
    assert_eq!(record, copy);
}
