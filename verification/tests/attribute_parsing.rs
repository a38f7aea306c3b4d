use std::collections::HashMap;
use eve_remap::allocation::{generate_allocations, ATTR_SUM, BASE_ATTR_VAL, MAX_ATTR_AFTER_REMAP};
use eve_remap::parser::{parse_attributes, parse_implant_bonuses, AttrListError};

const MIN_ATTR_AFTER_REMAP: u32 = BASE_ATTR_VAL;

#[test]
fn test_parse_attributes_uniform_min() {
    let attrs = parse_attributes("17:17:17:17:17").unwrap();
    assert_eq!(attrs.perception, 17);
    assert_eq!(attrs.intelligence, 17);
}

#[test]
fn test_parse_attributes_max_values() {
    let attrs = parse_attributes("27:27:27:27:27").unwrap();
    assert_eq!(attrs.charisma, 27);
}

#[test]
fn test_parse_attributes_mixed() {
    // Note: 16 is out of range — should fail.
    assert!(parse_attributes("27:22:17:17:16").is_err());
}

#[test]
fn test_parse_attributes_wrong_count() {
    assert!(parse_attributes("17:17:17").is_err());
    assert!(parse_attributes("17:17:17:17:17:17").is_err());
}

#[test]
fn test_parse_attributes_out_of_range_low() {
    assert!(parse_attributes("16:17:17:17:17").is_err());
}

#[test]
fn test_parse_attributes_out_of_range_high() {
    assert!(parse_attributes("28:17:17:17:17").is_err());
}

#[test]
fn test_parse_attributes_whitespace_tolerant() {
    let attrs = parse_attributes(" 17 : 17 : 17 : 17 : 17 ").unwrap();
    assert_eq!(attrs.perception, 17);
}

#[test]
fn test_parse_implant_bonuses_zero() {
    let bonuses = parse_implant_bonuses("0:0:0:0:0").unwrap();
    assert_eq!(bonuses.intelligence, 0);
}

#[test]
fn test_parse_implant_bonuses_mixed() {
    let bonuses = parse_implant_bonuses("0:1:2:3:4").unwrap();
    assert_eq!(bonuses.perception, 0);
    assert_eq!(bonuses.memory, 1);
    assert_eq!(bonuses.willpower, 2);
    assert_eq!(bonuses.intelligence, 3);
    assert_eq!(bonuses.charisma, 4);
}

#[test]
fn test_parse_implant_bonuses_out_of_range() {
    assert!(parse_implant_bonuses("0:0:0:0:11").is_err());
    assert!(parse_implant_bonuses("-1:0:0:0:0").is_err());
}

#[test]
fn attribute_errors_name_their_cause() {
    assert_eq!(parse_attributes("17:x:17"), Err(AttrListError::InvalidValue("x".to_string())));
    assert_eq!(parse_attributes("17:17:17"), Err(AttrListError::WrongCount(3)));
    assert_eq!(parse_attributes("27:22:17:17:16"), Err(AttrListError::OutOfRange(4, 16)));
    assert_eq!(parse_implant_bonuses("+1:0:0:0:0").unwrap().perception, 1);
}

#[test]
fn test_allocation_count_standard_remap() {
    let allocs = generate_allocations();
    assert_eq!(allocs.len(), 2_885);
    for a in &allocs {
        let sum = a.intelligence + a.charisma + a.perception + a.memory + a.willpower;
        assert_eq!(sum, ATTR_SUM);
        assert!(a.intelligence >= MIN_ATTR_AFTER_REMAP && a.intelligence <= MAX_ATTR_AFTER_REMAP);
        assert!(a.charisma >= MIN_ATTR_AFTER_REMAP && a.charisma <= MAX_ATTR_AFTER_REMAP);
        assert!(a.perception >= MIN_ATTR_AFTER_REMAP && a.perception <= MAX_ATTR_AFTER_REMAP);
        assert!(a.memory >= MIN_ATTR_AFTER_REMAP && a.memory <= MAX_ATTR_AFTER_REMAP);
        assert!(a.willpower >= MIN_ATTR_AFTER_REMAP && a.willpower <= MAX_ATTR_AFTER_REMAP);
    }
}

#[test]
fn test_allocation_no_single_attr_dump() {
    let allocs = generate_allocations();
    for a in &allocs {
        let boosted = [a.intelligence, a.charisma, a.perception, a.memory, a.willpower]
            .iter()
            .filter(|&&v| v > BASE_ATTR_VAL)
            .count();
        assert!(boosted >= 2, "must boost at least 2 attributes");
    }
}

#[test]
fn test_allocation_distribution_by_boosted_count() {
    let allocs = generate_allocations();
    let mut dist = HashMap::new();
    for a in &allocs {
        let boosted = [a.intelligence, a.charisma, a.perception, a.memory, a.willpower]
            .iter()
            .filter(|&&v| v > BASE_ATTR_VAL)
            .count();
        *dist.entry(boosted).or_insert(0usize) += 1;
    }
    assert!(!dist.contains_key(&1));
    assert_eq!(dist.values().sum::<usize>(), allocs.len());
}

#[test]
fn allocations_first_and_last_in_lexicographic_order() {
    let allocs = generate_allocations();
    let first = allocs[0];
    assert_eq!((first.intelligence, first.charisma, first.perception, first.memory, first.willpower), (17, 17, 17, 21, 27));
    let last = allocs[allocs.len() - 1];
    assert_eq!((last.intelligence, last.charisma, last.perception, last.memory, last.willpower), (27, 21, 17, 17, 17));
}
