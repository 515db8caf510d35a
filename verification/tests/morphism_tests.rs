use std::collections::{BTreeMap, BTreeSet};
use wr_core::morphism::{escaped_int, Morphism, MorphismError};

fn map(pairs: &[(i32, &[i32])]) -> BTreeMap<i32, Vec<i32>> {
    pairs.iter().map(|(k, v)| (*k, v.to_vec())).collect()
}

#[test]
fn thue_morse_morphism_is_uniform_length_two() {
    let h = Morphism::from_mapping(map(&[(0, &[0, 1]), (1, &[1, 0])]));
    assert_eq!(h.length, 2);
    assert_eq!(h.mapping.get(&0), Some(&vec![0, 1]));
    assert_eq!(h.mapping.get(&1), Some(&vec![1, 0]));
    assert_eq!(h.range, BTreeSet::from([0, 1]));
}

#[test]
fn to_word_automaton_gam_matches_real_walnut_transition_table() {
    let h = Morphism::from_mapping(map(&[
        (0, &[0, 1]),
        (1, &[2, 1]),
        (2, &[0, 3]),
        (3, &[2, 3]),
    ]));
    assert_eq!(h.length, 2);
    let p = h.to_word_automaton().unwrap();

    assert_eq!(p.fa.q, 4);
    assert_eq!(p.fa.alphabet_size, 2);
    assert_eq!(p.alphabet, vec![vec![0, 1]]);
    assert_eq!(p.msd, vec![Some(true)]);
    assert!(p.is_canonized());
    assert_eq!(p.fa.o, vec![0, 1, 2, 3]);

    let expected: Vec<BTreeMap<i32, Vec<usize>>> = vec![
        BTreeMap::from([(0, vec![0]), (1, vec![1])]),
        BTreeMap::from([(0, vec![2]), (1, vec![1])]),
        BTreeMap::from([(0, vec![0]), (1, vec![3])]),
        BTreeMap::from([(0, vec![2]), (1, vec![3])]),
    ];
    assert_eq!(p.fa.d, expected);
}

#[test]
fn to_word_automaton_thue_morse_shape() {
    let h = Morphism::from_mapping(map(&[(0, &[0, 1]), (1, &[1, 0])]));
    let p = h.to_word_automaton().unwrap();

    assert_eq!(p.fa.q, 2);
    assert_eq!(p.fa.alphabet_size, 2);
    assert_eq!(p.fa.o, vec![0, 1]);
    let expected: Vec<BTreeMap<i32, Vec<usize>>> = vec![
        BTreeMap::from([(0, vec![0]), (1, vec![1])]),
        BTreeMap::from([(0, vec![1]), (1, vec![0])]),
    ];
    assert_eq!(p.fa.d, expected);
}

#[test]
fn to_word_automaton_does_not_require_uniform_length() {
    let h = Morphism::from_mapping(map(&[(0, &[0]), (1, &[1, 0])]));
    assert_eq!(h.length, -1, "non-uniform");
    let p = h.to_word_automaton().unwrap();

    assert_eq!(p.fa.alphabet_size, 2, "max image length");
    assert_eq!(p.fa.q, 2, "max_entry(=1) + 1");
    assert_eq!(p.fa.d[0].len(), 1);
    assert!(p.fa.d[0].contains_key(&0));
    assert!(!p.fa.d[0].contains_key(&1));
}

#[test]
fn to_word_automaton_keeps_a_state_unreachable_from_q0() {
    let h = Morphism::from_mapping(map(&[(0, &[0, 1]), (1, &[1, 0]), (2, &[2, 2])]));
    let p = h.to_word_automaton().unwrap();
    assert_eq!(p.fa.q, 3);
    assert!(p.is_canonized());
    assert_eq!(p.fa.o, vec![0, 1, 2]);
    assert_eq!(p.fa.d[2], BTreeMap::from([(0, vec![2]), (1, vec![2])]));
}

#[test]
fn to_word_automaton_rejects_a_max_image_length_below_two() {
    let h = Morphism::from_mapping(map(&[(0, &[1]), (1, &[0])]));
    let err = h.to_word_automaton().unwrap_err();
    assert_eq!(err, MorphismError::NumberSystemNotDefined(1));
    assert_eq!(err.message(), "Number system msd_1 is not defined.");
}

#[test]
fn to_word_automaton_negative_value_beats_the_number_system_check() {
    let h = Morphism::from_mapping(map(&[(0, &[-1]), (1, &[0])]));
    assert_eq!(
        h.to_word_automaton().unwrap_err(),
        MorphismError::NegativeValue
    );
}

#[test]
fn to_word_automaton_number_system_check_beats_wb036() {
    let h = Morphism::from_mapping(map(&[(0, &[5])]));
    assert_eq!(
        h.to_word_automaton().unwrap_err(),
        MorphismError::NumberSystemNotDefined(1)
    );
}

#[test]
fn to_word_automaton_tolerates_a_domain_wider_than_the_image_range() {
    let h = Morphism::from_mapping(map(&[(0, &[0, 0]), (1, &[0, 0])]));
    let p = h.to_word_automaton().unwrap();
    assert_eq!(p.fa.q, 1);
    assert_eq!(p.fa.d.len(), 1, "d.len() == q invariant restored");
    assert_eq!(p.fa.o, vec![0]);
    assert_eq!(p.fa.d[0], BTreeMap::from([(0, vec![0]), (1, vec![0])]));
}

#[test]
fn to_word_automaton_rejects_negative_values() {
    let h = Morphism::from_mapping(map(&[(0, &[0, -1]), (1, &[1, 0])]));
    let err = h.to_word_automaton().unwrap_err();
    assert_eq!(err, MorphismError::NegativeValue);
    assert_eq!(err.message(), "Cannot promote a morphism with negative values.");
}

#[test]
fn to_word_automaton_wb036_domain_gap_is_rejected_up_front() {
    let h = Morphism::from_mapping(map(&[(0, &[0, 5]), (1, &[1, 0])]));
    let err = h.to_word_automaton().unwrap_err();
    assert_eq!(err, MorphismError::DomainDoesNotCoverImageRange);
}

#[test]
fn to_word_automaton_on_an_empty_mapping_is_the_number_system_error() {
    let h = Morphism::from_mapping(BTreeMap::new());
    let err = h.to_word_automaton().unwrap_err();
    assert_eq!(err, MorphismError::NumberSystemNotDefined(0));
    assert_eq!(err.message(), "Number system msd_0 is not defined.");
}

#[test]
fn test_image_length_uniform() {
    let h = Morphism::from_mapping(map(&[
        (0, &[0, 1]),
        (1, &[2, 1]),
        (2, &[0, 3]),
        (3, &[2, 3]),
    ]));
    assert_eq!(h.length, 2);
}

#[test]
fn test_image_length_non_uniform() {
    let h = Morphism::from_mapping(map(&[
        (0, &[0, 1, 2, 3]),
        (1, &[2, 1]),
        (2, &[0, 3]),
        (3, &[2, 3]),
    ]));
    assert_eq!(h.length, -1);
}

#[test]
fn test_big_alphabet() {
    let h = Morphism::from_mapping(map(&[(0, &[0, 1]), (11, &[0, 1, 2]), (12, &[0, 2])]));
    assert_eq!(h.length, -1);
    assert_eq!(h.range.len(), 3);
    assert_eq!(h.mapping.get(&0).unwrap().len(), 2);
    assert_eq!(h.mapping.get(&10), None);
    assert_eq!(h.mapping.get(&11).unwrap().len(), 3);
    assert_eq!(h.mapping.get(&12).unwrap().len(), 2);
}

#[test]
fn empty_mapping_has_length_zero_and_empty_range() {
    let h = Morphism::from_mapping(BTreeMap::new());
    assert_eq!(h.length, 0);
    assert!(h.range.is_empty());
    assert!(h.mapping.is_empty());
}

#[test]
fn uniform_zero_length_when_every_image_is_empty() {
    let h = Morphism::from_mapping(map(&[(0, &[]), (1, &[])]));
    assert_eq!(h.length, 0);
    assert!(h.range.is_empty());
}

#[test]
fn require_positive_uniform_length_rejects_non_uniform() {
    let h = Morphism::from_mapping(map(&[(0, &[0, 1]), (1, &[1])]));
    assert_eq!(h.length, -1);
    let err = h.require_positive_uniform_length().unwrap_err();
    assert_eq!(err, MorphismError::NotUniform);
    assert_eq!(
        err.message(),
        "A morphism applied to a word automaton must be uniform."
    );
}

#[test]
fn require_positive_uniform_length_rejects_zero_length() {
    let h = Morphism::from_mapping(map(&[(0, &[]), (1, &[])]));
    let err = h.require_positive_uniform_length().unwrap_err();
    assert_eq!(err, MorphismError::NotPositiveUniform);
    assert_eq!(
        err.message(),
        "A morphism applied to a word automaton must have positive uniform length."
    );
}

#[test]
fn require_positive_uniform_length_accepts_positive_uniform() {
    let h = Morphism::from_mapping(map(&[(0, &[0, 1]), (1, &[1, 0])]));
    assert!(h.require_positive_uniform_length().is_ok());
}

#[test]
fn escaped_int_brackets_outside_zero_through_nine() {
    assert_eq!(escaped_int(0), "0");
    assert_eq!(escaped_int(9), "9");
    assert_eq!(escaped_int(10), "[10]");
    assert_eq!(escaped_int(-3), "[-3]");
}

#[test]
fn escaped_int_handles_the_extremes() {
    assert_eq!(escaped_int(i32::MIN), "[-2147483648]");
    assert_eq!(escaped_int(i32::MAX), "[2147483647]");
    assert_eq!(escaped_int(-1), "[-1]");
}

#[test]
fn write_round_trips_escaping_and_order() {
    let h = Morphism::from_mapping(map(&[
        (0, &[-3, 0, 1, 0, 2, 11]),
        (1, &[2, 1, 1, 3]),
        (2, &[3, 1, 4]),
    ]));
    let text = h.write();
    assert_eq!(text, "0 -> [-3]0102[11]\n1 -> 2113\n2 -> 314\n");
}

#[test]
fn write_escapes_out_of_range_domain_keys_too() {
    let h = Morphism::from_mapping(map(&[(-3, &[0, 11]), (11, &[1]), (2, &[9, -1])]));
    let text = h.write();
    assert_eq!(text, "[-3] -> 0[11]\n2 -> 9[-1]\n[11] -> 1\n");
}

#[test]
fn write_of_the_thue_morse_morphism() {
    let h = Morphism::from_mapping(map(&[(0, &[0, 1]), (1, &[1, 0])]));
    assert_eq!(h.write(), "0 -> 01\n1 -> 10\n");
}

#[test]
fn make_inter_predicate_thue_morse_value_zero() {
    let h = Morphism::from_mapping(map(&[(0, &[0, 1]), (1, &[1, 0])]));
    let predicate = h.make_inter_predicate(0, "L", "?msd_2");
    assert_eq!(
        predicate,
        "?msd_2 E q, r (n=2*q+r & r>=0 & r<2 & (L[q]= @0 => (r=0)) & (L[q]= @1 => (r=1)))"
    );
}

#[test]
fn make_inter_predicate_value_absent_from_every_image() {
    let h = Morphism::from_mapping(map(&[(0, &[0, 1]), (1, &[1, 0])]));
    let predicate = h.make_inter_predicate(5, "L", "?msd_2");
    assert_eq!(
        predicate,
        "?msd_2 E q, r (n=2*q+r & r>=0 & r<2 & (L[q]!= @0) & (L[q]!= @1))"
    );
}

#[test]
fn make_inter_predicate_value_repeated_within_one_image_ors_positions() {
    let h = Morphism::from_mapping(map(&[(0, &[1, 1, 0])]));
    let predicate = h.make_inter_predicate(1, "L", "?msd_3");
    assert_eq!(
        predicate,
        "?msd_3 E q, r (n=3*q+r & r>=0 & r<3 & (L[q]= @0 => (r=0|r=1)))"
    );
}

#[test]
fn make_inter_predicate_emits_out_of_range_keys_unescaped() {
    let h = Morphism::from_mapping(map(&[(11, &[2, 0]), (12, &[0, 2])]));
    let predicate = h.make_inter_predicate(2, "L", "?msd_2");
    assert_eq!(
        predicate,
        "?msd_2 E q, r (n=2*q+r & r>=0 & r<2 & (L[q]= @11 => (r=0)) & (L[q]= @12 => (r=1)))"
    );
    let absent = h.make_inter_predicate(7, "L", "?msd_2");
    assert_eq!(
        absent,
        "?msd_2 E q, r (n=2*q+r & r>=0 & r<2 & (L[q]!= @11) & (L[q]!= @12))"
    );
}

#[test]
fn make_inter_predicate_emits_negative_domain_letters_unescaped() {
    let h = Morphism::from_mapping(map(&[(-3, &[11, 0]), (12, &[0, 11])]));
    let predicate = h.make_inter_predicate(11, "L", "?msd_2");
    assert_eq!(
        predicate,
        "?msd_2 E q, r (n=2*q+r & r>=0 & r<2 & (L[q]= @-3 => (r=0)) & (L[q]= @12 => (r=1)))"
    );
}

#[test]
fn make_inter_predicate_with_a_negative_length() {
    let h = Morphism::from_mapping(map(&[(0, &[0]), (1, &[1, 0])]));
    assert_eq!(h.length, -1);
    let predicate = h.make_inter_predicate(1, "W", "?lsd_2");
    assert_eq!(
        predicate,
        "?lsd_2 E q, r (n=-1*q+r & r>=0 & r<-1 & (W[q]!= @0) & (W[q]= @1 => (r=0)))"
    );
}

#[test]
fn morphism_error_messages() {
    assert_eq!(
        MorphismError::DomainDoesNotCoverImageRange.message(),
        "morphism domain does not cover every value referenced in an image"
    );
    assert_eq!(
        MorphismError::NumberSystemNotDefined(12).message(),
        "Number system msd_12 is not defined."
    );
}
