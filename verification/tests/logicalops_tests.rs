use std::collections::{BTreeMap, BTreeSet};
use wr_core::automaton::Automaton;
use wr_core::fa::Fa;
use wr_core::logicalops::{
    compute_string_value, convert_lsd_base_to_root, convert_msd_base_to_exponent, fix_leading_zeros_problem,
    fix_trailing_zeros_problem, flip_ns, flip_output, reverse,
    flipped_ns_name, int_pow, is_deterministic_and_total_java, is_subset_alphabet, parse_base,
    not, remove_states_with_output_rebuild, set_number_system_and_alphabet,
    set_states_reachable_to_final_states_by_zeros, totalize, update_transitions_from_morphism,
    zero_reachable_states, ConvertNsError, RemoveLeadingZerosError,
};

fn single_track(fa: Fa, msd: Option<bool>) -> Automaton {
    Automaton::new(fa, vec![vec![0, 1]], vec!["x".to_string()], vec![msd])
}

/// Total 2-state DFA over `{0,1}` accepting words whose last symbol is `1`.
fn ends_with_one() -> Fa {
    let mut d0 = BTreeMap::new();
    d0.insert(0, vec![0]);
    d0.insert(1, vec![1]);
    let mut d1 = BTreeMap::new();
    d1.insert(0, vec![0]);
    d1.insert(1, vec![1]);
    Fa {
        true_false: None,
        q0: 0,
        q: 2,
        alphabet_size: 2,
        o: vec![0, 1],
        d: vec![d0, d1],
    }
}

/// Partial: accepts exactly the one-symbol word `"1"`.
fn exactly_one() -> Fa {
    let mut d0 = BTreeMap::new();
    d0.insert(1, vec![1]);
    Fa {
        true_false: None,
        q0: 0,
        q: 2,
        alphabet_size: 2,
        o: vec![0, 1],
        d: vec![d0, BTreeMap::new()],
    }
}

/// Runs `fa` as a nondeterministic automaton on `word`.
fn accepts_word(fa: &Fa, word: &[i32]) -> bool {
    if fa.q == 0 {
        return false;
    }
    let mut current: BTreeSet<usize> = BTreeSet::from([fa.q0]);
    for &sym in word {
        let mut next = BTreeSet::new();
        for &p in &current {
            if let Some(dests) = fa.d[p].get(&sym) {
                next.extend(dests.iter().copied());
            }
        }
        current = next;
    }
    current.iter().any(|&p| fa.o[p] != 0)
}

fn deterministic_and_total(fa: &Fa) -> bool {
    (0..fa.q).all(|p| {
        (0..fa.alphabet_size as i32)
            .all(|s| matches!(fa.d[p].get(&s), Some(dests) if dests.len() == 1))
    })
}

#[test]
fn totalize_fills_missing_transitions_and_appends_one_non_accepting_sink() {
    let mut fa = exactly_one();
    totalize(&mut fa);
    assert_eq!(fa.q, 3);
    assert_eq!(fa.o, vec![0, 1, 0], "the sink is non-accepting");
    assert_eq!(fa.d[0].get(&0), Some(&vec![2]));
    assert_eq!(fa.d[1].get(&0), Some(&vec![2]));
    assert_eq!(fa.d[1].get(&1), Some(&vec![2]));
    assert_eq!(fa.d[2].get(&0), Some(&vec![2]), "the sink self-loops");
    assert_eq!(fa.d[2].get(&1), Some(&vec![2]));
}

#[test]
fn totalize_appends_no_sink_when_already_total() {
    let mut fa = ends_with_one();
    totalize(&mut fa);
    assert_eq!(fa.q, 2, "an already-total automaton must not grow a sink");
    assert_eq!(fa.o, vec![0, 1]);
}

#[test]
fn totalize_accepts_a_nondeterministic_table_unlike_fa_totalize() {
    let mut d0 = BTreeMap::new();
    d0.insert(1, vec![0, 1]);
    let mut fa = Fa {
        true_false: None,
        q0: 0,
        q: 2,
        alphabet_size: 2,
        o: vec![0, 1],
        d: vec![d0, BTreeMap::new()],
    };
    totalize(&mut fa);
    assert_eq!(fa.q, 3);
    assert_eq!(
        fa.d[0].get(&1),
        Some(&vec![0, 1]),
        "an existing nondeterministic entry is left alone"
    );
    assert_eq!(fa.d[0].get(&0), Some(&vec![2]));
}

#[test]
fn totalize_keeps_the_language_of_a_partial_automaton() {
    let mut fa = exactly_one();
    let words: [&[i32]; 6] = [&[], &[0], &[1], &[1, 0], &[0, 1], &[1, 1]];
    let before: Vec<bool> = words.iter().map(|w| accepts_word(&fa, w)).collect();
    totalize(&mut fa);
    let after: Vec<bool> = words.iter().map(|w| accepts_word(&fa, w)).collect();
    assert_eq!(before, after);
    assert!(deterministic_and_total(&fa));
}

#[test]
fn flip_output_writes_plain_zero_one_and_collapses_dfao_values() {
    let mut fa = ends_with_one();
    fa.o = vec![0, 1];
    flip_output(&mut fa);
    assert_eq!(fa.o, vec![1, 0]);
    fa.o = vec![7, 0];
    flip_output(&mut fa);
    assert_eq!(fa.o, vec![0, 1]);
}

#[test]
fn flip_output_twice_restores_a_zero_one_output() {
    let mut fa = ends_with_one();
    flip_output(&mut fa);
    flip_output(&mut fa);
    assert_eq!(fa.o, vec![0, 1]);
}

#[test]
fn is_subset_alphabet_requires_matching_arity_and_compares_tracks_as_sets() {
    assert!(is_subset_alphabet(&[vec![0, 1]], &[vec![0, 1]]));
    assert!(is_subset_alphabet(&[vec![1, 0]], &[vec![0, 1]]));
    assert!(is_subset_alphabet(&[vec![0, 1]], &[vec![0, 1, 2]]));
    assert!(!is_subset_alphabet(&[vec![0, 1, 2]], &[vec![0, 1]]));
    assert!(!is_subset_alphabet(&[vec![0, 1]], &[vec![0, 1], vec![0, 1]]));
}

#[test]
fn flipped_ns_name_swaps_the_direction_and_keeps_the_base() {
    assert_eq!(flipped_ns_name("msd_2"), "lsd_2");
    assert_eq!(flipped_ns_name("lsd_5"), "msd_5");
    assert_eq!(flipped_ns_name("msd_fib"), "lsd_fib");
    assert_eq!(flipped_ns_name("lsd_neg_3"), "msd_neg_3");
    for name in ["msd_2", "lsd_5", "msd_fib", "lsd_neg_3"] {
        assert_eq!(flipped_ns_name(&flipped_ns_name(name)), name);
    }
}

#[test]
fn zero_reachable_states_forces_a_q0_self_loop_into_the_real_table() {
    let mut fa = Fa {
        true_false: None,
        q0: 0,
        q: 2,
        alphabet_size: 2,
        o: vec![0, 1],
        d: vec![BTreeMap::from([(1, vec![1])]), BTreeMap::new()],
    };
    assert_eq!(zero_reachable_states(&mut fa, 0), BTreeSet::from([0]));
    assert_eq!(fa.d[0].get(&0), Some(&vec![0]));
}

#[test]
fn zero_reachable_states_is_transitive_and_does_not_duplicate_an_existing_loop() {
    let mut fa = Fa {
        true_false: None,
        q0: 0,
        q: 3,
        alphabet_size: 1,
        o: vec![0, 0, 1],
        d: vec![
            BTreeMap::from([(0, vec![0, 1])]),
            BTreeMap::from([(0, vec![2])]),
            BTreeMap::new(),
        ],
    };
    assert_eq!(zero_reachable_states(&mut fa, 0), BTreeSet::from([0, 1, 2]));
    assert_eq!(
        fa.d[0].get(&0),
        Some(&vec![0, 1]),
        "an existing self-loop must not be duplicated"
    );
}

#[test]
fn fix_trailing_zeros_problem_closes_the_accepting_set_under_trailing_zeros() {
    let mut d = vec![BTreeMap::new(), BTreeMap::new(), BTreeMap::new()];
    d[0].insert(1, vec![1]);
    d[1].insert(0, vec![2]);
    d[2].insert(0, vec![2]);
    let mut a = single_track(
        Fa {
            true_false: None,
            q0: 0,
            q: 3,
            alphabet_size: 2,
            o: vec![0, 0, 1],
            d,
        },
        Some(true),
    );
    assert!(!accepts_word(&a.fa, &[1]), "sanity: \"1\" rejected before");
    assert!(accepts_word(&a.fa, &[1, 0]));

    fix_trailing_zeros_problem(&mut a);

    assert!(accepts_word(&a.fa, &[1]), "\"1\" now accepted");
    assert!(accepts_word(&a.fa, &[1, 0]));
    assert!(accepts_word(&a.fa, &[1, 0, 0]));
    assert!(!accepts_word(&a.fa, &[]));
    assert!(!accepts_word(&a.fa, &[0]));
    assert!(!accepts_word(&a.fa, &[1, 1]));
    assert!(!accepts_word(&a.fa, &[0, 1]));
    assert!(!a.is_canonized());
}

#[test]
fn fix_trailing_zeros_problem_does_not_even_minimize_when_nothing_changed() {
    let mut d = vec![BTreeMap::new(), BTreeMap::new(), BTreeMap::new()];
    d[0].insert(1, vec![1]);
    d[1].insert(1, vec![2]);
    d[2].insert(1, vec![2]);
    let mut a = single_track(
        Fa {
            true_false: None,
            q0: 0,
            q: 3,
            alphabet_size: 2,
            o: vec![0, 1, 1],
            d,
        },
        Some(true),
    );
    fix_trailing_zeros_problem(&mut a);
    assert_eq!(a.fa.q, 3, "no change was needed, so nothing was minimized");
    assert_eq!(a.fa.o, vec![0, 1, 1]);
}

#[test]
fn remove_states_with_output_rebuild_matches_the_java_characterization_test() {
    let mut fa = Fa {
        true_false: None,
        q0: 0,
        q: 3,
        alphabet_size: 1,
        o: vec![0, 1, 0],
        d: vec![
            BTreeMap::from([(0, vec![1])]),
            BTreeMap::from([(0, vec![0])]),
            BTreeMap::from([(0, vec![2])]),
        ],
    };

    remove_states_with_output_rebuild(&mut fa, 0);

    assert_eq!(fa.q, 3);
    assert_eq!(fa.o, vec![0, 1, 0]);
    assert_eq!(fa.d[0].get(&0), Some(&vec![1]));
    assert_eq!(fa.d[1].get(&0), None);
    assert_eq!(fa.d[2].get(&0), None);
}

#[test]
fn remove_states_with_output_rebuild_keys_only_on_the_first_destination() {
    let mut fa = Fa {
        true_false: None,
        q0: 0,
        q: 3,
        alphabet_size: 2,
        o: vec![1, 0, 1],
        d: vec![
            BTreeMap::from([(0, vec![2, 1]), (1, vec![1, 2])]),
            BTreeMap::new(),
            BTreeMap::new(),
        ],
    };
    remove_states_with_output_rebuild(&mut fa, 0);
    assert_eq!(fa.d[0].get(&0), Some(&vec![2, 1]));
    assert_eq!(fa.d[0].get(&1), None);
}

#[test]
fn parse_base_matches_javas_pattern_number_and_greater_than_one_guard() {
    assert_eq!(parse_base("msd_2"), Ok(2));
    assert_eq!(parse_base("lsd_10"), Ok(10));
    assert!(matches!(
        parse_base("msd_1"),
        Err(ConvertNsError::BaseNotAPositiveInt { ref found }) if found == "1"
    ));
    assert!(matches!(
        parse_base("msd_0"),
        Err(ConvertNsError::BaseNotAPositiveInt { ref found }) if found == "0"
    ));
    assert!(matches!(
        parse_base("msd_-2"),
        Err(ConvertNsError::BaseNotAPositiveInt { ref found }) if found == "-2"
    ));
    assert!(matches!(
        parse_base("msd_fib"),
        Err(ConvertNsError::BaseNotAPositiveInt { ref found }) if found == "fib"
    ));
    assert!(matches!(
        parse_base("msd_neg_2"),
        Err(ConvertNsError::BaseNotAPositiveInt { ref found }) if found == "neg_2"
    ));
}

#[test]
fn an_all_digit_base_that_overflows_an_int_is_not_the_guards_walnut_exception() {
    let err = parse_base("msd_99999999999999").expect_err("2^31 is not an int base");
    assert!(
        matches!(err, ConvertNsError::BaseOverflowsInt { ref found } if found == "99999999999999"),
        "expected the NumberFormatException path, got {err:?}"
    );
    assert_eq!(err.message(), "For input string: \"99999999999999\"");

    assert_eq!(parse_base("msd_2147483647"), Ok(2_147_483_647));
    assert!(matches!(
        parse_base("msd_2147483648"),
        Err(ConvertNsError::BaseOverflowsInt { ref found }) if found == "2147483648"
    ));

    assert_eq!(parse_base("msd_007"), Ok(7));
}

#[test]
fn parse_base_of_a_name_without_underscore_reads_the_whole_name() {
    assert_eq!(parse_base("12"), Ok(12));
    assert!(matches!(
        parse_base("fib"),
        Err(ConvertNsError::BaseNotAPositiveInt { ref found }) if found == "fib"
    ));
}

#[test]
fn is_deterministic_and_total_java_is_weaker_than_the_fa_predicate() {
    let mut d0 = BTreeMap::new();
    d0.insert(0, vec![0, 0]);
    d0.insert(1, vec![0]);
    let fa = Fa {
        true_false: None,
        q0: 0,
        q: 1,
        alphabet_size: 2,
        o: vec![1],
        d: vec![d0],
    };
    assert!(
        is_deterministic_and_total_java(&fa),
        "only the keys are counted, so this is 'total' to it"
    );
    assert!(
        !deterministic_and_total(&fa),
        "the strict predicate additionally requires exactly one destination"
    );
}

#[test]
fn is_deterministic_and_total_java_rejects_a_missing_key() {
    assert!(!is_deterministic_and_total_java(&exactly_one()));
    assert!(is_deterministic_and_total_java(&ends_with_one()));
}

#[test]
fn convert_ns_error_messages() {
    assert_eq!(
        ConvertNsError::NotSingleInput.message(),
        "Automaton must have exactly one input to be converted."
    );
    assert_eq!(
        ConvertNsError::IdenticalNumberSystems {
            name: "msd_2".to_string()
        }
        .message(),
        "New and old number systems are identical: msd_2"
    );
    assert_eq!(
        ConvertNsError::BaseMismatch {
            expected: 8,
            found: -3
        }
        .message(),
        "Base mismatch: expected 8, found -3"
    );
    assert_eq!(
        ConvertNsError::NotDeterministicAndTotal.message(),
        "Automaton must be deterministic for msd_k^j conversion"
    );
}

#[test]
fn remove_leading_zeros_error_messages() {
    assert_eq!(
        RemoveLeadingZerosError::NotFreeVariable("y".to_string()).message(),
        "Variable y in the list of quantified variables is not a free variable."
    );
    assert_eq!(
        RemoveLeadingZerosError::InputIndexOutOfRange { n: 2, inputs: 2 }.message(),
        "Cannot remove leading zeros for the 3-th input when A only has 2 inputs."
    );
}

fn epsilon_only(base: i32, msd: bool) -> Automaton {
    let fa = Fa {
        true_false: None,
        q0: 0,
        q: 1,
        alphabet_size: base as usize,
        o: vec![1],
        d: vec![BTreeMap::new()],
    };
    Automaton::new(
        fa,
        vec![(0..base).collect()],
        vec!["x".to_string()],
        vec![Some(msd)],
    )
}

#[test]
fn compute_string_value_reads_least_significant_first() {
    assert_eq!(compute_string_value(&[], 2), 0);
    assert_eq!(compute_string_value(&[1], 2), 1);
    assert_eq!(compute_string_value(&[0, 1], 2), 2);
    assert_eq!(compute_string_value(&[1, 1, 0], 2), 3);
    assert_eq!(compute_string_value(&[2, 1], 3), 5);
}

#[test]
fn int_pow_is_exact_below_the_limit_and_saturates_above_it() {
    assert_eq!(int_pow(3, 5), 243);
    assert_eq!(int_pow(2, 0), 1);
    assert_eq!(int_pow(0, 0), 1);
    assert_eq!(int_pow(0, 3), 0);
    assert_eq!(int_pow(1, 1000), 1);
    assert_eq!(int_pow(2, 30), 1 << 30);
    assert_eq!(int_pow(2, 31), i32::MAX);
    assert_eq!(int_pow(10, 12), i32::MAX);
    assert_eq!(int_pow(46341, 2), i32::MAX);
}

#[test]
fn update_transitions_from_morphism_groups_digits_most_significant_first() {
    let delta = |q: usize, d: i32| (2 * q + d as usize) % 3;
    let d: Vec<BTreeMap<i32, Vec<usize>>> = (0..3)
        .map(|q| (0..2).map(|dig| (dig, vec![delta(q, dig)])).collect())
        .collect();
    let mut fa = Fa {
        true_false: None,
        q0: 0,
        q: 3,
        alphabet_size: 2,
        o: vec![0, 1, 2],
        d,
    };

    update_transitions_from_morphism(&mut fa, 2);

    for q in 0..3 {
        assert_eq!(fa.d[q].len(), 4, "the grouped alphabet must be 0..3");
        for a in 0..2 {
            for b in 0..2 {
                assert_eq!(
                    fa.d[q][&(2 * a + b)],
                    vec![delta(delta(q, a), b)],
                    "symbol {} of state {q} must be the two-step transition on ({a}, {b})",
                    2 * a + b
                );
            }
        }
    }
    let mut untouched = Fa {
        true_false: None,
        q0: 0,
        q: 3,
        alphabet_size: 2,
        o: vec![0, 1, 2],
        d: (0..3)
            .map(|q| (0..2).map(|dig| (dig, vec![delta(q, dig)])).collect())
            .collect(),
    };
    let before = untouched.d.clone();
    update_transitions_from_morphism(&mut untouched, 1);
    assert_eq!(untouched.d, before);
}

#[test]
fn update_transitions_from_morphism_three_digits() {
    // A base-2 counter modulo 5: grouping three digits reads three steps at once.
    let delta = |q: usize, d: usize| (2 * q + d) % 5;
    let mut fa = Fa {
        true_false: None,
        q0: 0,
        q: 5,
        alphabet_size: 2,
        o: vec![1, 0, 0, 0, 0],
        d: (0..5)
            .map(|q| (0..2).map(|dig| (dig as i32, vec![delta(q, dig)])).collect())
            .collect(),
    };
    update_transitions_from_morphism(&mut fa, 3);
    for q in 0..5 {
        assert_eq!(fa.d[q].len(), 8);
        for v in 0..8usize {
            let expected = delta(delta(delta(q, v >> 2 & 1), v >> 1 & 1), v & 1);
            assert_eq!(fa.d[q][&(v as i32)], vec![expected]);
        }
    }
    assert_eq!(fa.alphabet_size, 2, "the alphabet size is set by the caller");
}

#[test]
fn convert_msd_base_to_exponent_rejects_a_non_total_automaton() {
    let mut a = epsilon_only(2, true);
    assert_eq!(
        convert_msd_base_to_exponent(&mut a, 2, 2),
        Err(ConvertNsError::NotDeterministicAndTotal)
    );
    assert_eq!(
        ConvertNsError::NotDeterministicAndTotal.message(),
        "Automaton must be deterministic for msd_k^j conversion"
    );
    assert_eq!(a.fa.alphabet_size, 2, "a refused conversion changes nothing");
}

#[test]
fn convert_msd_base_to_exponent_regroups_a_total_automaton() {
    // Parity of the number of 1 digits, over msd_2, regrouped into msd_4.
    let mut a = Automaton::new(
        Fa {
            true_false: None,
            q0: 0,
            q: 2,
            alphabet_size: 2,
            o: vec![1, 0],
            d: vec![
                BTreeMap::from([(0, vec![0]), (1, vec![1])]),
                BTreeMap::from([(0, vec![1]), (1, vec![0])]),
            ],
        },
        vec![vec![0, 1]],
        vec!["x".to_string()],
        vec![Some(true)],
    );
    assert_eq!(convert_msd_base_to_exponent(&mut a, 2, 2), Ok(()));
    assert_eq!(a.fa.alphabet_size, 4);
    assert_eq!(a.alphabet, vec![vec![0, 1, 2, 3]]);
    assert_eq!(a.msd, vec![Some(true)]);
    assert_eq!(a.fa.d[0][&0], vec![0]);
    assert_eq!(a.fa.d[0][&1], vec![1]);
    assert_eq!(a.fa.d[0][&2], vec![1]);
    assert_eq!(a.fa.d[0][&3], vec![0]);
    assert_eq!(a.fa.d[1][&3], vec![1]);
    assert_eq!(a.label, vec!["x".to_string()]);
}

#[test]
fn set_number_system_and_alphabet_moves_every_parallel_track_field() {
    let mut a = epsilon_only(2, true);
    a.label = vec!["x".to_string()];

    set_number_system_and_alphabet(&mut a, false, 5);

    assert_eq!(a.alphabet, vec![vec![0, 1, 2, 3, 4]]);
    assert_eq!(a.fa.alphabet_size, 5);
    assert_eq!(a.msd, vec![Some(false)]);
    assert_eq!(a.label, vec!["x".to_string()], "the track keeps its name");
}

#[test]
fn closing_under_trailing_zeros_twice_changes_nothing_the_second_time() {
    let mut d = vec![BTreeMap::new(), BTreeMap::new(), BTreeMap::new()];
    d[0].insert(1, vec![1]);
    d[1].insert(0, vec![2]);
    d[2].insert(0, vec![2]);
    let mut fa = Fa {
        true_false: None,
        q0: 0,
        q: 3,
        alphabet_size: 2,
        o: vec![0, 0, 1],
        d,
    };
    assert!(set_states_reachable_to_final_states_by_zeros(&mut fa, 0));
    assert_eq!(fa.o, vec![0, 1, 1]);
    assert!(!set_states_reachable_to_final_states_by_zeros(&mut fa, 0));
    assert_eq!(fa.o, vec![0, 1, 1]);
}

#[test]
fn totalizing_twice_is_the_same_as_totalizing_once() {
    let mut once = exactly_one();
    totalize(&mut once);
    let mut twice = exactly_one();
    totalize(&mut twice);
    totalize(&mut twice);
    assert_eq!(once.q, twice.q);
    assert_eq!(once.o, twice.o);
    assert_eq!(once.d, twice.d);
}

#[test]
fn convert_lsd_base_to_root_rejects_a_base_mismatch() {
    let mut a = epsilon_only(3, true);
    assert_eq!(
        convert_lsd_base_to_root(&mut a, 3, 2, 2),
        Err(ConvertNsError::BaseMismatch {
            expected: 4,
            found: 3
        })
    );
    assert_eq!(
        ConvertNsError::BaseMismatch {
            expected: 4,
            found: 3
        }
        .message(),
        "Base mismatch: expected 4, found 3"
    );
    assert_eq!(a.fa.alphabet_size, 3, "a refused conversion changes nothing");
}

#[test]
fn convert_lsd_base_to_root_builds_the_pending_digit_states_in_breadth_first_order() {
    let all = BTreeMap::from([(0, vec![0]), (1, vec![0]), (2, vec![0]), (3, vec![0])]);
    let mut a = Automaton::new(
        Fa {
            true_false: None,
            q0: 0,
            q: 1,
            alphabet_size: 4,
            o: vec![1],
            d: vec![all],
        },
        vec![vec![0, 1, 2, 3]],
        vec!["x".to_string()],
        vec![Some(false)],
    );
    assert_eq!(convert_lsd_base_to_root(&mut a, 4, 2, 2), Ok(()));
    assert_eq!(a.fa.q, 3);
    assert_eq!(a.fa.q0, 0);
    assert_eq!(a.fa.o, vec![1, 1, 1]);
    assert_eq!(a.fa.d[0], BTreeMap::from([(0, vec![1]), (1, vec![2])]));
    assert_eq!(a.fa.d[1], BTreeMap::from([(0, vec![0]), (1, vec![0])]));
    assert_eq!(a.fa.d[2], BTreeMap::from([(0, vec![0]), (1, vec![0])]));
    assert_eq!(a.fa.alphabet_size, 2);
    assert_eq!(a.alphabet, vec![vec![0, 1]]);
    assert_eq!(a.msd, vec![Some(false)]);
    assert!(!a.is_canonized());
}

#[test]
fn convert_lsd_base_to_root_reads_each_group_least_significant_digit_first() {
    // Over lsd_4: accept when the last digit read is 2 or 3 (state 1), else state 0.
    let row = BTreeMap::from([(0, vec![0]), (1, vec![0]), (2, vec![1]), (3, vec![1])]);
    let mut a = Automaton::new(
        Fa {
            true_false: None,
            q0: 0,
            q: 2,
            alphabet_size: 4,
            o: vec![0, 1],
            d: vec![row.clone(), row],
        },
        vec![vec![0, 1, 2, 3]],
        vec!["x".to_string()],
        vec![Some(false)],
    );
    let before = a.fa.clone();
    assert_eq!(convert_lsd_base_to_root(&mut a, 4, 2, 2), Ok(()));
    // Every base-4 word, split into binary digit pairs (low bit first), is accepted
    // exactly when the original accepted it.
    for len in 0..4usize {
        for code in 0..4usize.pow(len as u32) {
            let digits: Vec<i32> = (0..len).map(|i| ((code >> (2 * i)) & 3) as i32).collect();
            let split: Vec<i32> = digits.iter().flat_map(|&d| [d & 1, d >> 1]).collect();
            assert_eq!(
                accepts_word(&a.fa, &split),
                accepts_word(&before, &digits),
                "{digits:?}"
            );
        }
    }
    // A half-read group outputs as if its missing high digit were zero.
    assert!(!accepts_word(&a.fa, &[1]));
    assert!(accepts_word(&a.fa, &[0, 1]));
}

const WORDS: [&[i32]; 8] = [
    &[],
    &[0],
    &[1],
    &[0, 0],
    &[0, 1],
    &[1, 0],
    &[1, 1],
    &[0, 0, 1],
];

#[test]
fn not_complements_including_words_that_run_off_a_partial_table() {
    let original = exactly_one();
    let n = not(single_track(original.clone(), Some(true)));
    for word in WORDS {
        assert_eq!(
            accepts_word(&n.fa, word),
            !accepts_word(&original, word),
            "word={word:?}"
        );
    }
    assert!(
        accepts_word(&n.fa, &[0]),
        "\"0\" runs off the partial table; only the totalize step makes it accepted"
    );
}

#[test]
fn not_is_an_involution_up_to_language() {
    let original = exactly_one();
    let once = not(single_track(original.clone(), Some(true)));
    let twice = not(once);
    for word in WORDS {
        assert_eq!(
            accepts_word(&twice.fa, word),
            accepts_word(&original, word),
            "word={word:?}"
        );
    }
}

#[test]
fn not_minimizes_its_result() {
    let mut d = vec![BTreeMap::new(), BTreeMap::new(), BTreeMap::new()];
    d[0].insert(0, vec![1]);
    d[0].insert(1, vec![2]);
    d[1].insert(0, vec![1]);
    d[1].insert(1, vec![1]);
    d[2].insert(0, vec![2]);
    d[2].insert(1, vec![2]);
    let a = single_track(
        Fa {
            true_false: None,
            q0: 0,
            q: 3,
            alphabet_size: 2,
            o: vec![0, 1, 1],
            d,
        },
        Some(true),
    );
    let n = not(a);
    assert!(accepts_word(&n.fa, &[]));
    assert!(!accepts_word(&n.fa, &[0]));
    assert!(!accepts_word(&n.fa, &[1]));
    assert!(
        n.fa.q < 3,
        "the two equivalent rejecting sinks must be minimized away, got {} states",
        n.fa.q
    );
}

#[test]
fn not_flips_a_trivial_automatons_truth_value_and_stays_trivial() {
    for t in [true, false] {
        let n = not(Automaton::true_false(t));
        assert!(n.fa.is_true_false_automaton());
        assert_eq!(n.fa.true_false, Some(!t));
    }
    let n = not(not(Automaton::true_false(true)));
    assert_eq!(n.fa.true_false, Some(true));
}

#[test]
fn not_keeps_the_tracks_and_clears_the_fixed_numbering() {
    let mut a = single_track(ends_with_one(), Some(false));
    a.set_canonized(true);
    let n = not(a);
    assert_eq!(n.alphabet, vec![vec![0, 1]]);
    assert_eq!(n.label, vec!["x".to_string()]);
    assert_eq!(n.msd, vec![Some(false)]);
    assert!(!n.is_canonized());
    assert!(n.fa.is_deterministic());
}

#[test]
fn reverse_reverses_the_language_and_leaves_number_systems_alone_when_false() {
    let mut a = single_track(ends_with_one(), Some(true));
    reverse(&mut a, false);
    assert!(accepts_word(&a.fa, &[1]));
    assert!(accepts_word(&a.fa, &[1, 0, 0]));
    assert!(!accepts_word(&a.fa, &[0, 1]));
    assert!(!accepts_word(&a.fa, &[]));
    assert!(!accepts_word(&a.fa, &[0]));
    assert_eq!(
        a.msd,
        vec![Some(true)],
        "reverse_msd = false must NOT flip the number system"
    );
}

#[test]
fn reverse_with_reverse_msd_flips_arithmetic_tracks_only() {
    let mut a = Automaton::new(
        Fa {
            true_false: None,
            q0: 0,
            q: 3,
            alphabet_size: 4,
            o: vec![0, 0, 1],
            d: vec![BTreeMap::new(), BTreeMap::new(), BTreeMap::new()],
        },
        vec![vec![0, 1], vec![0, 1]],
        vec!["x".to_string(), "y".to_string()],
        vec![Some(true), None],
    );
    let e10 = a.encode(&vec![1, 0]);
    let e00 = a.encode(&vec![0, 0]);
    a.fa.d[0].insert(e10, vec![1]);
    a.fa.d[1].insert(e00, vec![2]);
    assert!(accepts_word(&a.fa, &[e10, e00]), "sanity: L = {{ (1,0)(0,0) }}");

    reverse(&mut a, true);

    assert_eq!(
        a.msd,
        vec![Some(false), None],
        "only the arithmetic track flips; the null-NumberSystem track is skipped"
    );
    assert!(accepts_word(&a.fa, &[e00, e10]), "the reversed word");
    assert!(!accepts_word(&a.fa, &[e10, e00]), "the original word is gone");
}

#[test]
fn fix_leading_zeros_problem_matches_the_java_characterization_test() {
    const Q0: usize = 0;
    const Q1: usize = 1;
    const QA: usize = 2;
    const QD: usize = 3;
    let mut d = vec![BTreeMap::new(), BTreeMap::new(), BTreeMap::new(), BTreeMap::new()];
    d[Q0].insert(0, vec![Q1]);
    d[Q0].insert(1, vec![QD]);
    d[Q1].insert(1, vec![QA]);
    d[QA].insert(0, vec![QD]);
    d[QA].insert(1, vec![QD]);
    d[QD].insert(0, vec![QD]);
    d[QD].insert(1, vec![QD]);
    let mut a = single_track(
        Fa {
            true_false: None,
            q0: Q0,
            q: 4,
            alphabet_size: 2,
            o: vec![0, 0, 1, 0],
            d,
        },
        Some(true),
    );

    assert!(accepts_word(&a.fa, &[0, 1]), "\"01\" accepted before the fix");
    assert!(!accepts_word(&a.fa, &[1]), "\"1\" rejected before the fix");
    assert!(!accepts_word(&a.fa, &[0, 0, 1]), "\"001\" rejected before");

    fix_leading_zeros_problem(&mut a);

    assert!(!accepts_word(&a.fa, &[]), "empty string still rejected");
    assert!(!accepts_word(&a.fa, &[0]), "\"0\" alone still rejected");
    assert!(accepts_word(&a.fa, &[1]), "\"1\" now accepted (0 leading zeros)");
    assert!(accepts_word(&a.fa, &[0, 1]), "\"01\" remains accepted");
    assert!(accepts_word(&a.fa, &[0, 0, 1]), "\"001\" now accepted");
    assert!(accepts_word(&a.fa, &[0, 0, 0, 1]), "\"0001\" now accepted");
    assert!(!accepts_word(&a.fa, &[1, 1]), "\"11\" still rejected");
}

#[test]
fn fix_leading_zeros_problem_is_a_noop_on_a_zero_state_automaton() {
    let mut a = single_track(
        Fa {
            true_false: None,
            q0: 0,
            q: 0,
            alphabet_size: 2,
            o: vec![],
            d: vec![],
        },
        Some(true),
    );
    fix_leading_zeros_problem(&mut a);
    assert_eq!(a.fa.q, 0);
}

/// The trivial automaton with the tracks of `exactly_one`, but no states.
fn trivial_with_tracks(t: bool) -> Automaton {
    let mut a = single_track(exactly_one(), Some(true));
    a.fa.true_false = Some(t);
    a.fa.q = 0;
    a.fa.o.clear();
    a.fa.d.clear();
    a.alphabet.clear();
    a.label.clear();
    a.msd.clear();
    a
}

#[test]
fn reverse_is_a_noop_on_a_trivial_automaton() {
    for t in [true, false] {
        let mut a = trivial_with_tracks(t);
        reverse(&mut a, true);
        assert!(a.fa.is_true_false_automaton());
        assert_eq!(a.fa.true_false, Some(t));
        assert!(a.msd.is_empty(), "nothing to flip");
    }
}

#[test]
fn fix_leading_zeros_problem_is_a_noop_on_a_trivial_automaton() {
    for t in [true, false] {
        let mut a = trivial_with_tracks(t);
        fix_leading_zeros_problem(&mut a);
        assert!(a.fa.is_true_false_automaton());
        assert_eq!(a.fa.true_false, Some(t));
    }
    let mut a = Automaton::true_false(true);
    fix_leading_zeros_problem(&mut a);
    assert_eq!(a.fa.true_false, Some(true));
}

#[test]
fn reversing_twice_gives_back_the_language() {
    let mut a = single_track(ends_with_one(), Some(true));
    reverse(&mut a, true);
    reverse(&mut a, true);
    assert_eq!(a.msd, vec![Some(true)]);
    for word in [&[][..], &[0], &[1], &[0, 1], &[1, 0], &[1, 1, 0, 1], &[0, 0, 1, 0]] {
        assert_eq!(accepts_word(&a.fa, word), word.last() == Some(&1), "word {word:?}");
    }
}

#[test]
fn reverse_of_a_nondeterministic_automaton_reads_backwards() {
    // q0 reads 0 or 1 and may guess that a 1 is the second-to-last symbol.
    let mut d0 = BTreeMap::new();
    d0.insert(0, vec![0]);
    d0.insert(1, vec![0, 1]);
    let mut d1 = BTreeMap::new();
    d1.insert(0, vec![2]);
    d1.insert(1, vec![2]);
    let fa = Fa {
        true_false: None,
        q0: 0,
        q: 3,
        alphabet_size: 2,
        o: vec![0, 0, 1],
        d: vec![d0, d1, BTreeMap::new()],
    };
    let mut a = single_track(fa, Some(false));
    reverse(&mut a, false);
    // The reversal accepts the words whose second symbol is 1.
    assert!(accepts_word(&a.fa, &[0, 1]));
    assert!(accepts_word(&a.fa, &[1, 1, 0, 0]));
    assert!(!accepts_word(&a.fa, &[1, 0, 1]));
    assert!(!accepts_word(&a.fa, &[1]));
}

#[test]
fn flip_ns_flips_the_recorded_number_system_name_not_just_the_direction() {
    for (before, after) in [
        ("msd_2", "lsd_2"),
        ("lsd_2", "msd_2"),
        ("msd_fib", "lsd_fib"),
        ("lsd_fib", "msd_fib"),
        ("msd_neg_3", "lsd_neg_3"),
        ("foo_7", "msd_7"),
        ("lsdx_7", "msd_7"),
    ] {
        let mut a = single_track(ends_with_one(), Some(before.starts_with("msd_")));
        a.set_ns_names(vec![Some(before.to_string())]);
        flip_ns(&mut a);
        assert_eq!(a.ns_name, vec![Some(after.to_string())], "flip of {before}");
        assert_eq!(a.msd, vec![Some(after.starts_with("msd_"))], "direction flag of {before}");
    }
}

#[test]
fn flipping_a_number_system_name_twice_round_trips() {
    for name in ["msd_2", "lsd_5", "msd_fib", "lsd_neg_3"] {
        let mut a = single_track(ends_with_one(), Some(name.starts_with("msd_")));
        a.set_ns_names(vec![Some(name.to_string())]);
        flip_ns(&mut a);
        flip_ns(&mut a);
        assert_eq!(a.ns_name, vec![Some(name.to_string())]);
        assert_eq!(a.msd, vec![Some(name.starts_with("msd_"))]);
    }
}

#[test]
fn flip_ns_without_a_recorded_name_flips_only_the_direction() {
    let mut a = single_track(ends_with_one(), Some(true));
    flip_ns(&mut a);
    assert_eq!(a.msd, vec![Some(false)]);
    assert!(a.ns_name.is_empty());
}

#[test]
fn reverse_with_reverse_msd_renames_a_custom_base() {
    let mut a = single_track(ends_with_one(), Some(true));
    a.set_ns_names(vec![Some("msd_fib".to_string())]);
    reverse(&mut a, true);
    assert_eq!(a.ns_name, vec![Some("lsd_fib".to_string())]);
    assert_eq!(a.msd, vec![Some(false)]);
    let mut b = single_track(ends_with_one(), Some(true));
    b.set_ns_names(vec![Some("msd_fib".to_string())]);
    reverse(&mut b, false);
    assert_eq!(b.ns_name, vec![Some("msd_fib".to_string())]);
    assert_eq!(b.msd, vec![Some(true)]);
}

/// Runs `fa` deterministically; the output of the state reached, 0 when stuck.
fn output_on_word(fa: &Fa, word: &[i32]) -> i32 {
    let mut p = fa.q0;
    for &sym in word {
        match fa.d[p].get(&sym) {
            Some(dests) if !dests.is_empty() => p = dests[0],
            _ => return 0,
        }
    }
    fa.o[p]
}

#[test]
fn converting_lsd_base_four_to_two_reads_digit_pairs() {
    // base 4, least significant first: words whose first symbol is 3, anything after
    let mut d0 = BTreeMap::new();
    let mut d1 = BTreeMap::new();
    let mut d2 = BTreeMap::new();
    for s in 0..4 {
        d0.insert(s, vec![if s == 3 { 1 } else { 2 }]);
        d1.insert(s, vec![1]);
        d2.insert(s, vec![2]);
    }
    let fa = Fa { true_false: None, q0: 0, q: 3, alphabet_size: 4, o: vec![0, 1, 0], d: vec![d0, d1, d2] };
    let mut a = Automaton::new(fa.clone(), vec![vec![0, 1, 2, 3]], vec!["x".to_string()], vec![Some(false)]);
    assert_eq!(convert_lsd_base_to_root(&mut a, 4, 2, 2), Ok(()));
    // the pair (1, 1), least significant first, is the base-4 digit 3
    assert_eq!(output_on_word(&a.fa, &[1, 1]), 1);
    assert_eq!(output_on_word(&a.fa, &[1, 1, 0, 1]), 1);
    assert_eq!(output_on_word(&a.fa, &[1, 0]), 0);
    assert_eq!(output_on_word(&a.fa, &[0, 1]), 0);
    // a lone digit counts as padded with a zero above it: 1, not 3
    assert_eq!(output_on_word(&a.fa, &[1]), 0);
    assert_eq!(output_on_word(&a.fa, &[]), 0);
    for w in [vec![1, 1], vec![1, 1, 0, 1], vec![1, 0], vec![0, 1], vec![1], vec![]] {
        // the grouped word over base 4
        let mut g = Vec::new();
        for c in w.chunks(2) {
            g.push(c[0] + 2 * c.get(1).copied().unwrap_or(0));
        }
        assert_eq!(output_on_word(&a.fa, &w), output_on_word(&fa, &g), "{w:?}");
    }
}

#[test]
fn converting_msd_base_two_to_four_reads_each_symbol_as_two_digits() {
    let fa = ends_with_one();
    let mut a = single_track(fa.clone(), Some(true));
    assert_eq!(convert_msd_base_to_exponent(&mut a, 2, 2), Ok(()));
    assert_eq!(a.fa.alphabet_size, 4);
    for w in [vec![], vec![0], vec![1], vec![2], vec![3], vec![3, 2], vec![2, 1]] {
        // each base-4 symbol is two binary digits, most significant first
        let mut digits = Vec::new();
        for &s in &w {
            digits.push(s / 2);
            digits.push(s % 2);
        }
        assert_eq!(output_on_word(&a.fa, &w), output_on_word(&fa, &digits), "{w:?}");
    }
    assert_eq!(output_on_word(&a.fa, &[3]), 1);
    assert_eq!(output_on_word(&a.fa, &[2]), 0);
}
