use std::collections::{BTreeMap, BTreeSet};
use wr_core::automaton::Automaton;
use wr_core::fa::Fa;
use wr_core::numsys::{
    base_n_addition_automaton, custom_base_candidate_names, determine_base, determine_msd,
    determine_msd_or_lsd, equality_automaton, init_basic_automaton, is_ns_differing,
    less_than_msd, lexicographic_less_than, normalize_number_system_token, parse_base_of,
    ArithmeticOp, CustomBaseCandidates, NumSysError, RelationalOp, TXT_EXTENSION, UNDERSCORE_ADDITION_AUTOMATON,
    UNDERSCORE_LESS_THAN_AUTOMATON,
};

/// Runs `fa` as a nondeterministic automaton on `word`.
fn accepts_word(fa: &Fa, word: &[i32]) -> bool {
    if fa.q == 0 {
        return false;
    }
    let mut current: BTreeSet<usize> = BTreeSet::from([fa.q0]);
    for &sym in word {
        let mut next = BTreeSet::new();
        for &p in &current {
            if let Some(dests) = fa.d[p].get(&sym) {
                next.extend(dests.iter().copied());
            }
        }
        current = next;
    }
    current.iter().any(|&p| fa.o[p] != 0)
}

/// Feeds a two-track word (one digit pair per position) into `a`.
fn accepts(a: &Automaton, digit_pairs: &[(i32, i32)]) -> bool {
    let word: Vec<i32> = digit_pairs
        .iter()
        .map(|&(x, y)| a.encode(&vec![x, y]))
        .collect();
    accepts_word(&a.fa, &word)
}

/// `v` written in base `base` with exactly `width` digits, most significant first.
fn msd_digits(mut v: u32, base: u32, width: usize) -> Option<Vec<i32>> {
    let mut out = vec![0i32; width];
    for slot in out.iter_mut().rev() {
        *slot = (v % base) as i32;
        v /= base;
    }
    if v == 0 {
        Some(out)
    } else {
        None
    }
}

#[test]
fn less_than_is_deterministic_and_two_states() {
    let a = less_than_msd(2);
    assert_eq!(a.fa.q, 2);
    assert!(a.fa.is_deterministic());
}

#[test]
fn equal_length_representations_hand_cases() {
    let a = less_than_msd(2);
    assert!(accepts(&a, &[(0, 0), (1, 1), (0, 1)]));
    assert!(!accepts(&a, &[(0, 0), (1, 1), (1, 0)]));
    assert!(!accepts(&a, &[(1, 1), (0, 0), (1, 1)]));
    assert!(accepts(&a, &[(1, 1), (0, 0), (0, 1)]));
}

#[test]
fn base_3_hand_case() {
    let a = less_than_msd(3);
    assert!(accepts(&a, &[(1, 2), (2, 0)]));
    assert!(!accepts(&a, &[(2, 1), (0, 2)]));
}

#[test]
fn a_greater_than_b_dead_ends_partial_automaton() {
    let a = less_than_msd(2);
    let sym_gt = a.encode(&vec![1, 0]);
    assert!(!a.fa.d[0].contains_key(&sym_gt));
}

#[test]
fn less_than_msd_decides_less_than_on_every_small_pair() {
    for base in 2..=4u32 {
        let a = less_than_msd(base as i32);
        for x in 0..base * base {
            for y in 0..base * base {
                let dx = msd_digits(x, base, 2).unwrap();
                let dy = msd_digits(y, base, 2).unwrap();
                let pairs: Vec<(i32, i32)> = dx.iter().zip(dy.iter()).map(|(&p, &q)| (p, q)).collect();
                assert_eq!(accepts(&a, &pairs), x < y, "base {base}: {x} < {y}");
            }
        }
    }
}

#[test]
fn less_than_msd_labels_and_alphabet() {
    let a = less_than_msd(3);
    assert_eq!(a.alphabet, vec![vec![0, 1, 2], vec![0, 1, 2]]);
    assert_eq!(a.fa.alphabet_size, 9);
    assert_eq!(a.fa.q0, 0);
    assert_eq!(a.fa.o, vec![0, 1]);
    assert_eq!(a.msd, vec![Some(true), Some(true)]);
}

#[test]
fn is_ns_differing_all_branches() {
    let msd2 = Some("msd_2");
    let msd3 = Some("msd_3");
    let alphabet = vec![vec![0, 1]];
    let same_alphabet = vec![vec![0, 1]];
    let other_alphabet = vec![vec![0, 1, 2]];

    assert!(is_ns_differing(&[msd2], &[], &alphabet, &same_alphabet));
    assert!(is_ns_differing(&[msd2], &[msd2], &alphabet, &other_alphabet));
    assert!(is_ns_differing(&[None], &[msd2], &alphabet, &same_alphabet));
    assert!(is_ns_differing(&[msd2], &[None], &alphabet, &same_alphabet));
    assert!(is_ns_differing(&[msd2], &[msd3], &alphabet, &same_alphabet));

    assert!(!is_ns_differing(&[msd2], &[Some("msd_2")], &alphabet, &same_alphabet));
    assert!(!is_ns_differing(&[None], &[None], &alphabet, &same_alphabet));
    assert!(!is_ns_differing(&[], &[], &alphabet, &same_alphabet));
}

#[test]
fn normalize_number_system_token_all_branches() {
    assert_eq!(normalize_number_system_token(None), "msd_2");
    assert_eq!(normalize_number_system_token(Some("")), "msd_2");
    assert_eq!(normalize_number_system_token(Some("   ")), "msd_2");

    assert_eq!(normalize_number_system_token(Some("?msd_3")), "msd_3");
    assert_eq!(normalize_number_system_token(Some("?lsd")), "lsd_2");
    assert_eq!(normalize_number_system_token(Some("  ?msd_fib  ")), "msd_fib");

    assert_eq!(normalize_number_system_token(Some("msd")), "msd_2");
    assert_eq!(normalize_number_system_token(Some("lsd")), "lsd_2");

    assert_eq!(normalize_number_system_token(Some("msd_7")), "msd_7");
    assert_eq!(normalize_number_system_token(Some("lsd_fib")), "lsd_fib");

    assert_eq!(normalize_number_system_token(Some("msd3")), "msd_3");
    assert_eq!(normalize_number_system_token(Some("msdfib")), "msd_fib");
    assert_eq!(normalize_number_system_token(Some("lsd3")), "lsd_3");
    assert_eq!(normalize_number_system_token(Some("lsdfib")), "lsd_fib");

    assert_eq!(normalize_number_system_token(Some("fib")), "msd_fib");
    assert_eq!(normalize_number_system_token(Some("10")), "msd_10");

    assert_eq!(normalize_number_system_token(Some("?")), "msd_");
}

#[test]
fn normalizing_a_normalized_name_changes_nothing() {
    for token in ["msd_2", "lsd_7", "msd_fib", "lsd_fib", "msd_10"] {
        let once = normalize_number_system_token(Some(token));
        assert_eq!(normalize_number_system_token(Some(&once)), once);
    }
}

#[test]
fn parse_base_rejects_base_of_one_and_non_numbers() {
    assert_eq!(
        parse_base_of("msd_1"),
        Err(NumSysError::InvalidBase("1".to_string()))
    );
    assert_eq!(
        parse_base_of("msd_fib"),
        Err(NumSysError::InvalidBase("fib".to_string()))
    );
    assert_eq!(parse_base_of("lsd_10").unwrap(), 10);
    assert_eq!(parse_base_of("msd_007").unwrap(), 7);
    assert_eq!(
        parse_base_of("msd_99999999999"),
        Err(NumSysError::BaseNotAnI32("99999999999".to_string()))
    );
}

#[test]
fn determine_base_and_direction_split_at_the_first_underscore() {
    assert_eq!(determine_base("msd_neg_2"), "neg_2");
    assert_eq!(determine_base("fib"), "fib");
    assert_eq!(determine_msd_or_lsd("lsd_fib"), Ok("lsd"));
    assert_eq!(
        determine_msd_or_lsd("fib"),
        Err(NumSysError::MalformedName("fib".to_string()))
    );
}

#[test]
fn determine_msd_reads_the_common_direction() {
    assert_eq!(determine_msd(&[]), Some(true));
    assert_eq!(determine_msd(&[Some(false), Some(false)]), Some(false));
    assert_eq!(determine_msd(&[Some(true), Some(false)]), None);
    assert_eq!(determine_msd(&[Some(true), None]), None);
}

#[test]
fn custom_base_candidate_names_are_the_two_paths_java_probes() {
    assert_eq!(
        custom_base_candidate_names("msd_fib", UNDERSCORE_ADDITION_AUTOMATON).unwrap(),
        (
            "msd_fib_addition.txt".to_string(),
            "lsd_fib_addition.txt".to_string()
        )
    );
    assert_eq!(
        custom_base_candidate_names("lsd_fib", UNDERSCORE_ADDITION_AUTOMATON).unwrap(),
        (
            "lsd_fib_addition.txt".to_string(),
            "msd_fib_addition.txt".to_string()
        )
    );
    assert_eq!(
        custom_base_candidate_names("lsd_fib", TXT_EXTENSION).unwrap(),
        ("lsd_fib.txt".to_string(), "msd_fib.txt".to_string())
    );
    assert_eq!(
        custom_base_candidate_names("msd_2", UNDERSCORE_LESS_THAN_AUTOMATON).unwrap(),
        (
            "msd_2_less_than.txt".to_string(),
            "lsd_2_less_than.txt".to_string()
        )
    );
    assert_eq!(
        custom_base_candidate_names("fib", TXT_EXTENSION),
        Err(NumSysError::MalformedName("fib".to_string()))
    );
}

#[test]
fn error_display_matches_walnuts_message_text() {
    assert_eq!(
        NumSysError::NotDefined("msd_fib".to_string()).message(),
        "Number system msd_fib is not defined."
    );
    assert_eq!(
        NumSysError::InvalidBase("1".to_string()).message(),
        "Base of automaton's number system must be > 1 and int, found: 1"
    );
    assert_eq!(
        NumSysError::NegativeConstant("-5".to_string()).message(),
        "negative constant -5"
    );
    assert_eq!(
        NumSysError::OperatorTwoVariables("*").message(),
        "the operator * cannot be applied to two variables"
    );
    assert_eq!(
        NumSysError::UnexpectedArithmeticOperator("_").message(),
        "unexpected arithmetic operator:_"
    );
    assert_eq!(
        NumSysError::ConstantDividedByVariable.message(),
        "constants cannot be divided by variables"
    );
    assert_eq!(NumSysError::DivisionByZero.message(), "division by zero");
    assert_eq!(NumSysError::MultiplicationByZero.message(), "multiplication(0)");
    assert_eq!(
        NumSysError::AdditionInputCount("msd_x".to_string()).message(),
        "The addition automaton must have exactly 3 inputs: base msd_x"
    );
    assert_eq!(
        NumSysError::AdditionAlphabetMissingZero("msd_x".to_string()).message(),
        "The input alphabet of addition automaton must contain 0: base msd_x"
    );
    assert_eq!(
        NumSysError::AdditionAlphabetMissingOne("msd_x".to_string()).message(),
        "The input alphabet of addition automaton must contain 1: base msd_x"
    );
    assert_eq!(
        NumSysError::AdditionAlphabetsDiffer("msd_x".to_string()).message(),
        "All 3 inputs of the addition automaton must have the same alphabet: base msd_x"
    );
    assert_eq!(
        NumSysError::LessThanInputCount("msd_x".to_string()).message(),
        "_less_than.txt must have exactly 2 inputs: base msd_x"
    );
    assert_eq!(
        NumSysError::LessThanAlphabetMismatch("msd_x".to_string()).message(),
        "Inputs of _less_than.txt must have the same alphabet as the alphabet of \
         inputs of _addition.txt : base msd_x"
    );
}

#[test]
fn relational_op_compare_every_variant() {
    let cases: &[(RelationalOp, i32, i32, bool)] = &[
        (RelationalOp::Equal, 3, 3, true),
        (RelationalOp::Equal, 3, 5, false),
        (RelationalOp::NotEqual, 3, 5, true),
        (RelationalOp::NotEqual, 3, 3, false),
        (RelationalOp::LessThan, 3, 5, true),
        (RelationalOp::LessThan, 5, 3, false),
        (RelationalOp::LessThan, 3, 3, false),
        (RelationalOp::GreaterThan, 5, 3, true),
        (RelationalOp::GreaterThan, 3, 5, false),
        (RelationalOp::GreaterThan, 3, 3, false),
        (RelationalOp::LessEqThan, 3, 5, true),
        (RelationalOp::LessEqThan, 3, 3, true),
        (RelationalOp::LessEqThan, 5, 3, false),
        (RelationalOp::GreaterEqThan, 5, 3, true),
        (RelationalOp::GreaterEqThan, 3, 3, true),
        (RelationalOp::GreaterEqThan, 3, 5, false),
    ];
    for &(op, a, b, expected) in cases {
        assert_eq!(op.compare(a, b), expected, "{op:?}({a}, {b})");
    }
}

#[test]
fn relational_op_compare_negative_operands() {
    assert!(RelationalOp::LessThan.compare(-5, -1));
    assert!(!RelationalOp::LessThan.compare(-1, -5));
    assert!(RelationalOp::Equal.compare(-3, -3));
}

#[test]
fn reverse_operator_swaps_the_operands() {
    let ops = [
        RelationalOp::Equal,
        RelationalOp::NotEqual,
        RelationalOp::LessThan,
        RelationalOp::GreaterThan,
        RelationalOp::LessEqThan,
        RelationalOp::GreaterEqThan,
    ];
    for op in ops {
        for a in -2..=2 {
            for b in -2..=2 {
                assert_eq!(op.reverse_operator().compare(a, b), op.compare(b, a));
            }
        }
        assert_eq!(op.reverse_operator().reverse_operator(), op);
    }
    assert_eq!(RelationalOp::LessThan.reverse_operator(), RelationalOp::GreaterThan);
}

#[test]
fn arithmetic_op_symbols() {
    assert_eq!(ArithmeticOp::Plus.symbol(), "+");
    assert_eq!(ArithmeticOp::Minus.symbol(), "-");
    assert_eq!(ArithmeticOp::Div.symbol(), "/");
    assert_eq!(ArithmeticOp::Mult.symbol(), "*");
    assert_eq!(ArithmeticOp::UnaryNegative.symbol(), "_");
}

#[test]
fn arithmetic_op_arith_plus_minus_mult() {
    assert_eq!(ArithmeticOp::Plus.arith(3, 4), Ok(7));
    assert_eq!(ArithmeticOp::Plus.arith(-3, 4), Ok(1));
    assert_eq!(ArithmeticOp::Minus.arith(3, 4), Ok(-1));
    assert_eq!(ArithmeticOp::Minus.arith(-3, -4), Ok(1));
    assert_eq!(ArithmeticOp::Mult.arith(3, 4), Ok(12));
    assert_eq!(ArithmeticOp::Mult.arith(-3, 4), Ok(-12));
    assert_eq!(ArithmeticOp::Mult.arith(0, 5), Ok(0));
}

#[test]
fn arithmetic_op_arith_div_truncating_case_matches_rust_native_division() {
    assert_eq!(ArithmeticOp::Div.arith(7, 2), Ok(3));
    assert_eq!(ArithmeticOp::Div.arith(-7, -2), Ok(3));
    assert_eq!(ArithmeticOp::Div.arith(6, 3), Ok(2));
}

#[test]
fn arithmetic_op_arith_div_floors_toward_negative_infinity() {
    assert_eq!(ArithmeticOp::Div.arith(7, -2), Ok(-4));
    assert_eq!(ArithmeticOp::Div.arith(-7, 2), Ok(-4));
    assert_eq!(7i32 / -2, -3);
    assert_eq!(-7i32 / 2, -3);
}

#[test]
fn arithmetic_op_arith_div_exact_negative_quotient_no_floor_adjustment() {
    assert_eq!(ArithmeticOp::Div.arith(-8, 2), Ok(-4));
    assert_eq!(ArithmeticOp::Div.arith(8, -2), Ok(-4));
}

#[test]
fn arithmetic_op_arith_div_by_zero_is_division_by_zero_error() {
    assert_eq!(ArithmeticOp::Div.arith(5, 0), Err(NumSysError::DivisionByZero));
    assert_eq!(ArithmeticOp::Div.arith(0, 0), Err(NumSysError::DivisionByZero));
}

#[test]
fn arithmetic_op_arith_unary_negative_is_unexpected_operator() {
    assert_eq!(
        ArithmeticOp::UnaryNegative.arith(1, 2),
        Err(NumSysError::UnexpectedOperator("_"))
    );
    assert_eq!(
        NumSysError::UnexpectedOperator("_").message(),
        "Unexpected operator:_"
    );
}

#[test]
fn arithmetic_op_arith_i32_overflow_is_a_clean_error_not_a_panic() {
    let err = ArithmeticOp::Mult.arith(i32::MAX, 2).unwrap_err();
    assert!(matches!(err, NumSysError::ArithmeticIntOverflow(_)));

    let err = ArithmeticOp::Div.arith(i32::MIN, -1).unwrap_err();
    assert!(matches!(err, NumSysError::ArithmeticIntOverflow(_)));
}

#[test]
fn arithmetic_op_arith_no_overflow_at_i32_boundary_values() {
    assert_eq!(ArithmeticOp::Plus.arith(i32::MAX, 0), Ok(i32::MAX));
    assert_eq!(ArithmeticOp::Plus.arith(i32::MIN, 0), Ok(i32::MIN));
    assert_eq!(ArithmeticOp::Minus.arith(0, i32::MAX), Ok(-i32::MAX));
}

#[test]
fn arithmetic_op_arith_more_boundary_values() {
    assert_eq!(ArithmeticOp::Mult.arith(i32::MIN, 1), Ok(i32::MIN));
    assert_eq!(ArithmeticOp::Div.arith(i32::MIN, 1), Ok(i32::MIN));
    assert_eq!(ArithmeticOp::Div.arith(i32::MAX, -1), Ok(-i32::MAX));
}

#[test]
fn arithmetic_overflow_message_spells_out_the_exact_result() {
    assert_eq!(
        ArithmeticOp::Mult.arith(i32::MAX, 2).unwrap_err().message(),
        "arithmetic result does not fit in a 32-bit output (2147483647 * 2 = 4294967294)"
    );
    assert_eq!(
        ArithmeticOp::Div.arith(i32::MIN, -1).unwrap_err().message(),
        "arithmetic result does not fit in a 32-bit output (-2147483648 / -1 = 2147483648)"
    );
    assert_eq!(
        ArithmeticOp::Plus.arith(i32::MIN, -1).unwrap_err().message(),
        "arithmetic result does not fit in a 32-bit output (-2147483648 + -1 = -2147483649)"
    );
}

#[test]
fn arithmetic_division_floors_over_a_small_table() {
    for a in -9..=9i32 {
        for b in [-4, -3, -1, 1, 2, 5] {
            let expected = (a as f64 / b as f64).floor() as i32;
            assert_eq!(ArithmeticOp::Div.arith(a, b), Ok(expected), "{a} / {b}");
        }
    }
}

/// Feeds a word given as per-track digit strings, one string per track in track order.
fn accepts_digits(a: &Automaton, tracks: &[&str]) -> bool {
    let length = tracks[0].len();
    let word: Vec<i32> = (0..length)
        .map(|pos| {
            let tuple: Vec<i32> = tracks
                .iter()
                .map(|t| (t.as_bytes()[pos] - b'0') as i32)
                .collect();
            a.encode(&tuple)
        })
        .collect();
    accepts_word(&a.fa, &word)
}

#[test]
fn lexicographic_less_than_sorts_a_scrambled_alphabet_first() {
    let scrambled = [7, -2, 0];
    let a = lexicographic_less_than(&scrambled, true);
    assert_eq!(a.alphabet[0], vec![-2, 0, 7]);
    assert!(accepts(&a, &[(-2, 0), (7, -2)]));
    assert!(accepts(&a, &[(0, 7), (7, -2)]));
    assert!(!accepts(&a, &[(7, 0), (-2, 7)]));
    assert!(!accepts(&a, &[(0, 0), (7, 7)]));
    assert!(accepts(&a, &[(0, 0), (-2, 7)]));
}

#[test]
fn equality_automaton_is_the_diagonal_regardless_of_alphabet_order() {
    let scrambled = [7, -2, 0];
    let a = equality_automaton(&scrambled, true);
    assert_eq!(a.alphabet[0], vec![7, -2, 0], "the alphabet is NOT sorted");
    assert!(accepts(&a, &[(7, 7), (-2, -2), (0, 0)]));
    assert!(!accepts(&a, &[(7, 7), (-2, 0)]));
    assert!(!accepts(&a, &[(0, 7)]));
}

#[test]
fn base_two_adder_accepts_exactly_the_sums() {
    let plus = base_n_addition_automaton(2, true);
    assert_eq!(plus.alphabet.len(), 3);
    assert_eq!(plus.fa.alphabet_size, 8);
    assert!(accepts_digits(&plus, &["0011", "0101", "1000"]));
    assert!(!accepts_digits(&plus, &["0011", "0101", "0111"]));
    assert!(accepts_digits(&plus, &["01", "01", "10"]));
    assert!(!accepts_digits(&plus, &["01", "01", "11"]));
    assert!(accepts_digits(&plus, &["000", "000", "000"]));
}

#[test]
fn base_three_adder_accepts_exactly_the_sums() {
    let plus = base_n_addition_automaton(3, false);
    assert_eq!(plus.msd, vec![Some(false); 3]);
    assert!(accepts_digits(&plus, &["02", "02", "11"]));
    assert!(!accepts_digits(&plus, &["02", "02", "12"]));
    assert!(accepts_digits(&plus, &["11", "11", "22"]));
    assert!(!accepts_digits(&plus, &["11", "11", "21"]));
}

#[test]
fn base_n_adder_agrees_with_integer_addition_on_all_small_words() {
    for n in 2..=3u32 {
        let plus = base_n_addition_automaton(n as i32, true);
        for x in 0..n * n {
            for y in 0..n * n {
                for z in 0..n * n {
                    let dx = msd_digits(x, n, 2).unwrap();
                    let dy = msd_digits(y, n, 2).unwrap();
                    let dz = msd_digits(z, n, 2).unwrap();
                    let word: Vec<i32> = (0..2)
                        .map(|p| plus.encode(&vec![dx[p], dy[p], dz[p]]))
                        .collect();
                    assert_eq!(accepts_word(&plus.fa, &word), x + y == z, "base {n}: {x} + {y} = {z}");
                }
            }
        }
    }
}

#[test]
fn init_basic_automaton_has_no_transitions_and_shared_tracks() {
    let a = init_basic_automaton(vec![1, 0, 0], 2, &[0, 1, 2], false);
    assert_eq!(a.fa.q, 3);
    assert_eq!(a.fa.q0, 0);
    assert_eq!(a.fa.o, vec![1, 0, 0]);
    assert_eq!(a.fa.alphabet_size, 9);
    assert!(a.fa.d.iter().all(|row| row.is_empty()));
    assert_eq!(a.alphabet, vec![vec![0, 1, 2], vec![0, 1, 2]]);
    assert!(a.label.is_empty());
    assert_eq!(a.msd, vec![Some(false), Some(false)]);
}

/// Whether two deterministic automata over the same alphabet accept the same words; a
/// missing transition leads to a dead, rejecting state.
fn same_language(a: &Fa, b: &Fa) -> bool {
    assert_eq!(a.alphabet_size, b.alphabet_size, "different alphabets");
    let step = |fa: &Fa, s: Option<usize>, sym: i32| -> Option<usize> {
        let s = s?;
        fa.d[s].get(&sym).and_then(|dests| dests.first().copied())
    };
    let accepting = |fa: &Fa, s: Option<usize>| s.is_some_and(|s| fa.o[s] != 0);
    let start = (Some(a.q0), Some(b.q0));
    let mut seen: BTreeSet<(Option<usize>, Option<usize>)> = [start].into_iter().collect();
    let mut stack = vec![start];
    while let Some((x, y)) = stack.pop() {
        if accepting(a, x) != accepting(b, y) {
            return false;
        }
        for sym in 0..a.alphabet_size as i32 {
            let next = (step(a, x, sym), step(b, y, sym));
            if seen.insert(next) {
                stack.push(next);
            }
        }
    }
    true
}

#[test]
fn spike_less_than_msd_agrees_with_the_ported_lexicographic_less_than() {
    for base in 2..=5 {
        let spike = less_than_msd(base).fa;
        let ported = lexicographic_less_than(&(0..base).collect::<Vec<_>>(), true).fa;
        assert!(same_language(&spike, &ported), "base {base}");
    }
}

fn one_track_fixture(rows: &[(i32, &[(i32, usize)])]) -> Automaton {
    let q = rows.len();
    let mut fa = Fa {
        true_false: None,
        q0: 0,
        q,
        alphabet_size: 2,
        o: rows.iter().map(|(o, _)| *o).collect(),
        d: vec![BTreeMap::new(); q],
    };
    for (state, (_, edges)) in rows.iter().enumerate() {
        for (digit, dest) in *edges {
            fa.d[state].insert(*digit, vec![*dest]);
        }
    }
    Automaton::new(fa, vec![vec![0, 1]], Vec::new(), vec![None])
}

fn msd_fib_all_representations() -> Automaton {
    one_track_fixture(&[(1, &[(0, 0), (1, 1)]), (1, &[(0, 0)])])
}

fn accepts_single_track_word(a: &Automaton, digits: &[i32]) -> bool {
    assert_eq!(a.alphabet.len(), 1, "single-track helper");
    let word: Vec<i32> = digits.iter().map(|&d| a.encode(&vec![d])).collect();
    accepts_word(&a.fa, &word)
}

#[test]
fn resolve_prefers_the_main_file_and_leaves_it_alone() {
    let ends_in_one = one_track_fixture(&[(0, &[(0, 0), (1, 1)]), (1, &[])]);
    let resolved = CustomBaseCandidates {
        main: Some(ends_in_one),
        complement: Some(msd_fib_all_representations()),
    }
    .resolve()
    .expect("main file present");
    assert!(accepts_single_track_word(&resolved, &[0, 0, 1]));
    assert!(!accepts_single_track_word(&resolved, &[1, 0]));
}

#[test]
fn resolve_falls_back_to_the_complement_and_reverses_its_language() {
    let ends_in_one = one_track_fixture(&[(0, &[(0, 0), (1, 1)]), (1, &[])]);
    let resolved = CustomBaseCandidates {
        main: None,
        complement: Some(ends_in_one),
    }
    .resolve()
    .expect("complement file present");
    assert!(accepts_single_track_word(&resolved, &[1, 0, 0]));
    assert!(!accepts_single_track_word(&resolved, &[0, 0, 1]));
}

#[test]
fn resolve_returns_none_when_neither_file_exists() {
    assert!(CustomBaseCandidates::default().resolve().is_none());
}
