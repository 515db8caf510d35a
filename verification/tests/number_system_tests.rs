use std::collections::BTreeMap;
use wr_core::addition::{set_addition_automaton, set_less_than_automaton, validate_addition};
use wr_core::automaton::Automaton;
use wr_core::fa::Fa;
use wr_core::leading_zeros::{decode_digit, remove_leading_zeros_helper};
use wr_core::logicalops::RemoveLeadingZerosError;
use wr_core::number_system::NumberSystem;
use wr_core::numsys::{normalize_number_system_token, CustomBaseCandidates, CustomBaseFiles, NumSysError, RelationalOp};

fn accepts_word(fa: &Fa, word: &[i32]) -> bool {
    if fa.true_false.is_some() {
        return fa.true_false == Some(true);
    }
    let mut p = fa.q0;
    for &sym in word {
        match fa.d[p].get(&sym) {
            Some(dests) if !dests.is_empty() => p = dests[0],
            _ => return false,
        }
    }
    fa.o[p] != 0
}

fn one_state(alphabet: Vec<Vec<i32>>) -> Automaton {
    let size: usize = alphabet.iter().map(|t| t.len()).product();
    let n = alphabet.len();
    Automaton::new(
        Fa::with_states(0, 1, size, vec![1], vec![BTreeMap::new()]),
        alphabet,
        vec![String::new(); n],
        vec![Some(true); n],
    )
}

fn no_files() -> CustomBaseFiles {
    CustomBaseFiles {
        addition: CustomBaseCandidates { main: None, complement: None },
        less_than: CustomBaseCandidates { main: None, complement: None },
        all_representations: CustomBaseCandidates { main: None, complement: None },
    }
}

#[test]
fn leading_zeros_helper_checks_the_first_digit_of_an_msd_track() {
    let a = Automaton::new(Fa::with_states(0, 1, 2, vec![1], vec![BTreeMap::new()]), vec![vec![0, 1]], vec!["x".to_string()], vec![Some(true)]);
    let m = remove_leading_zeros_helper(&a, 0).unwrap();
    for w in [vec![], vec![1], vec![1, 0], vec![1, 1, 0]] {
        assert!(accepts_word(&m.fa, &w), "{w:?}");
    }
    for w in [vec![0], vec![0, 1], vec![0, 0]] {
        assert!(!accepts_word(&m.fa, &w), "{w:?}");
    }
    assert_eq!(m.msd, vec![Some(true)]);
}

#[test]
fn leading_zeros_helper_checks_the_last_digit_of_an_lsd_track() {
    let a = Automaton::new(Fa::with_states(0, 1, 2, vec![1], vec![BTreeMap::new()]), vec![vec![0, 1]], vec!["x".to_string()], vec![Some(false)]);
    let m = remove_leading_zeros_helper(&a, 0).unwrap();
    for w in [vec![], vec![1], vec![0, 1], vec![1, 0, 1]] {
        assert!(accepts_word(&m.fa, &w), "{w:?}");
    }
    for w in [vec![0], vec![1, 0], vec![0, 1, 0]] {
        assert!(!accepts_word(&m.fa, &w), "{w:?}");
    }
    assert_eq!(m.msd, vec![Some(false)]);
}

#[test]
fn leading_zeros_helper_reads_the_requested_track() {
    // symbol s encodes (s % 2, (s / 2) % 3)
    let a = Automaton::new(
        Fa::with_states(0, 1, 6, vec![1], vec![BTreeMap::new()]),
        vec![vec![0, 1], vec![0, 1, 2]],
        vec!["x".to_string(), "y".to_string()],
        vec![Some(true), Some(true)],
    );
    let m = remove_leading_zeros_helper(&a, 1).unwrap();
    assert!(accepts_word(&m.fa, &[2]));
    assert!(accepts_word(&m.fa, &[5, 0]));
    assert!(!accepts_word(&m.fa, &[1]));
    assert!(!accepts_word(&m.fa, &[0, 5]));
    assert_eq!(decode_digit(&a.alphabet, 5, 1), 2);
    assert_eq!(decode_digit(&a.alphabet, 5, 0), 1);
}

#[test]
fn leading_zeros_helper_accepts_everything_without_a_number_system() {
    let a = Automaton::new(Fa::with_states(0, 1, 2, vec![1], vec![BTreeMap::new()]), vec![vec![0, 1]], vec!["x".to_string()], vec![None]);
    let m = remove_leading_zeros_helper(&a, 0).unwrap();
    assert_eq!(m.fa.true_false, Some(true));
}

#[test]
fn leading_zeros_helper_reports_an_index_past_the_inputs() {
    let a = Automaton::new(Fa::with_states(0, 1, 2, vec![1], vec![BTreeMap::new()]), vec![vec![0, 1]], vec!["x".to_string()], vec![Some(true)]);
    let e = remove_leading_zeros_helper(&a, 1).unwrap_err();
    assert_eq!(e, RemoveLeadingZerosError::InputIndexOutOfRange { n: 1, inputs: 1 });
    assert_eq!(e.message(), "Cannot remove leading zeros for the 2-th input when A only has 1 inputs.");
}

#[test]
fn addition_automaton_for_a_plain_base() {
    let a = set_addition_automaton("msd_2", "2", true, None).unwrap();
    assert_eq!(a.fa.alphabet_size, 8);
    assert_eq!(a.msd, vec![Some(true); 3]);
    // 1 + 1 = 10 in binary: triples (0,0,1) then (1,1,0); symbol = x + 2y + 4z
    assert!(accepts_word(&a.fa, &[4, 3]));
    assert!(!accepts_word(&a.fa, &[3]));
    let l = set_addition_automaton("lsd_2", "2", false, None).unwrap();
    assert_eq!(l.msd, vec![Some(false); 3]);
    assert!(accepts_word(&l.fa, &[3, 4]));
    assert!(!accepts_word(&l.fa, &[4, 3]));
}

#[test]
fn addition_automaton_refuses_a_base_that_is_not_one() {
    assert_eq!(set_addition_automaton("msd_fib", "fib", true, None).unwrap_err(), NumSysError::NotDefined("msd_fib".to_string()));
    assert_eq!(set_addition_automaton("msd_1", "1", true, None).unwrap_err(), NumSysError::NotDefined("msd_1".to_string()));
    assert_eq!(
        set_addition_automaton("msd_99999999999", "99999999999", true, None).unwrap_err(),
        NumSysError::BaseNotAnI32("99999999999".to_string())
    );
}

#[test]
fn a_loaded_addition_automaton_is_checked_in_order() {
    let e = set_addition_automaton("c", "x", true, Some(one_state(vec![vec![0, 1], vec![0, 1]]))).unwrap_err();
    assert_eq!(e, NumSysError::AdditionInputCount("c".to_string()));
    let e = validate_addition("c", one_state(vec![vec![1, 2], vec![1, 2], vec![1, 2]]), true).unwrap_err();
    assert_eq!(e, NumSysError::AdditionAlphabetMissingZero("c".to_string()));
    let e = validate_addition("c", one_state(vec![vec![0, 2], vec![0, 2], vec![0, 2]]), true).unwrap_err();
    assert_eq!(e, NumSysError::AdditionAlphabetMissingOne("c".to_string()));
    let e = validate_addition("c", one_state(vec![vec![0, 1], vec![1, 0], vec![0, 1, 2]]), true).unwrap_err();
    assert_eq!(e, NumSysError::AdditionAlphabetsDiffer("c".to_string()));
    let ok = validate_addition("c", one_state(vec![vec![0, 1], vec![1, 0, 1], vec![0, 1]]), false).unwrap();
    assert_eq!(ok.msd, vec![Some(false); 3]);
}

#[test]
fn a_loaded_less_than_automaton_is_checked() {
    let digits = vec![0, 1];
    let e = set_less_than_automaton("c", &digits, true, Some(one_state(vec![vec![0, 1]]))).unwrap_err();
    assert_eq!(e, NumSysError::LessThanInputCount("c".to_string()));
    let e = set_less_than_automaton("c", &digits, true, Some(one_state(vec![vec![0, 1], vec![0, 2]]))).unwrap_err();
    assert_eq!(e, NumSysError::LessThanAlphabetMismatch("c".to_string()));
    let built = set_less_than_automaton("c", &digits, true, None).unwrap();
    // 0 < 1 read most significant first: pair symbol x + 2y
    assert!(accepts_word(&built.fa, &[2]));
    assert!(!accepts_word(&built.fa, &[1]));
}

#[test]
fn number_system_msd_2_is_built_from_nothing() {
    let ns = NumberSystem::with_custom_base_files("msd_2", no_files()).unwrap();
    assert!(ns.is_msd());
    assert_eq!(ns.name(), "msd_2");
    assert!(!ns.use_all_representations());
    assert_eq!(ns.equality.fa.alphabet_size, 4);
    assert_eq!(ns.addition.fa.alphabet_size, 8);
    let lsd = NumberSystem::with_custom_base_files("lsd_3", no_files()).unwrap();
    assert!(!lsd.is_msd());
    assert_eq!(lsd.equality.fa.alphabet_size, 9);
}

#[test]
fn number_system_errors_come_in_order() {
    assert_eq!(
        NumberSystem::with_custom_base_files("msd2", no_files()).err(),
        Some(NumSysError::MalformedName("msd2".to_string()))
    );
    assert_eq!(
        NumberSystem::with_custom_base_files("msd_neg_2", no_files()).err(),
        Some(NumSysError::UnsupportedNegativeBase("msd_neg_2".to_string()))
    );
    assert_eq!(
        NumberSystem::with_custom_base_files("msd_fib", no_files()).err(),
        Some(NumSysError::NotDefined("msd_fib".to_string()))
    );
}

#[test]
fn normalizing_a_token_twice_changes_nothing() {
    for t in [" ?msd ", "lsd3", "?", "x", "msd_fib", " lsd_2\t", "msd"] {
        let once = normalize_number_system_token(Some(t));
        assert!(once.starts_with("msd_") || once.starts_with("lsd_"));
        assert_eq!(normalize_number_system_token(Some(&once)), once, "{t:?}");
    }
}

#[test]
fn number_system_new_flip_and_getters() {
    let ns = NumberSystem::new("msd_3").unwrap();
    assert_eq!(ns.get_alphabet(), &[0, 1, 2]);
    assert_eq!(ns.determine_base_name_underscore(), "msd_");
    assert_eq!(ns.parse_base(), Ok(3));
    assert_eq!(ns.addition().fa.alphabet_size, 27);
    assert_eq!(ns.less_than().fa.alphabet_size, 9);
    let f = ns.flip().unwrap();
    assert_eq!(f.name(), "lsd_3");
    assert!(!f.is_msd());
    assert_eq!(f.determine_base_name_underscore(), "lsd_");
    let back = f.flip().unwrap();
    assert_eq!(back.name(), "msd_3");
    assert!(NumberSystem::new("msd_fib").is_err());
    assert_eq!(NumberSystem::new("msd3").err(), Some(NumSysError::MalformedName("msd3".to_string())));
}

#[test]
fn comparisons_label_and_complement_the_base_automata() {
    let ns = NumberSystem::new("msd_2").unwrap();
    // pair symbol x + 2y over {0,1}
    let lt = ns.comparison("a", "b", RelationalOp::LessThan);
    assert_eq!(lt.label, vec!["a".to_string(), "b".to_string()]);
    assert!(accepts_word(&lt.fa, &[2]), "0 < 1");
    assert!(!accepts_word(&lt.fa, &[1]), "not 1 < 0");
    let gt = ns.comparison("a", "b", RelationalOp::GreaterThan);
    assert_eq!(gt.label, vec!["b".to_string(), "a".to_string()]);
    let ge = ns.comparison("a", "b", RelationalOp::GreaterEqThan);
    assert!(accepts_word(&ge.fa, &[1]), "1 >= 0");
    assert!(accepts_word(&ge.fa, &[3]), "1 >= 1");
    assert!(!accepts_word(&ge.fa, &[2]), "not 0 >= 1");
    let ne = ns.comparison("x", "y", RelationalOp::NotEqual);
    assert!(accepts_word(&ne.fa, &[1]));
    assert!(!accepts_word(&ne.fa, &[3, 0]));
    let eq = ns.comparison("x", "y", RelationalOp::Equal);
    assert!(accepts_word(&eq.fa, &[3, 0]));
    assert!(!accepts_word(&eq.fa, &[2]));
}
