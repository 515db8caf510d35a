use std::collections::BTreeMap;
use wr_core::automaton::Automaton;
use wr_core::fa::Fa;
use wr_core::leading_zeros::remove_leading_zeros;
use wr_core::logicalops::RemoveLeadingZerosError;

fn single_track(fa: Fa, msd: Option<bool>) -> Automaton {
    Automaton::new(fa, vec![vec![0, 1]], vec!["x".to_string()], vec![msd])
}

fn universal() -> Fa {
    let mut d0 = BTreeMap::new();
    d0.insert(0, vec![0]);
    d0.insert(1, vec![0]);
    Fa::with_states(0, 1, 2, vec![1], vec![d0])
}

fn ends_with_one() -> Fa {
    let mut d0 = BTreeMap::new();
    d0.insert(0, vec![0]);
    d0.insert(1, vec![1]);
    let mut d1 = BTreeMap::new();
    d1.insert(0, vec![0]);
    d1.insert(1, vec![1]);
    Fa::with_states(0, 2, 2, vec![0, 1], vec![d0, d1])
}

fn exactly_one() -> Fa {
    let mut d0 = BTreeMap::new();
    d0.insert(1, vec![1]);
    Fa::with_states(0, 2, 2, vec![0, 1], vec![d0, BTreeMap::new()])
}

fn universal_two_track(msd: Vec<Option<bool>>) -> Automaton {
    let mut d0 = BTreeMap::new();
    for sym in 0..4 {
        d0.insert(sym, vec![0]);
    }
    Automaton::new(
        Fa::with_states(0, 1, 4, vec![1], vec![d0]),
        vec![vec![0, 1], vec![0, 1]],
        vec!["x".to_string(), "y".to_string()],
        msd,
    )
}

fn labels(names: &[&str]) -> Vec<String> {
    names.iter().map(|s| s.to_string()).collect()
}

fn accepts_word(fa: &Fa, word: &[i32]) -> bool {
    if fa.true_false.is_some() {
        return fa.true_false == Some(true);
    }
    let mut p = fa.q0;
    for &sym in word {
        match fa.d[p].get(&sym) {
            Some(dests) if !dests.is_empty() => p = dests[0],
            _ => return false,
        }
    }
    fa.o[p] != 0
}

const WORDS: &[&[i32]] = &[&[], &[0], &[1], &[0, 0], &[0, 1], &[1, 0], &[1, 1], &[0, 1, 1], &[1, 0, 1], &[0, 0, 1]];

#[test]
fn remove_leading_zeros_msd_requires_a_nonzero_first_digit() {
    let a = single_track(universal(), Some(true));
    let m = remove_leading_zeros(&a, &labels(&["x"])).unwrap();
    for word in [&[1][..], &[1, 0], &[1, 1], &[1, 0, 0]] {
        assert!(accepts_word(&m.fa, word), "must accept {word:?}");
    }
    for word in [&[0][..], &[0, 1], &[0, 0], &[0, 1, 1]] {
        assert!(!accepts_word(&m.fa, word), "must reject {word:?}");
    }
    assert!(accepts_word(&m.fa, &[]));
}

#[test]
fn remove_leading_zeros_lsd_requires_a_nonzero_last_digit() {
    let a = single_track(universal(), Some(false));
    let m = remove_leading_zeros(&a, &labels(&["x"])).unwrap();
    for word in [&[1][..], &[0, 1], &[1, 1], &[0, 0, 1]] {
        assert!(accepts_word(&m.fa, word), "must accept {word:?}");
    }
    for word in [&[0][..], &[1, 0], &[0, 0], &[1, 1, 0]] {
        assert!(!accepts_word(&m.fa, word), "must reject {word:?}");
    }
    assert_eq!(m.msd, vec![Some(false)], "reverse(_, false) must not flip NS");
}

#[test]
fn remove_leading_zeros_ignores_a_track_with_no_number_system() {
    let a = single_track(universal(), None);
    let m = remove_leading_zeros(&a, &labels(&["x"])).unwrap();
    for word in [&[][..], &[0], &[1], &[0, 0], &[0, 1]] {
        assert!(accepts_word(&m.fa, word), "must still accept {word:?}");
    }
}

#[test]
fn remove_leading_zeros_ors_the_per_track_constraints() {
    let a = universal_two_track(vec![Some(true), Some(true)]);
    let m = remove_leading_zeros(&a, &labels(&["x", "y"])).unwrap();
    let sym = |x: i32, y: i32| a.encode(&vec![x, y]);
    assert!(accepts_word(&m.fa, &[sym(1, 0), sym(0, 0)]), "x leads with 1");
    assert!(accepts_word(&m.fa, &[sym(0, 1), sym(0, 0)]), "y leads with 1");
    assert!(accepts_word(&m.fa, &[sym(1, 1), sym(0, 0)]), "both do");
    assert!(!accepts_word(&m.fa, &[sym(0, 0), sym(1, 1)]), "neither track leads with a nonzero digit");
    let m = remove_leading_zeros(&a, &labels(&["x"])).unwrap();
    assert!(accepts_word(&m.fa, &[sym(1, 0), sym(0, 0)]));
    assert!(!accepts_word(&m.fa, &[sym(0, 1), sym(0, 0)]));
}

#[test]
fn remove_leading_zeros_with_no_labels_is_a_clone() {
    let a = single_track(exactly_one(), Some(true));
    let m = remove_leading_zeros(&a, &[]).unwrap();
    for word in WORDS {
        assert_eq!(accepts_word(&m.fa, word), accepts_word(&a.fa, word), "{word:?}");
    }
    assert_eq!(m.fa.q, a.fa.q, "an untouched clone, not a rebuilt automaton");
}

#[test]
fn remove_leading_zeros_rejects_a_name_that_is_not_a_track() {
    let a = single_track(universal(), Some(true));
    let err = remove_leading_zeros(&a, &labels(&["nope"])).unwrap_err();
    assert_eq!(err, RemoveLeadingZerosError::NotFreeVariable("nope".to_string()));
    assert_eq!(err.message(), "Variable nope in the list of quantified variables is not a free variable.");
}

#[test]
fn remove_leading_zeros_reports_an_out_of_range_input_index() {
    let mut a = single_track(universal(), Some(true));
    a.label.push("y".to_string());
    a.msd.push(Some(true));
    let err = remove_leading_zeros(&a, &labels(&["y"])).unwrap_err();
    assert_eq!(err, RemoveLeadingZerosError::InputIndexOutOfRange { n: 1, inputs: 1 });
    assert_eq!(err.message(), "Cannot remove leading zeros for the 2-th input when A only has 1 inputs.");
}

#[test]
fn remove_leading_zeros_tolerates_a_repeated_label() {
    let a = single_track(universal(), Some(true));
    let once = remove_leading_zeros(&a, &labels(&["x"])).unwrap();
    let twice = remove_leading_zeros(&a, &labels(&["x", "x"])).unwrap();
    for word in WORDS {
        assert_eq!(accepts_word(&twice.fa, word), accepts_word(&once.fa, word), "{word:?}");
    }
}

#[test]
fn remove_leading_zeros_intersects_with_the_original_and_does_not_mutate_it() {
    let a = single_track(ends_with_one(), Some(true));
    let before = format!("{:?}", a.fa);
    let m = remove_leading_zeros(&a, &labels(&["x"])).unwrap();
    assert_eq!(format!("{:?}", a.fa), before, "the operand must survive unchanged");
    for word in WORDS {
        let expected = accepts_word(&a.fa, word) && word.first().is_none_or(|&d| d != 0);
        assert_eq!(accepts_word(&m.fa, word), expected, "{word:?}");
    }
}
