use std::collections::BTreeMap;
use wr_core::automaton::Automaton;
use wr_core::fa::Fa;
use wr_core::logicalops::is_subset_alphabet;
use wr_core::quotient::{left_quotient, right_quotient};

fn single_track(fa: Fa, msd: Option<bool>) -> Automaton {
    Automaton::new(fa, vec![vec![0, 1]], vec!["x".to_string()], vec![msd])
}

fn accepts_word(fa: &Fa, word: &[i32]) -> bool {
    let mut p = fa.q0;
    for &sym in word {
        match fa.d[p].get(&sym) {
            Some(dests) if !dests.is_empty() => p = dests[0],
            _ => return false,
        }
    }
    fa.o[p] != 0
}

/// `L = {"01"}` over `{0,1}`, single track labeled `"x"`.
fn word_01() -> Automaton {
    let mut d = vec![BTreeMap::new(), BTreeMap::new(), BTreeMap::new()];
    d[0].insert(0, vec![1]);
    d[1].insert(1, vec![2]);
    single_track(Fa::with_states(0, 3, 2, vec![0, 0, 1], d), Some(true))
}

#[test]
fn right_quotient_matches_the_hand_derived_quotient() {
    let a = word_01();
    let b = Automaton::new(
        Fa::with_states(0, 2, 2, vec![0, 1], vec![BTreeMap::from([(0, vec![1])]), BTreeMap::new()]),
        vec![vec![1, 0]],
        vec!["x".to_string()],
        vec![Some(true)],
    );
    assert_eq!(b.encode(&vec![1]), 0, "sanity: L(B) = {{\"1\"}}");
    let m = right_quotient(&a, &b, false);
    assert!(accepts_word(&m.fa, &[0]), "\"0\" is in L(A)/L(B)");
    assert!(!accepts_word(&m.fa, &[]));
    assert!(!accepts_word(&m.fa, &[1]));
    assert!(!accepts_word(&m.fa, &[0, 1]));
    assert!(!accepts_word(&m.fa, &[0, 0]));
}

#[test]
fn right_quotient_skip_subset_check_bypasses_the_guard() {
    let a = word_01();
    let b = Automaton::new(
        Fa::with_states(0, 2, 3, vec![0, 1], vec![BTreeMap::from([(1, vec![1])]), BTreeMap::new()]),
        vec![vec![0, 1, 2]],
        vec!["x".to_string()],
        vec![Some(true)],
    );
    assert!(!is_subset_alphabet(&b.alphabet, &a.alphabet), "precondition: the guard WOULD reject this pair if it ran");
    let m = right_quotient(&a, &b, true);
    assert!(accepts_word(&m.fa, &[0]));
    assert!(!accepts_word(&m.fa, &[]));
    assert!(!accepts_word(&m.fa, &[1]));
    assert!(!accepts_word(&m.fa, &[0, 1]));
}

#[test]
fn right_quotient_labels_its_operands_before_the_cross_product() {
    let mut a = word_01();
    a.label = Vec::new();
    let mut b = {
        let mut d = vec![BTreeMap::new(), BTreeMap::new()];
        d[0].insert(1, vec![1]);
        single_track(Fa::with_states(0, 2, 2, vec![0, 1], d), Some(true))
    };
    b.label = Vec::new();
    let m = right_quotient(&a, &b, false);
    assert!(accepts_word(&m.fa, &[0]));
    assert!(!accepts_word(&m.fa, &[]));
    assert!(!accepts_word(&m.fa, &[1]));
    assert!(!accepts_word(&m.fa, &[0, 1]));
}

#[test]
fn left_quotient_matches_the_hand_derived_quotient() {
    let a = word_01();
    let b = {
        let mut d = vec![BTreeMap::new(), BTreeMap::new()];
        d[0].insert(0, vec![1]);
        single_track(Fa::with_states(0, 2, 2, vec![0, 1], d), Some(true))
    };
    let m = left_quotient(&a, &b);
    assert!(accepts_word(&m.fa, &[1]), "\"1\" is in L(B) \\ L(A)");
    assert!(!accepts_word(&m.fa, &[]));
    assert!(!accepts_word(&m.fa, &[0]));
    assert!(!accepts_word(&m.fa, &[0, 1]));
    assert!(!accepts_word(&m.fa, &[1, 1]));
    assert_eq!(m.msd, vec![Some(true)]);
}

#[test]
fn quotients_by_a_language_of_several_words() {
    // L(A) = words over {0,1} ending in "10"; L(B) = {"0", "10"}
    let mut d = vec![BTreeMap::new(), BTreeMap::new(), BTreeMap::new()];
    d[0].insert(0, vec![0]);
    d[0].insert(1, vec![1]);
    d[1].insert(0, vec![2]);
    d[1].insert(1, vec![1]);
    d[2].insert(0, vec![0]);
    d[2].insert(1, vec![1]);
    let a = single_track(Fa::with_states(0, 3, 2, vec![0, 0, 1], d), Some(true));
    let mut e = vec![BTreeMap::new(), BTreeMap::new(), BTreeMap::new()];
    e[0].insert(0, vec![2]);
    e[0].insert(1, vec![1]);
    e[1].insert(0, vec![2]);
    let b = single_track(Fa::with_states(0, 3, 2, vec![0, 0, 1], e), Some(true));
    let r = right_quotient(&a, &b, false);
    // x/"0" needs x to end in 1; x/"10" is every x
    for w in [vec![], vec![0], vec![1], vec![0, 0], vec![1, 0, 1]] {
        assert!(accepts_word(&r.fa, &w), "{w:?}");
    }
    let l = left_quotient(&a, &b);
    // "0" x or "10" x ends in "10": "" works after "10", and x ending in "10" works after either
    assert!(accepts_word(&l.fa, &[]));
    assert!(accepts_word(&l.fa, &[1, 0]));
    assert!(!accepts_word(&l.fa, &[1]));
    assert!(!accepts_word(&l.fa, &[0]));
}
