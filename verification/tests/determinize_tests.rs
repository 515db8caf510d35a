use std::collections::{BTreeMap, BTreeSet};
use wr_core::determinize::{determinize_from, reversed_fa};
use wr_core::fa::Fa;

/// Runs `fa` as a nondeterministic automaton on `word`.
fn accepts_word(fa: &Fa, word: &[i32]) -> bool {
    if fa.q == 0 {
        return false;
    }
    let mut current: BTreeSet<usize> = BTreeSet::from([fa.q0]);
    for &sym in word {
        let mut next = BTreeSet::new();
        for &p in &current {
            if let Some(dests) = fa.d[p].get(&sym) {
                next.extend(dests.iter().copied());
            }
        }
        current = next;
    }
    current.iter().any(|&p| fa.o[p] != 0)
}

/// Nondeterministic: accepts the words whose second-to-last symbol is `1`.
fn second_to_last_is_one() -> Fa {
    let mut d0 = BTreeMap::new();
    d0.insert(0, vec![0]);
    d0.insert(1, vec![0, 1]);
    let mut d1 = BTreeMap::new();
    d1.insert(0, vec![2]);
    d1.insert(1, vec![2]);
    Fa {
        true_false: None,
        q0: 0,
        q: 3,
        alphabet_size: 2,
        o: vec![0, 0, 1],
        d: vec![d0, d1, BTreeMap::new()],
    }
}

fn all_words(max_len: usize) -> Vec<Vec<i32>> {
    let mut words = vec![vec![]];
    let mut frontier = vec![vec![]];
    for _ in 0..max_len {
        let mut next = Vec::new();
        for w in &frontier {
            for s in 0..2 {
                let mut v: Vec<i32> = w.clone();
                v.push(s);
                next.push(v);
            }
        }
        words.extend(next.iter().cloned());
        frontier = next;
    }
    words
}

#[test]
fn determinizing_keeps_the_language_and_gives_one_destination_per_symbol() {
    let nfa = second_to_last_is_one();
    let dfa = determinize_from(&nfa, vec![true, false, false]);
    assert_eq!(dfa.q0, 0);
    for row in &dfa.d {
        for dests in row.values() {
            assert_eq!(dests.len(), 1);
        }
    }
    for w in all_words(6) {
        let expected = w.len() >= 2 && w[w.len() - 2] == 1;
        assert_eq!(accepts_word(&dfa, &w), expected, "word {w:?}");
        assert_eq!(accepts_word(&nfa, &w), expected, "word {w:?}");
    }
    // The sets {0}, {0,1}, {0,2}, {0,1,2} are reached.
    assert_eq!(dfa.q, 4);
}

#[test]
fn determinizing_from_several_states_reads_from_any_of_them() {
    let nfa = second_to_last_is_one();
    // Starting from {0, 1}: the first symbol may already be the second-to-last one.
    let dfa = determinize_from(&nfa, vec![true, true, false]);
    assert!(accepts_word(&dfa, &[0]));
    assert!(accepts_word(&dfa, &[1]));
    assert!(!accepts_word(&dfa, &[]));
    assert!(!accepts_word(&dfa, &[0, 0]));
    assert!(accepts_word(&dfa, &[1, 0]));
}

#[test]
fn determinizing_from_no_state_accepts_nothing() {
    let nfa = second_to_last_is_one();
    let dfa = determinize_from(&nfa, vec![false, false, false]);
    assert_eq!(dfa.q, 1);
    assert_eq!(dfa.o, vec![0]);
    assert!(dfa.d[0].is_empty());
}

#[test]
fn reversing_turns_every_transition_around() {
    let nfa = second_to_last_is_one();
    let r = reversed_fa(&nfa);
    assert_eq!(r.q, 3);
    assert_eq!(r.o, vec![1, 0, 0]);
    let mut preds_of_0_on_1 = r.d[0][&1].clone();
    preds_of_0_on_1.sort();
    assert_eq!(preds_of_0_on_1, vec![0]);
    assert_eq!(r.d[1][&1], vec![0]);
    assert_eq!(r.d[2][&0], vec![1]);
    assert_eq!(r.d[2][&1], vec![1]);
    assert!(r.d[1].get(&0).is_none());
}
