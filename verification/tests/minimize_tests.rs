use std::collections::BTreeMap;
use std::collections::BTreeSet;
use wr_core::fa::Fa;
use wr_core::minimize::{minimize, MinimizeError};

fn row(pairs: &[(i32, usize)]) -> BTreeMap<i32, Vec<usize>> {
    pairs.iter().map(|&(s, d)| (s, vec![d])).collect()
}

/// Runs a partial deterministic automaton on `word`.
fn accepts_word(fa: &Fa, word: &[i32]) -> bool {
    if fa.q == 0 {
        return false;
    }
    let mut state = fa.q0;
    for &sym in word {
        match fa.d[state].get(&sym) {
            Some(dests) => state = dests[0],
            None => return false,
        }
    }
    fa.is_accepting(state)
}

/// Do `a` and `b` accept the same language? A product search over pairs of partial
/// runs, where `None` means the run already fell out of the automaton.
fn same_language(a: &Fa, b: &Fa) -> bool {
    assert_eq!(a.alphabet_size, b.alphabet_size, "different alphabets");
    let step = |fa: &Fa, s: Option<usize>, sym: i32| -> Option<usize> {
        let s = s?;
        fa.d[s].get(&sym).and_then(|dests| dests.first().copied())
    };
    let accepts = |fa: &Fa, s: Option<usize>| s.is_some_and(|s| fa.is_accepting(s));

    let start = (Some(a.q0), Some(b.q0));
    let mut seen: BTreeSet<(Option<usize>, Option<usize>)> = [start].into_iter().collect();
    let mut stack = vec![start];
    while let Some((x, y)) = stack.pop() {
        if accepts(a, x) != accepts(b, y) {
            return false;
        }
        for sym in 0..a.alphabet_size as i32 {
            let next = (step(a, x, sym), step(b, y, sym));
            if seen.insert(next) {
                stack.push(next);
            }
        }
    }
    true
}

/// Can `q0` reach any accepting state? Plain forward search.
fn q0_reaches_acceptance(fa: &Fa) -> bool {
    let mut seen = vec![false; fa.q];
    seen[fa.q0] = true;
    let mut stack = vec![fa.q0];
    while let Some(s) = stack.pop() {
        if fa.is_accepting(s) {
            return true;
        }
        for dests in fa.d[s].values() {
            for &t in dests {
                if !seen[t] {
                    seen[t] = true;
                    stack.push(t);
                }
            }
        }
    }
    false
}

fn is_language_empty(fa: &Fa) -> bool {
    fa.q == 0 || !q0_reaches_acceptance(fa)
}

/// FNV-1a over a stable structural rendering of `fa`.
fn structural_digest(acc: &mut u64, fa: &Fa) {
    let rendered = format!(
        "{};{};{};{:?};{:?}",
        fa.q, fa.q0, fa.alphabet_size, fa.o, fa.d
    );
    for b in rendered.as_bytes() {
        *acc ^= u64::from(*b);
        *acc = acc.wrapping_mul(0x0000_0100_0000_01b3);
    }
}

/// Every partial DFA with exactly `q` states over `alphabet_size` symbols.
fn for_each_small_partial_dfa(q: usize, alphabet_size: usize, f: &mut impl FnMut(Fa)) {
    let slots = q * alphabet_size;
    let radix = (q + 1) as u64;
    let tables = radix.pow(slots as u32);
    for table in 0..tables {
        let mut d: Vec<BTreeMap<i32, Vec<usize>>> = vec![BTreeMap::new(); q];
        let mut rest = table;
        for slot in 0..slots {
            let code = rest % radix;
            rest /= radix;
            if code > 0 {
                d[slot / alphabet_size]
                    .insert((slot % alphabet_size) as i32, vec![(code - 1) as usize]);
            }
        }
        for o_mask in 0..(1u32 << q) {
            let o: Vec<i32> = (0..q).map(|s| i32::from(o_mask >> s & 1 == 1)).collect();
            for q0 in 0..q {
                f(Fa::with_states(q0, q, alphabet_size, o.clone(), d.clone()));
            }
        }
    }
}

const NON_DEFECTIVE_DIGEST: u64 = 11_238_673_596_080_511_772;

#[test]
fn merges_two_equivalent_accepting_sinks() {
    let fa = Fa::with_states(
        0,
        3,
        2,
        vec![0, 1, 1],
        vec![
            row(&[(0, 1), (1, 2)]),
            row(&[(0, 1), (1, 1)]),
            row(&[(0, 2), (1, 2)]),
        ],
    );
    let min = minimize(&fa).unwrap();
    assert_eq!(min.q, 2, "the two equivalent sinks must collapse into one");
    assert!(same_language(&fa, &min));
    assert!(!accepts_word(&min, &[]));
    assert!(accepts_word(&min, &[1, 0, 1]));
}

#[test]
fn already_minimal_dfa_is_unchanged_in_size() {
    let fa = Fa::with_states(
        0,
        2,
        2,
        vec![0, 1],
        vec![row(&[(0, 0), (1, 1)]), row(&[(0, 1), (1, 1)])],
    );
    let min = minimize(&fa).unwrap();
    assert_eq!(min.q, 2, "no false merge on an already-minimal DFA");
    assert!(same_language(&fa, &min));
}

#[test]
fn rejects_nondeterministic_input() {
    let mut fa = Fa::with_states(
        0,
        2,
        2,
        vec![0, 1],
        vec![row(&[(0, 0), (1, 1)]), row(&[(0, 1), (1, 1)])],
    );
    fa.d[0].insert(1, vec![0, 1]);
    assert_eq!(minimize(&fa).unwrap_err(), MinimizeError::NotDeterministic);
}

#[test]
fn no_accepting_states_collapses_to_one_dead_state() {
    let fa = Fa::with_states(
        0,
        3,
        2,
        vec![0, 0, 0],
        vec![
            row(&[(0, 1), (1, 2)]),
            row(&[(0, 2), (1, 0)]),
            row(&[(0, 0), (1, 1)]),
        ],
    );
    let min = minimize(&fa).unwrap();
    assert_eq!(min.q, 1);
    assert!(is_language_empty(&min));
    assert!(min.d[0].is_empty());
}

#[test]
fn drops_states_that_cannot_reach_acceptance() {
    let fa = Fa::with_states(
        0,
        3,
        2,
        vec![0, 1, 0],
        vec![
            row(&[(0, 1), (1, 2)]),
            row(&[(0, 1), (1, 2)]),
            row(&[(0, 2), (1, 2)]),
        ],
    );
    let min = minimize(&fa).unwrap();
    assert_eq!(min.q, 2);
    assert!(accepts_word(&min, &[0, 0]));
    assert!(!accepts_word(&min, &[0, 1]));
    assert!(same_language(&fa, &min));
}

#[test]
fn minimize_wb_001_trigger_now_yields_the_empty_language() {
    let fa = Fa::with_states(0, 2, 1, vec![0, 1], vec![row(&[(0, 0)]), row(&[(0, 1)])]);
    assert!(is_language_empty(&fa));

    let min = minimize(&fa).unwrap();
    assert_eq!(min.q, 1);
    assert_eq!(min.q0, 0);
    assert_eq!(min.o, vec![0], "q0 must not be aliased onto an accepting block");
    assert_eq!(min.d, vec![BTreeMap::new()]);
    assert_eq!(min.alphabet_size, fa.alphabet_size);
    assert!(is_language_empty(&min));
}

#[test]
fn the_guard_is_a_no_op_on_every_non_defective_input() {
    let ordinary = Fa::with_states(
        0,
        3,
        2,
        vec![0, 1, 1],
        vec![
            row(&[(0, 0), (1, 1)]),
            row(&[(0, 1), (1, 1)]),
            row(&[(0, 2), (1, 2)]),
        ],
    );
    let min = minimize(&ordinary).unwrap();
    assert_eq!(min.q, 2, "the two sinks merge; q0 stays separate");
    assert_eq!(min.o, vec![1, 0]);
    assert_eq!(min.q0, 1);
    assert_eq!(
        min.d,
        vec![row(&[(0, 0), (1, 0)]), row(&[(0, 1), (1, 0)])],
        "exact table"
    );

    let dead = Fa::with_states(
        1,
        3,
        2,
        vec![0, 0, 0],
        vec![
            row(&[(0, 1), (1, 2)]),
            row(&[(0, 2), (1, 0)]),
            row(&[(0, 0), (1, 1)]),
        ],
    );
    let min = minimize(&dead).unwrap();
    assert_eq!(
        (min.q, min.q0, &min.o, &min.d),
        (1, 0, &vec![0], &vec![BTreeMap::new()])
    );
}

#[test]
fn wb_001_exhaustive_small_sweep() {
    let mut digest: u64 = 0xcbf2_9ce4_8422_2325;
    let mut total = 0usize;
    let mut defective = 0usize;
    let assert_canonical_empty = |min: &Fa, fa: &Fa| {
        assert_eq!(
            (min.q, min.q0, &min.o, &min.d, min.alphabet_size),
            (1, 0, &vec![0], &vec![BTreeMap::new()], fa.alphabet_size),
            "{fa:?} has an empty language and must minimize to the canonical empty automaton"
        );
    };

    for q in 1..=3usize {
        for alphabet_size in 1..=2usize {
            for_each_small_partial_dfa(q, alphabet_size, &mut |fa| {
                total += 1;
                let min = minimize(&fa).expect("every generated table is deterministic");
                assert!(
                    same_language(&fa, &min),
                    "minimize changed the language of {fa:?} -> {min:?}"
                );
                assert!(min.q <= fa.q, "minimize grew {fa:?} -> {min:?}");
                assert_eq!(min.alphabet_size, fa.alphabet_size);
                if q0_reaches_acceptance(&fa) {
                    structural_digest(&mut digest, &min);
                } else {
                    defective += 1;
                    assert_canonical_empty(&min, &fa);
                }
            });
        }
    }

    assert_eq!(total, 100_572, "the sweep's own size");
    assert_eq!(defective, 26_646, "guard-fires count");
    assert_eq!(digest, NON_DEFECTIVE_DIGEST, "structure of the non-defective cases");
}

#[test]
fn wb_001_randomized_larger_sweep() {
    let mut state: u64 = 0x2026_0820_0000_0001;
    let mut next = move || {
        state ^= state << 13;
        state ^= state >> 7;
        state ^= state << 17;
        state
    };
    let mut defective = 0usize;
    const CASES: usize = 20_000;

    for _ in 0..CASES {
        let q = 1 + (next() % 6) as usize;
        let alphabet_size = 1 + (next() % 3) as usize;
        let o: Vec<i32> = (0..q).map(|_| i32::from(next() % 3 == 0)).collect();
        let mut d: Vec<BTreeMap<i32, Vec<usize>>> = vec![BTreeMap::new(); q];
        for row in d.iter_mut() {
            for sym in 0..alphabet_size {
                if next() % 4 != 0 {
                    row.insert(sym as i32, vec![(next() % q as u64) as usize]);
                }
            }
        }
        let fa = Fa::with_states((next() % q as u64) as usize, q, alphabet_size, o, d);

        let min = minimize(&fa).expect("generated tables are deterministic by construction");
        assert!(
            same_language(&fa, &min),
            "minimize changed the language of {fa:?} -> {min:?}"
        );
        assert!(min.q <= fa.q);
        if !q0_reaches_acceptance(&fa) {
            defective += 1;
            assert_eq!(min.q, 1);
            assert_eq!(min.o, vec![0]);
            assert!(min.d[0].is_empty());
        }
    }
    assert!(
        defective > CASES / 100,
        "only {defective} of {CASES} cases had the defect shape"
    );
}

#[test]
fn minimize_of_a_zero_state_automaton_is_a_copy() {
    let fa = Fa::with_states(0, 0, 2, vec![], vec![]);
    let min = minimize(&fa).unwrap();
    assert_eq!((min.q, min.q0, min.alphabet_size), (0, 0, 2));
    assert!(min.o.is_empty());
    assert!(min.d.is_empty());
}

#[test]
fn minimize_result_is_deterministic_and_never_grows() {
    let fa = Fa::with_states(
        2,
        4,
        2,
        vec![0, 1, 0, 1],
        vec![
            row(&[(0, 1), (1, 3)]),
            row(&[(0, 1), (1, 3)]),
            row(&[(0, 0), (1, 1)]),
            row(&[(0, 3), (1, 1)]),
        ],
    );
    let min = minimize(&fa).unwrap();
    assert!(min.q >= 1 && min.q <= fa.q);
    assert!(min.is_deterministic());
    assert!(same_language(&fa, &min));
}
