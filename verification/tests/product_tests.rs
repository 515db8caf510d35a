use std::collections::BTreeMap;
use wr_core::automaton::Automaton;
use wr_core::fa::Fa;
use wr_core::product::{and, combine, cross_product, iff, imply, or, xor, BooleanOp, ProductRule};
use wr_core::trim::trim_unreachable;

fn single_track(fa: Fa) -> Automaton {
    Automaton::new(fa, vec![vec![0, 1]], vec!["x".to_string()], vec![Some(true)])
}

/// Total: words whose last symbol is `1`.
fn ends_with_one() -> Fa {
    let mut d0 = BTreeMap::new();
    d0.insert(0, vec![0]);
    d0.insert(1, vec![1]);
    let mut d1 = BTreeMap::new();
    d1.insert(0, vec![0]);
    d1.insert(1, vec![1]);
    Fa::with_states(0, 2, 2, vec![0, 1], vec![d0, d1])
}

/// Partial: exactly the word `"01"`.
fn exactly_zero_one() -> Fa {
    let mut d0 = BTreeMap::new();
    d0.insert(0, vec![1]);
    let mut d1 = BTreeMap::new();
    d1.insert(1, vec![2]);
    Fa::with_states(0, 3, 2, vec![0, 0, 1], vec![d0, d1, BTreeMap::new()])
}

/// Total: words of even length.
fn even_length() -> Fa {
    let mut d0 = BTreeMap::new();
    d0.insert(0, vec![1]);
    d0.insert(1, vec![1]);
    let mut d1 = BTreeMap::new();
    d1.insert(0, vec![0]);
    d1.insert(1, vec![0]);
    Fa::with_states(0, 2, 2, vec![1, 0], vec![d0, d1])
}

fn accepts_word(fa: &Fa, word: &[i32]) -> bool {
    if fa.true_false.is_some() {
        return fa.true_false == Some(true);
    }
    let mut p = fa.q0;
    for &sym in word {
        match fa.d[p].get(&sym) {
            Some(dests) if !dests.is_empty() => p = dests[0],
            _ => return false,
        }
    }
    fa.o[p] != 0
}

fn words() -> Vec<Vec<i32>> {
    let mut all = vec![vec![]];
    let mut layer = vec![vec![]];
    for _ in 0..4 {
        let mut next = Vec::new();
        for w in &layer {
            for s in 0..2 {
                let mut v: Vec<i32> = w.clone();
                v.push(s);
                next.push(v);
            }
        }
        all.extend(next.iter().cloned());
        layer = next;
    }
    all
}

fn check(op: fn(&mut Automaton, &mut Automaton) -> Automaton, truth: fn(bool, bool) -> bool, a: fn() -> Fa, b: fn() -> Fa) {
    let r = op(&mut single_track(a()), &mut single_track(b()));
    for w in words() {
        let expected = truth(accepts_word(&a(), &w), accepts_word(&b(), &w));
        assert_eq!(accepts_word(&r.fa, &w), expected, "word={w:?}");
    }
}

#[test]
fn and_intersects_without_totalizing() {
    check(and_mut, |x, y| x && y, ends_with_one, exactly_zero_one);
    check(and_mut, |x, y| x && y, ends_with_one, even_length);
}

#[test]
fn or_totalizes_a_partial_operand() {
    check(or, |x, y| x || y, exactly_zero_one, even_length);
    let r = or(&mut single_track(exactly_zero_one()), &mut single_track(even_length()));
    assert!(accepts_word(&r.fa, &[1, 1, 1, 1]), "accepted by the second operand only");
}

#[test]
fn xor_is_the_symmetric_difference() {
    check(xor, |x, y| x != y, ends_with_one, even_length);
    check(xor, |x, y| x != y, exactly_zero_one, ends_with_one);
}

#[test]
fn imply_respects_operand_order() {
    check(imply, |x, y| !x || y, exactly_zero_one, ends_with_one);
    check(imply, |x, y| !x || y, ends_with_one, exactly_zero_one);
    let ab = imply(&mut single_track(exactly_zero_one()), &mut single_track(ends_with_one()));
    let ba = imply(&mut single_track(ends_with_one()), &mut single_track(exactly_zero_one()));
    assert!(accepts_word(&ab.fa, &[0, 1]));
    assert!(!accepts_word(&ba.fa, &[1]));
}

#[test]
fn iff_accepts_where_both_agree() {
    check(iff, |x, y| x == y, even_length, ends_with_one);
    check(iff, |x, y| x == y, exactly_zero_one, even_length);
}

#[test]
fn connectives_short_circuit_on_trivial_operands() {
    let t = || Automaton::true_false(true);
    let f = || Automaton::true_false(false);
    let p = || single_track(ends_with_one());
    assert_eq!(and(&f(), &p()).fa.true_false, Some(false));
    assert!(accepts_word(&and(&t(), &p()).fa, &[0, 1]));
    assert_eq!(or(&mut t(), &mut p()).fa.true_false, Some(true));
    assert_eq!(or(&mut p(), &mut f()).fa.q, 2);
    let x = xor(&mut t(), &mut p());
    assert!(accepts_word(&x.fa, &[1, 0]));
    assert!(!accepts_word(&x.fa, &[0, 1]));
    assert_eq!(imply(&mut f(), &mut p()).fa.true_false, Some(true));
    let n = imply(&mut p(), &mut f());
    assert!(accepts_word(&n.fa, &[]));
    assert!(!accepts_word(&n.fa, &[1]));
    assert_eq!(iff(&mut t(), &mut f()).fa.true_false, Some(false));
    assert_eq!(iff(&mut f(), &mut f()).fa.true_false, Some(true));
    let e = iff(&mut f(), &mut p());
    assert!(accepts_word(&e.fa, &[0]));
    assert!(!accepts_word(&e.fa, &[0, 1]));
}

#[test]
fn the_product_of_two_total_automata_has_every_pair() {
    let p = cross_product(&ends_with_one(), &even_length(), ProductRule::Connective(BooleanOp::And));
    assert_eq!(p.q, 4);
    assert_eq!(p.q0, 0);
    // pair (1, 0): last symbol 1 and even length
    assert_eq!(p.o, vec![0, 0, 1, 0]);
    assert_eq!(p.d[0].get(&1), Some(&vec![3]));
    assert!(BooleanOp::Imply.combine(false, false));
    assert!(!BooleanOp::Imply.combine(true, false));
}

#[test]
fn results_are_minimal() {
    // intersection of "ends with 1" and "even length": after an odd number of symbols
    // the last one no longer matters, so three states remain
    let r = and(&single_track(ends_with_one()), &single_track(even_length()));
    assert_eq!(r.fa.q, 3);
    // "ends with 1" or its complement: everything, one state
    let all = or(&mut single_track(ends_with_one()), &mut wr_core::logicalops::not(single_track(ends_with_one())));
    assert_eq!(all.fa.q, 1);
    assert!(accepts_word(&all.fa, &[0, 0]));
}

#[test]
fn trimming_drops_the_states_no_word_reaches() {
    // state 2 is never reached from state 0
    let mut d0 = BTreeMap::new();
    d0.insert(0, vec![1]);
    let mut d1 = BTreeMap::new();
    d1.insert(1, vec![0]);
    let mut d2 = BTreeMap::new();
    d2.insert(0, vec![0]);
    let fa = Fa::with_states(0, 3, 2, vec![0, 1, 1], vec![d0, d1, d2]);
    let t = trim_unreachable(&fa);
    assert_eq!(t.q, 2);
    assert_eq!(t.o, vec![0, 1]);
    assert!(accepts_word(&t, &[0]));
    assert!(accepts_word(&t, &[0, 1, 0]));
    assert!(!accepts_word(&t, &[0, 1]));
}

fn and_mut(a: &mut Automaton, b: &mut Automaton) -> Automaton {
    and(a, b)
}

fn output_after(fa: &Fa, word: &[i32]) -> i32 {
    let mut state = fa.q0;
    for &sym in word {
        state = fa.d[state][&sym][0];
    }
    fa.o[state]
}

#[test]
fn combine_two_automata_matches_the_hand_derived_truth_table() {
    let a = single_track(ends_with_one());
    let next = single_track(even_length());
    let result = combine(a, vec![next], &[10, 20]);
    assert_eq!(output_after(&result.fa, &[]), 20, "\"\": even length");
    assert_eq!(output_after(&result.fa, &[1]), 10, "\"1\": odd, ends with 1");
    assert_eq!(output_after(&result.fa, &[0]), 0, "\"0\": odd, doesn't end with 1");
    assert_eq!(output_after(&result.fa, &[1, 1]), 20, "\"11\": even length");
    assert_eq!(output_after(&result.fa, &[0, 1]), 20, "\"01\": even length");
    assert_eq!(output_after(&result.fa, &[0, 1, 1]), 10, "\"011\": odd, ends with 1");
    assert_eq!(output_after(&result.fa, &[0, 1, 0]), 0, "\"010\": odd, doesn't end with 1");
}

#[test]
fn combine_single_automaton_no_subautomata_just_rewrites_accepting_states() {
    let a = single_track(ends_with_one());
    let result = combine(a, vec![], &[42]);
    assert_eq!(output_after(&result.fa, &[1]), 42, "accepting: rewritten");
    assert_eq!(output_after(&result.fa, &[0]), 0, "non-accepting: original output untouched");
}

#[test]
fn combine_totalizes_a_partial_subautomaton_and_keeps_the_last_match() {
    // "01" only (partial), then "ends with 1": the later one wins on "01"
    let a = single_track(exactly_zero_one());
    let result = combine(a, vec![single_track(ends_with_one()), single_track(even_length())], &[5, 6, 7]);
    assert!(result.canonized);
    assert_eq!(output_after(&result.fa, &[0, 1]), 7, "even length wins last");
    assert_eq!(output_after(&result.fa, &[1]), 6);
    assert_eq!(output_after(&result.fa, &[0]), 0);
    assert_eq!(output_after(&result.fa, &[1, 0, 0]), 0);
    // one output only: the subautomata are not folded in
    let only = combine(single_track(exactly_zero_one()), vec![single_track(ends_with_one())], &[9]);
    assert_eq!(output_after(&only.fa, &[0, 1]), 9);
    assert_eq!(output_after(&only.fa, &[1]), 0);
}
