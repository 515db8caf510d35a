use std::collections::BTreeMap;
use wr_core::automaton::Automaton;
use wr_core::fa::Fa;
use wr_core::product::{and, iff, imply, or, xor};

fn single_track(fa: Fa) -> Automaton {
    Automaton::new(fa, vec![vec![0, 1]], vec!["x".to_string()], vec![Some(true)])
}

/// Total 2-state DFA over `{0,1}` accepting words whose last symbol is `1`.
fn ends_with_one() -> Fa {
    let mut d0 = BTreeMap::new();
    d0.insert(0, vec![0]);
    d0.insert(1, vec![1]);
    let mut d1 = BTreeMap::new();
    d1.insert(0, vec![0]);
    d1.insert(1, vec![1]);
    Fa::with_states(0, 2, 2, vec![0, 1], vec![d0, d1])
}

/// Partial: accepts exactly the one-symbol word `"1"`.
fn exactly_one() -> Fa {
    let mut d0 = BTreeMap::new();
    d0.insert(1, vec![1]);
    Fa::with_states(0, 2, 2, vec![0, 1], vec![d0, BTreeMap::new()])
}

fn accepts_word(fa: &Fa, word: &[i32]) -> bool {
    if fa.true_false.is_some() {
        return fa.true_false == Some(true);
    }
    let mut p = fa.q0;
    for &sym in word {
        match fa.d[p].get(&sym) {
            Some(dests) if !dests.is_empty() => p = dests[0],
            _ => return false,
        }
    }
    fa.o[p] != 0
}

fn words() -> Vec<Vec<i32>> {
    let mut all = vec![vec![]];
    let mut layer: Vec<Vec<i32>> = vec![vec![]];
    for _ in 0..3 {
        let mut next = Vec::new();
        for w in &layer {
            for s in 0..2 {
                let mut v = w.clone();
                v.push(s);
                next.push(v);
            }
        }
        all.extend(next.iter().cloned());
        layer = next;
    }
    all
}

#[derive(PartialEq, Clone, Copy)]
enum Expect {
    Trivial(bool),
    P,
    NotP,
}

fn p_automaton() -> Automaton {
    single_track(exactly_one())
}

fn check(m: &Automaton, expected: Expect, case: &str) {
    match expected {
        Expect::Trivial(truth) => {
            assert!(m.fa.true_false.is_some(), "{case}: expected a TRUE/FALSE automaton");
            assert_eq!(m.fa.true_false, Some(truth), "{case}: wrong truth value");
        }
        Expect::P | Expect::NotP => {
            assert!(m.fa.true_false.is_none(), "{case}: expected an ordinary automaton");
            for word in words() {
                let p = accepts_word(&exactly_one(), &word);
                let want = if expected == Expect::P { p } else { !p };
                assert_eq!(accepts_word(&m.fa, &word), want, "{case}: wrong language on word={word:?}");
            }
        }
    }
}

#[test]
fn and_does_not_totalize_its_operands_and_intersects_correctly() {
    let n = and(&single_track(exactly_one()), &single_track(ends_with_one()));
    for word in words() {
        let expected = accepts_word(&exactly_one(), &word) && accepts_word(&ends_with_one(), &word);
        assert_eq!(accepts_word(&n.fa, &word), expected, "word={word:?}");
    }
}

#[test]
fn or_totalizes_a_partial_operand_before_the_cross_product() {
    let n = or(&mut single_track(exactly_one()), &mut single_track(ends_with_one()));
    for word in words() {
        let expected = accepts_word(&exactly_one(), &word) || accepts_word(&ends_with_one(), &word);
        assert_eq!(accepts_word(&n.fa, &word), expected, "word={word:?}");
    }
    assert!(accepts_word(&n.fa, &[0, 1]), "the word that a non-totalizing `or` would lose");
}

#[test]
fn or_totalizes_the_second_operand_too() {
    let n = or(&mut single_track(ends_with_one()), &mut single_track(exactly_one()));
    for word in words() {
        let expected = accepts_word(&ends_with_one(), &word) || accepts_word(&exactly_one(), &word);
        assert_eq!(accepts_word(&n.fa, &word), expected, "word={word:?}");
    }
    assert!(accepts_word(&n.fa, &[0, 1]), "the word a non-totalized SECOND operand would lose");
}

#[test]
fn xor_totalizes_a_partial_operand_before_the_cross_product() {
    let n = xor(&mut single_track(exactly_one()), &mut single_track(ends_with_one()));
    for word in words() {
        let expected = accepts_word(&exactly_one(), &word) != accepts_word(&ends_with_one(), &word);
        assert_eq!(accepts_word(&n.fa, &word), expected, "word={word:?}");
    }
    assert!(accepts_word(&n.fa, &[0, 1]), "the word that a non-totalizing `xor` would lose");
}

#[test]
fn imply_totalizes_a_partial_operand_and_respects_operand_order() {
    let n = imply(&mut single_track(exactly_one()), &mut single_track(ends_with_one()));
    for word in words() {
        let expected = !accepts_word(&exactly_one(), &word) || accepts_word(&ends_with_one(), &word);
        assert_eq!(accepts_word(&n.fa, &word), expected, "word={word:?}");
    }
    assert!(accepts_word(&n.fa, &[0]), "the word that a non-totalizing `imply` would lose");
    let swapped = imply(&mut single_track(ends_with_one()), &mut single_track(exactly_one()));
    assert!(
        !accepts_word(&swapped.fa, &[0, 1]),
        "B -> A rejects \"01\" (B accepts it, A does not), while A -> B accepts it"
    );
    assert!(accepts_word(&n.fa, &[0, 1]));
}

#[test]
fn iff_totalizes_a_partial_operand_before_the_cross_product() {
    let n = iff(&mut single_track(exactly_one()), &mut single_track(ends_with_one()));
    for word in words() {
        let expected = accepts_word(&exactly_one(), &word) == accepts_word(&ends_with_one(), &word);
        assert_eq!(accepts_word(&n.fa, &word), expected, "word={word:?}");
    }
    assert!(
        accepts_word(&n.fa, &[0]),
        "the word that a non-totalizing `iff` would lose (neither operand accepts it)"
    );
}

#[test]
fn and_short_circuits_on_trivial_operands() {
    for t in [true, false] {
        check(&and(&Automaton::true_false(t), &p_automaton()), if t { Expect::P } else { Expect::Trivial(false) }, &format!("and({t}, P)"));
        check(&and(&p_automaton(), &Automaton::true_false(t)), if t { Expect::P } else { Expect::Trivial(false) }, &format!("and(P, {t})"));
        for u in [true, false] {
            check(&and(&Automaton::true_false(t), &Automaton::true_false(u)), Expect::Trivial(t && u), &format!("and({t}, {u})"));
        }
    }
}

#[test]
fn or_short_circuits_on_trivial_operands() {
    for t in [true, false] {
        check(&or(&mut Automaton::true_false(t), &mut p_automaton()), if t { Expect::Trivial(true) } else { Expect::P }, &format!("or({t}, P)"));
        check(&or(&mut p_automaton(), &mut Automaton::true_false(t)), if t { Expect::Trivial(true) } else { Expect::P }, &format!("or(P, {t})"));
        for u in [true, false] {
            check(&or(&mut Automaton::true_false(t), &mut Automaton::true_false(u)), Expect::Trivial(t || u), &format!("or({t}, {u})"));
        }
    }
}

#[test]
fn xor_short_circuits_on_trivial_operands() {
    for t in [true, false] {
        check(&xor(&mut Automaton::true_false(t), &mut p_automaton()), if t { Expect::NotP } else { Expect::P }, &format!("xor({t}, P)"));
        check(&xor(&mut p_automaton(), &mut Automaton::true_false(t)), if t { Expect::NotP } else { Expect::P }, &format!("xor(P, {t})"));
        for u in [true, false] {
            check(&xor(&mut Automaton::true_false(t), &mut Automaton::true_false(u)), Expect::Trivial(t != u), &format!("xor({t}, {u})"));
        }
    }
}

#[test]
fn imply_short_circuits_on_trivial_operands_asymmetrically() {
    for t in [true, false] {
        check(&imply(&mut Automaton::true_false(t), &mut p_automaton()), if t { Expect::P } else { Expect::Trivial(true) }, &format!("imply({t}, P)"));
        check(&imply(&mut p_automaton(), &mut Automaton::true_false(t)), if t { Expect::Trivial(true) } else { Expect::NotP }, &format!("imply(P, {t})"));
        for u in [true, false] {
            check(&imply(&mut Automaton::true_false(t), &mut Automaton::true_false(u)), Expect::Trivial(!t || u), &format!("imply({t}, {u})"));
        }
    }
}

#[test]
fn iff_short_circuits_via_its_double_imply_recursion() {
    for t in [true, false] {
        check(&iff(&mut Automaton::true_false(t), &mut p_automaton()), if t { Expect::P } else { Expect::NotP }, &format!("iff({t}, P)"));
        check(&iff(&mut p_automaton(), &mut Automaton::true_false(t)), if t { Expect::P } else { Expect::NotP }, &format!("iff(P, {t})"));
        for u in [true, false] {
            check(&iff(&mut Automaton::true_false(t), &mut Automaton::true_false(u)), Expect::Trivial(t == u), &format!("iff({t}, {u})"));
        }
    }
}

#[test]
fn or_totalizes_both_operands_in_place() {
    let mut a = single_track(exactly_one());
    let mut b = single_track(ends_with_one());
    let _ = or(&mut a, &mut b);
    assert_eq!(a.fa.q, exactly_one().q + 1, "`or` totalizes its operands IN PLACE");
    assert_eq!(b.fa.q, ends_with_one().q, "an operand that is already total stays as it is");
    let mut c = single_track(ends_with_one());
    let mut d = single_track(exactly_one());
    let _ = xor(&mut c, &mut d);
    assert_eq!(d.fa.q, exactly_one().q + 1, "the SECOND operand is totalized in place too");
    let e = single_track(exactly_one());
    let _ = and(&e, &single_track(ends_with_one()));
    assert_eq!(e.fa.q, exactly_one().q, "`and` leaves its operands alone");
}

#[test]
fn the_trivial_branches_never_totalize_their_operands() {
    for t in [true, false] {
        for op in [
            or as fn(&mut Automaton, &mut Automaton) -> Automaton,
            xor,
            imply,
            iff,
        ] {
            let mut p = p_automaton();
            let mut triv = Automaton::true_false(t);
            let _ = op(&mut triv, &mut p);
            assert_eq!(p.fa.q, 2, "operand was totalized in a trivial branch");
            let mut p = p_automaton();
            let mut triv = Automaton::true_false(t);
            let _ = op(&mut p, &mut triv);
            assert_eq!(p.fa.q, 2, "operand was totalized in a trivial branch");
        }
    }
}
