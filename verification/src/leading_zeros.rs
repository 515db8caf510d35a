//! Restricting an automaton to representations without leading zeros on chosen tracks:
//! a two-state automaton per track that checks the track's most significant digit,
//! the union of those, intersected with the automaton.

use crate::automaton::{alphabet_view, Automaton};
use crate::fa::{accepts, run_from, Fa};
use crate::product::{in_language, or, and};
use crate::logicalops::{has_destinations, over_alphabet, reverse, RemoveLeadingZerosError};
use std::collections::BTreeMap;
use vstd::prelude::*;

verus! {

broadcast use vstd::std_specs::btree::group_btree_axioms;

/// The position, within track `n`, of the digit that symbol `s` encodes, dividing out
/// the tracks `k..n` before it (track 0 varies fastest).
pub open spec fn digit_position(alph: Seq<Seq<i32>>, s: int, k: int, n: int) -> int
    decreases n - k,
{
    if k < 0 || k >= n {
        if alph[n].len() > 0 {
            s % (alph[n].len() as int)
        } else {
            0
        }
    } else {
        digit_position(
            alph,
            if alph[k].len() > 0 {
                s / (alph[k].len() as int)
            } else {
                0
            },
            k + 1,
            n,
        )
    }
}

/// The digit of track `n` that symbol `s` encodes.
pub open spec fn symbol_digit(alph: Seq<Seq<i32>>, s: int, n: int) -> i32 {
    alph[n][digit_position(alph, s, 0, n)]
}

/// The word is empty, or the digit of track `n` in its most significant symbol (the
/// first for `msd`, the last otherwise) is not zero.
pub open spec fn leading_digit_nonzero(alph: Seq<Seq<i32>>, w: Seq<i32>, n: int, msd: bool) -> bool {
    w.len() == 0 || symbol_digit(alph, (if msd { w[0] } else { w.last() }) as int, n) != 0
}

/// The digit of track `n` that symbol `s` encodes.
pub fn decode_digit(alphabet: &Vec<Vec<i32>>, s: i32, n: usize) -> (r: i32)
    requires
        n < alphabet@.len(),
        0 <= s,
        forall|k: int| 0 <= k <= n ==> #[trigger] alphabet@[k]@.len() > 0,
    ensures
        r == symbol_digit(alphabet_view(alphabet@), s as int, n as int),
{
    let ghost alph = alphabet_view(alphabet@);
    let mut v: usize = s as usize;
    let mut k: usize = 0;
    while k < n
        invariant
            k <= n,
            n < alphabet@.len(),
            alph == alphabet_view(alphabet@),
            forall|j: int| 0 <= j <= n ==> #[trigger] alphabet@[j]@.len() > 0,
            digit_position(alph, v as int, k as int, n as int) == digit_position(alph, s as int, 0, n as int),
        decreases n - k,
    {
        assert(alph[k as int] == alphabet@[k as int]@);
        assert(alphabet@[k as int]@.len() > 0);
        v = v / alphabet[k].len();
        k = k + 1;
    }
    let track = &alphabet[n];
    assert(alph[n as int] == track@);
    track[v % track.len()]
}

/// The language of the two-state automaton that checks track `n`'s first digit.
proof fn lemma_first_digit_run(f: &Fa, alph: Seq<Seq<i32>>, n: int, w: Seq<i32>)
    requires
        f.q == 2,
        f.d@.len() == 2,
        forall|s: i32| #[trigger] f.row(0).contains_key(s) == (0 <= s < f.alphabet_size && symbol_digit(alph, s as int, n) != 0),
        forall|s: i32| #[trigger] f.row(1).contains_key(s) == (0 <= s < f.alphabet_size),
        forall|s: i32| #[trigger] f.row(0).contains_key(s) ==> f.dests(0, s) == seq![1usize],
        forall|s: i32| #[trigger] f.row(1).contains_key(s) ==> f.dests(1, s) == seq![1usize],
        w.len() > 0,
        over_alphabet(w, f.alphabet_size as int),
    ensures
        run_from(f, 0, w) == if symbol_digit(alph, w[0] as int, n) != 0 { Some(1int) } else { None::<int> },
    decreases w.len(),
{
    let u = w.drop_last();
    let s = w.last();
    assert(0 <= w[w.len() - 1] < f.alphabet_size);
    if u.len() == 0 {
        assert(run_from(f, 0, u) == Some(0int));
        assert(w[0] == s);
        if f.row(0).contains_key(s) {
            assert(f.dests(0, s)[0] == 1usize);
        }
    } else {
        assert(over_alphabet(u, f.alphabet_size as int)) by {
            assert forall|i: int| 0 <= i < u.len() implies 0 <= #[trigger] u[i] < f.alphabet_size by {
                assert(u[i] == w[i]);
            }
        }
        lemma_first_digit_run(f, alph, n, u);
        assert(u[0] == w[0]);
        assert(f.row(1).contains_key(s));
        assert(f.dests(1, s)[0] == 1usize);
    }
}

/// A copy of the recorded number-system names of `a`.
pub(crate) fn copy_names(a: &Automaton) -> (r: Vec<Option<String>>)
    ensures
        r@ == a.ns_name@,
{
    let mut r: Vec<Option<String>> = Vec::new();
    let mut i: usize = 0;
    while i < a.ns_name.len()
        invariant
            i <= a.ns_name@.len(),
            r@ == a.ns_name@.subrange(0, i as int),
        decreases a.ns_name@.len() - i,
    {
        let n = match &a.ns_name[i] {
            Some(x) => Some(x.clone()),
            None => None,
        };
        r.push(n);
        i = i + 1;
        assert(r@ =~= a.ns_name@.subrange(0, i as int));
    }
    assert(r@ =~= a.ns_name@);
    r
}

/// The tracks of `a`, copied.
pub(crate) fn copy_tracks(a: &Automaton) -> (r: (Vec<Vec<i32>>, Vec<String>, Vec<Option<bool>>))
    ensures
        alphabet_view(r.0@) == alphabet_view(a.alphabet@),
        r.1@ == a.label@,
        r.2@ == a.msd@,
{
    let mut alphabet: Vec<Vec<i32>> = Vec::new();
    let mut i: usize = 0;
    while i < a.alphabet.len()
        invariant
            i <= a.alphabet@.len(),
            alphabet@.len() == i,
            forall|j: int| 0 <= j < i ==> #[trigger] alphabet@[j]@ == a.alphabet@[j]@,
        decreases a.alphabet@.len() - i,
    {
        let track = &a.alphabet[i];
        let mut digits: Vec<i32> = Vec::new();
        let mut j: usize = 0;
        while j < track.len()
            invariant
                j <= track@.len(),
                digits@ == track@.subrange(0, j as int),
            decreases track@.len() - j,
        {
            digits.push(track[j]);
            j = j + 1;
            assert(digits@ =~= track@.subrange(0, j as int));
        }
        assert(digits@ =~= track@);
        alphabet.push(digits);
        i = i + 1;
    }
    assert(alphabet_view(alphabet@) =~= alphabet_view(a.alphabet@));
    let mut label: Vec<String> = Vec::new();
    let mut i: usize = 0;
    while i < a.label.len()
        invariant
            i <= a.label@.len(),
            label@ == a.label@.subrange(0, i as int),
        decreases a.label@.len() - i,
    {
        label.push(a.label[i].clone());
        i = i + 1;
        assert(label@ =~= a.label@.subrange(0, i as int));
    }
    assert(label@ =~= a.label@);
    let mut msd: Vec<Option<bool>> = Vec::new();
    let mut i: usize = 0;
    while i < a.msd.len()
        invariant
            i <= a.msd@.len(),
            msd@ == a.msd@.subrange(0, i as int),
        decreases a.msd@.len() - i,
    {
        msd.push(a.msd[i]);
        i = i + 1;
        assert(msd@ =~= a.msd@.subrange(0, i as int));
    }
    assert(msd@ =~= a.msd@);
    (alphabet, label, msd)
}

/// The automaton over `a`'s tracks that accepts the words whose most significant
/// symbol has a nonzero digit on track `n`, and the empty word: for a
/// most-significant-first track the first symbol is checked, otherwise the last. A
/// track without a number system has no leading zeros, so every word is accepted.
pub fn remove_leading_zeros_helper(a: &Automaton, n: usize) -> (r: Result<Automaton, RemoveLeadingZerosError>)
    requires
        a.msd@.len() >= a.alphabet@.len(),
        a.fa.alphabet_size <= i32::MAX,
        a.fa.alphabet_size > 0 ==> forall|k: int| 0 <= k < a.alphabet@.len() ==> #[trigger] a.alphabet@[k]@.len() > 0,
    ensures
        n >= a.alphabet@.len() <==> r == Err::<Automaton, RemoveLeadingZerosError>(
            RemoveLeadingZerosError::InputIndexOutOfRange { n, inputs: a.alphabet@.len() as usize },
        ),
        n < a.alphabet@.len() && a.msd@[n as int] is None ==> r is Ok && r->Ok_0.fa.true_false == Some(true),
        n < a.alphabet@.len() && a.msd@[n as int] is Some ==> r is Ok && ({
            let m = r->Ok_0;
            let msd = a.msd@[n as int]->Some_0;
            &&& m.fa.true_false is None
            &&& m.fa.alphabet_size == a.fa.alphabet_size
            &&& alphabet_view(m.alphabet@) == alphabet_view(a.alphabet@)
            &&& m.label@ == a.label@
            &&& m.msd@ == a.msd@
            &&& m.ns_name@ == a.ns_name@
            &&& 1 <= m.fa.q <= 4
            &&& m.fa.q0 < m.fa.q
            &&& m.fa.wf()
            &&& m.fa.spec_deterministic()
            &&& has_destinations(&m.fa)
            &&& forall|w: Seq<i32>|
                over_alphabet(w, a.fa.alphabet_size as int) ==> (#[trigger] accepts(&m.fa, w) <==> leading_digit_nonzero(
                    alphabet_view(a.alphabet@),
                    w,
                    n as int,
                    msd,
                ))
        }),
{
    if n >= a.alphabet.len() {
        return Err(RemoveLeadingZerosError::InputIndexOutOfRange { n, inputs: a.alphabet.len() });
    }
    let msd = match a.msd[n] {
        Some(msd) => msd,
        None => return Ok(Automaton::true_false(true)),
    };
    let ghost alph = alphabet_view(a.alphabet@);
    let k = a.fa.alphabet_size as i32;
    let mut d0: BTreeMap<i32, Vec<usize>> = BTreeMap::new();
    let mut d1: BTreeMap<i32, Vec<usize>> = BTreeMap::new();
    let mut i: i32 = 0;
    while i < k
        invariant
            0 <= i <= k,
            k == a.fa.alphabet_size,
            n < a.alphabet@.len(),
            alph == alphabet_view(a.alphabet@),
            a.fa.alphabet_size > 0 ==> forall|j: int| 0 <= j < a.alphabet@.len() ==> #[trigger] a.alphabet@[j]@.len() > 0,
            forall|s: i32| #[trigger] d0@.contains_key(s) == (0 <= s < i && symbol_digit(alph, s as int, n as int) != 0),
            forall|s: i32| #[trigger] d1@.contains_key(s) == (0 <= s < i),
            forall|s: i32| #[trigger] d0@.contains_key(s) ==> d0@[s]@ == seq![1usize],
            forall|s: i32| #[trigger] d1@.contains_key(s) ==> d1@[s]@ == seq![1usize],
        decreases k - i,
    {
        if decode_digit(&a.alphabet, i, n) != 0 {
            let mut v: Vec<usize> = Vec::new();
            v.push(1);
            d0.insert(i, v);
            assert(d0@[i]@ =~= seq![1usize]);
        }
        let mut v: Vec<usize> = Vec::new();
        v.push(1);
        d1.insert(i, v);
        assert(d1@[i]@ =~= seq![1usize]);
        i = i + 1;
    }
    let mut o: Vec<i32> = Vec::new();
    o.push(1);
    o.push(1);
    let mut d: Vec<BTreeMap<i32, Vec<usize>>> = Vec::new();
    d.push(d0);
    d.push(d1);
    let fa = Fa::with_states(0, 2, a.fa.alphabet_size, o, d);
    let ghost f = fa;
    proof {
        assert(fa.row(0) == d0@);
        assert(fa.row(1) == d1@);
        assert forall|p: int, sym: i32, j: int|
            #![trigger fa.dests(p, sym)[j]]
            0 <= p < fa.q && fa.row(p).contains_key(sym) && 0 <= j < fa.dests(p, sym).len() implies fa.dests(p, sym)[j]
            < fa.q by {
            if p == 0 {
                assert(fa.dests(0, sym) == seq![1usize]);
            } else {
                assert(fa.dests(1, sym) == seq![1usize]);
            }
        }
        assert(fa.wf());
        assert forall|p: int, sym: i32| 0 <= p < fa.d@.len() && #[trigger] fa.row(p).contains_key(sym) implies fa.dests(p, sym).len() <= 1 by {
            if p == 0 {
                assert(fa.dests(0, sym) == seq![1usize]);
            } else {
                assert(fa.dests(1, sym) == seq![1usize]);
            }
        }
        assert forall|w: Seq<i32>| over_alphabet(w, f.alphabet_size as int) implies (#[trigger] accepts(&f, w)
            <==> leading_digit_nonzero(alph, w, n as int, true)) by {
            if w.len() == 0 {
                assert(run_from(&f, 0, w) == Some(0int));
            } else {
                lemma_first_digit_run(&f, alph, n as int, w);
            }
        }
    }
    let (alphabet, label, msds) = copy_tracks(a);
    let mut m = Automaton::new(fa, alphabet, label, msds);
    m.set_ns_names(copy_names(a));
    if !msd {
        reverse(&mut m, false);
        proof {
            assert forall|w: Seq<i32>| over_alphabet(w, a.fa.alphabet_size as int) implies (#[trigger] accepts(&m.fa, w)
                <==> leading_digit_nonzero(alph, w, n as int, false)) by {
                let rw = w.reverse();
                assert(over_alphabet(rw, f.alphabet_size as int)) by {
                    assert forall|j: int| 0 <= j < rw.len() implies 0 <= #[trigger] rw[j] < f.alphabet_size by {
                        assert(rw[j] == w[w.len() - 1 - j]);
                    }
                }
                assert(accepts(&f, rw) <==> leading_digit_nonzero(alph, rw, n as int, true));
                if w.len() > 0 {
                    assert(rw[0] == w.last());
                }
            }
            assert(vstd::arithmetic::power::pow(2, 2) == 4) by {
                reveal_with_fuel(vstd::arithmetic::power::pow, 3);
            }
            assert forall|p: int, sym: i32| 0 <= p < m.fa.q && #[trigger] m.fa.row(p).contains_key(sym) implies m.fa.dests(p, sym).len() > 0 by {
            }
            assert forall|p: int, sym: i32| 0 <= p < m.fa.d@.len() && #[trigger] m.fa.row(p).contains_key(sym) implies m.fa.dests(p, sym).len() <= 1 by {
            }
        }
    } else {
        proof {
            assert forall|p: int, sym: i32| 0 <= p < m.fa.q && #[trigger] m.fa.row(p).contains_key(sym) implies m.fa.dests(p, sym).len() > 0 by {
                if p == 0 {
                    assert(m.fa.dests(0, sym) == seq![1usize]);
                } else {
                    assert(m.fa.dests(1, sym) == seq![1usize]);
                }
            }
        }
    }
    Ok(m)
}

/// The first position at or after `i` of a track labelled `l`, or `-1`.
pub open spec fn label_position(labels: Seq<String>, l: Seq<char>, i: int) -> int
    decreases labels.len() - i,
{
    if i < 0 || i >= labels.len() {
        -1
    } else if labels[i]@ == l {
        i
    } else {
        label_position(labels, l, i + 1)
    }
}

proof fn lemma_label_position(labels: Seq<String>, l: Seq<char>, i: int)
    requires
        0 <= i <= labels.len(),
    ensures
        label_position(labels, l, i) == -1 || (i <= label_position(labels, l, i) < labels.len() && labels[label_position(
            labels,
            l,
            i,
        )]@ == l),
        label_position(labels, l, i) == -1 <==> forall|j: int| i <= j < labels.len() ==> labels[j]@ != l,
    decreases labels.len() - i,
{
    if i < labels.len() && labels[i]@ != l {
        lemma_label_position(labels, l, i + 1);
    }
}

/// Where a track labelled `l` first occurs, if one does.
fn find_label(labels: &Vec<String>, l: &String) -> (r: Option<usize>)
    ensures
        r is None <==> label_position(labels@, l@, 0) == -1,
        r is Some ==> r->Some_0 == label_position(labels@, l@, 0),
{
    let mut i: usize = 0;
    while i < labels.len()
        invariant
            i <= labels@.len(),
            label_position(labels@, l@, 0) == label_position(labels@, l@, i as int),
        decreases labels@.len() - i,
    {
        if crate::numsys::same_text(labels[i].as_str(), l.as_str()) {
            return Some(i);
        }
        i = i + 1;
    }
    None
}

/// Some listed label names no track.
pub open spec fn some_label_missing(labels: Seq<String>, list: Seq<String>) -> bool {
    exists|i: int| 0 <= i < list.len() && #[trigger] label_position(labels, list[i]@, 0) == -1
}

/// The track at `n` has no number system, or the word's most significant digit on it is
/// not zero (or the word is empty).
pub open spec fn track_leads_nonzero(a: &Automaton, n: int, w: Seq<i32>) -> bool {
    a.msd@[n] is None || leading_digit_nonzero(alphabet_view(a.alphabet@), w, n, a.msd@[n]->Some_0)
}

/// What [`remove_leading_zeros`] asks of `a`.
pub open spec fn leading_zeros_operand(a: &Automaton) -> bool {
    &&& a.msd@.len() >= a.alphabet@.len()
    &&& a.fa.alphabet_size <= i32::MAX
    &&& a.fa.alphabet_size > 0 ==> forall|k: int| 0 <= k < a.alphabet@.len() ==> #[trigger] a.alphabet@[k]@.len() > 0
    &&& a.fa.true_false is None ==> {
        &&& a.fa.wf()
        &&& a.fa.spec_deterministic()
        &&& a.fa.q0 < a.fa.q
    }
}

/// A copy of `a`.
pub(crate) fn copy_automaton(a: &Automaton) -> (r: Automaton)
    ensures
        r.fa.true_false == a.fa.true_false,
        r.fa.q == a.fa.q,
        r.fa.q0 == a.fa.q0,
        r.fa.alphabet_size == a.fa.alphabet_size,
        r.fa.o@ == a.fa.o@,
        r.fa.d@.len() == a.fa.d@.len(),
        forall|x: int| 0 <= x < a.fa.d@.len() ==> #[trigger] r.fa.d@[x]@ == a.fa.d@[x]@,
        alphabet_view(r.alphabet@) == alphabet_view(a.alphabet@),
        r.label@ == a.label@,
        r.msd@ == a.msd@,
        r.ns_name@ == a.ns_name@,
        r.canonized == a.canonized,
{
    let fa = crate::quotient::copy_fa_with(&a.fa, a.fa.q0, crate::quotient::copy_outputs(&a.fa.o));
    let (alphabet, label, msd) = copy_tracks(a);
    let mut r = Automaton::new(fa, alphabet, label, msd);
    r.set_ns_names(copy_names(a));
    r.set_canonized(a.canonized);
    r
}

/// Restricts `a` to the representations in which at least one of the listed tracks
/// has no leading zero: the union of the per-track automata of
/// [`remove_leading_zeros_helper`], intersected with `a`. Every listed label must name a
/// track (the first that does not is reported); with no labels, `a` is returned as it
/// is. A track is found by the first track with its label.
pub fn remove_leading_zeros(a: &Automaton, list_of_labels: &[String]) -> (r: Result<Automaton, RemoveLeadingZerosError>)
    requires
        leading_zeros_operand(a),
    ensures
        some_label_missing(a.label@, list_of_labels@) ==> r is Err && r->Err_0 is NotFreeVariable,
        !some_label_missing(a.label@, list_of_labels@) && (exists|i: int|
            0 <= i < list_of_labels@.len() && #[trigger] label_position(a.label@, list_of_labels@[i]@, 0)
                >= a.alphabet@.len()) ==> r is Err && exists|i: int|
            #![trigger list_of_labels@[i]]
            0 <= i < list_of_labels@.len() && label_position(a.label@, list_of_labels@[i]@, 0) >= a.alphabet@.len() && r
                == Err::<Automaton, RemoveLeadingZerosError>(
                RemoveLeadingZerosError::InputIndexOutOfRange {
                    n: label_position(a.label@, list_of_labels@[i]@, 0) as usize,
                    inputs: a.alphabet@.len() as usize,
                },
            ) && forall|j: int| 0 <= j < i ==> label_position(a.label@, #[trigger] list_of_labels@[j]@, 0) < a.alphabet@.len(),
        r is Err <==> some_label_missing(a.label@, list_of_labels@) || exists|i: int|
            0 <= i < list_of_labels@.len() && #[trigger] label_position(a.label@, list_of_labels@[i]@, 0)
                >= a.alphabet@.len(),
        r is Err && r->Err_0 is NotFreeVariable ==> exists|i: int|
            #![trigger list_of_labels@[i]]
            0 <= i < list_of_labels@.len() && label_position(a.label@, list_of_labels@[i]@, 0) == -1 && r->Err_0->NotFreeVariable_0@
                == list_of_labels@[i]@ && forall|j: int|
                0 <= j < i ==> label_position(a.label@, #[trigger] list_of_labels@[j]@, 0) != -1,
        r is Ok && list_of_labels@.len() == 0 ==> ({
            let m = r->Ok_0;
            &&& m.fa.true_false == a.fa.true_false
            &&& m.fa.q == a.fa.q
            &&& m.fa.q0 == a.fa.q0
            &&& m.fa.o@ == a.fa.o@
            &&& forall|x: int| 0 <= x < a.fa.d@.len() ==> #[trigger] m.fa.d@[x]@ == a.fa.d@[x]@
            &&& m.fa.alphabet_size == a.fa.alphabet_size
            &&& m.fa.d@.len() == a.fa.d@.len()
            &&& alphabet_view(m.alphabet@) == alphabet_view(a.alphabet@)
            &&& m.label@ == a.label@
            &&& m.msd@ == a.msd@
            &&& m.ns_name@ == a.ns_name@
            &&& m.canonized == a.canonized
        }),
        r is Ok ==> forall|w: Seq<i32>|
            over_alphabet(w, a.fa.alphabet_size as int) && list_of_labels@.len() > 0 ==> (#[trigger] in_language(&r->Ok_0, w)
                <==> in_language(a, w) && exists|i: int|
                0 <= i < list_of_labels@.len() && track_leads_nonzero(
                    a,
                    #[trigger] label_position(a.label@, list_of_labels@[i]@, 0),
                    w,
                )),
{
    let ghost list = list_of_labels@;
    let mut i: usize = 0;
    while i < list_of_labels.len()
        invariant
            i <= list.len(),
            list == list_of_labels@,
            forall|j: int| 0 <= j < i ==> label_position(a.label@, #[trigger] list[j]@, 0) != -1,
        decreases list.len() - i,
    {
        match find_label(&a.label, &list_of_labels[i]) {
            None => {
                let e = RemoveLeadingZerosError::NotFreeVariable(list_of_labels[i].clone());
                return Err(e);
            },
            Some(_) => {},
        }
        i = i + 1;
    }
    if list_of_labels.len() == 0 {
        return Ok(copy_automaton(a));
    }
    let ghost ka = a.fa.alphabet_size as int;
    let ghost alph = alphabet_view(a.alphabet@);
    let mut m = Automaton::true_false(false);
    let mut j: usize = 0;
    while j < list_of_labels.len()
        invariant
            leading_zeros_operand(a),
            list == list_of_labels@,
            forall|t: int| 0 <= t < list.len() ==> label_position(a.label@, #[trigger] list[t]@, 0) != -1,
            ka == a.fa.alphabet_size,
            j <= list.len(),
            j == 0 ==> m.fa.true_false == Some(false),
            j > 0 && m.fa.true_false is Some ==> m.fa.true_false == Some(true),
            m.fa.true_false is None ==> {
                &&& m.fa.wf()
                &&& m.fa.spec_deterministic()
                &&& has_destinations(&m.fa)
                &&& m.fa.q0 < m.fa.q
                &&& m.fa.alphabet_size == a.fa.alphabet_size
                &&& alphabet_view(m.alphabet@) == alphabet_view(a.alphabet@)
            },
            forall|w: Seq<i32>|
                over_alphabet(w, ka) ==> (#[trigger] in_language(&m, w) <==> exists|t: int|
                    0 <= t < j && track_leads_nonzero(a, #[trigger] label_position(a.label@, list[t]@, 0), w)),
            forall|t: int| 0 <= t < j ==> #[trigger] label_position(a.label@, list[t]@, 0) < a.alphabet@.len(),
        decreases list.len() - j,
    {
        let n = match find_label(&a.label, &list_of_labels[j]) {
            Some(n) => n,
            None => {
                proof {
                    assert(label_position(a.label@, list[j as int]@, 0) != -1);
                }
                0
            },
        };
        proof {
            lemma_label_position(a.label@, list[j as int]@, 0);
        }
        let mut h = match remove_leading_zeros_helper(a, n) {
            Ok(h) => h,
            Err(e) => {
                proof {
                    assert(label_position(a.label@, list[j as int]@, 0) >= a.alphabet@.len());
                    assert(!some_label_missing(a.label@, list));
                }
                return Err(e);
            },
        };
        let ghost m0 = m;
        let ghost h0 = h;
        if j == 0 || m.fa.is_true_false_automaton() || h.fa.is_true_false_automaton() {
            if j == 0 || h.fa.is_true_false_automaton() {
                m = h;
            }
        } else {
            m = or(&mut m, &mut h);
        }
        proof {
            assert forall|w: Seq<i32>| over_alphabet(w, ka) implies (#[trigger] in_language(&m, w) <==> exists|t: int|
                0 <= t < j + 1 && track_leads_nonzero(a, #[trigger] label_position(a.label@, list[t]@, 0), w)) by {
                assert(crate::product::is_common_word(&m0, &h0, w));
                if j == 0 {
                    assert(!in_language(&m0, w));
                }
                assert(in_language(&m0, w) <==> exists|t: int|
                    0 <= t < j && track_leads_nonzero(a, #[trigger] label_position(a.label@, list[t]@, 0), w));
                assert(in_language(&h0, w) == track_leads_nonzero(a, n as int, w));
                assert(label_position(a.label@, list[j as int]@, 0) == n);
                if in_language(&m0, w) {
                    let t = choose|t: int| 0 <= t < j && track_leads_nonzero(a, #[trigger] label_position(a.label@, list[t]@, 0), w);
                    assert(0 <= t < j + 1);
                }
                if exists|t: int| 0 <= t < j + 1 && track_leads_nonzero(a, #[trigger] label_position(a.label@, list[t]@, 0), w) {
                    let t = choose|t: int| 0 <= t < j + 1 && track_leads_nonzero(a, #[trigger] label_position(a.label@, list[t]@, 0), w);
                    if t < j {
                        assert(in_language(&m0, w));
                    }
                }
            }
            if m.fa.true_false is None {
                if j > 0 && m0.fa.true_false is None && h0.fa.true_false is None {
                    assert(crate::minimize::is_partial_dfa(&m.fa));
                    assert forall|p: int, sym: i32| 0 <= p < m.fa.q && #[trigger] m.fa.row(p).contains_key(sym) implies m.fa.dests(p, sym).len() > 0 by {
                    }
                    crate::product::lemma_partial_dfa_deterministic(&m.fa);
                }
            }
        }
        j = j + 1;
    }
    let ghost mg = m;
    let r = and(a, &m);
    proof {
        assert forall|w: Seq<i32>| over_alphabet(w, ka) implies (#[trigger] in_language(&r, w) <==> in_language(a, w)
            && exists|i: int|
            0 <= i < list.len() && track_leads_nonzero(a, #[trigger] label_position(a.label@, list[i]@, 0), w)) by {
            assert(crate::product::is_common_word(a, &mg, w));
        }
    }
    Ok(r)
}

} // verus!
