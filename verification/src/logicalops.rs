//! Operations on automata that the logical connectives and number-system conversions
//! are built from: totalization, flipping outputs, closing the accepting set under
//! trailing zeros, the states reachable by leading zeros, pruning transitions into
//! states with a given output, and the names and bases of number systems.

use crate::automaton::Automaton;
use crate::determinize::{
    accepting_set, determinize_from, lemma_nfa_accepts_deterministic, lemma_reversed_accepts, marked, nfa_accepts, nfa_edge,
    nfa_reach, reversed_fa,
};
use crate::fa::{accepts, lemma_run_concat, lemma_run_in_range, lemma_run_same, reachable, run_from, Fa};
use crate::minimize::{is_minimal, is_partial_dfa, lemma_minimal_from_parts, minimize};
use crate::numsys::{base_text, determine_base, digits_value, first_underscore, is_number, is_number_text};
use crate::text::{push_signed, signed_decimal};
use std::collections::{BTreeMap, BTreeSet};
use vstd::arithmetic::power::pow;
use vstd::prelude::*;
use vstd::std_specs::iter::IteratorSpec;
use vstd::string::*;

verus! {

broadcast use {vstd::std_specs::btree::group_btree_axioms, vstd::laws_cmp::group_laws_cmp};

/// Every state has a transition on every symbol `0..alphabet_size`.
pub open spec fn is_total(fa: &Fa) -> bool {
    forall|p: int, sym: i32|
        0 <= p < fa.q && 0 <= sym < fa.alphabet_size ==> #[trigger] fa.row(p).contains_key(sym)
}

/// Routes every missing `(state, symbol)` pair, for symbols `0..alphabet_size`, to a
/// new rejecting sink state that loops on every symbol; the sink is added only when
/// some transition was missing, and existing transitions are left as they are.
pub fn totalize(fa: &mut Fa)
    requires
        old(fa).wf(),
        old(fa).alphabet_size <= i32::MAX,
    ensures
        is_total(final(fa)),
        is_total(old(fa)) ==> *final(fa) == *old(fa),
        !is_total(old(fa)) ==> {
            let n = old(fa).q as int;
            &&& final(fa).q == n + 1
            &&& final(fa).q0 == old(fa).q0
            &&& final(fa).alphabet_size == old(fa).alphabet_size
            &&& final(fa).true_false == old(fa).true_false
            &&& final(fa).o@ == old(fa).o@.push(0)
            &&& final(fa).d@.len() == n + 1
            &&& forall|p: int, sym: i32|
                0 <= p < n ==> #[trigger] final(fa).row(p).contains_key(sym) == (old(fa).row(p).contains_key(
                    sym,
                ) || 0 <= sym < old(fa).alphabet_size)
            &&& forall|p: int, sym: i32|
                0 <= p < n && #[trigger] old(fa).row(p).contains_key(sym) ==> final(fa).row(p)[sym]
                    == old(fa).row(p)[sym]
            &&& forall|p: int, sym: i32|
                0 <= p < n && !old(fa).row(p).contains_key(sym) && 0 <= sym < old(fa).alphabet_size
                    ==> #[trigger] final(fa).dests(p, sym) == seq![n as usize]
            &&& forall|sym: i32| #[trigger]
                final(fa).row(n).contains_key(sym) == (0 <= sym < old(fa).alphabet_size)
            &&& forall|sym: i32|
                0 <= sym < old(fa).alphabet_size ==> #[trigger] final(fa).dests(n, sym) == seq![n as usize]
        },
        final(fa).wf(),
        old(fa).spec_deterministic() ==> final(fa).spec_deterministic(),
        has_destinations(old(fa)) ==> has_destinations(final(fa)),
        old(fa).q0 < old(fa).q ==> forall|w: Seq<i32>| #[trigger] accepts(final(fa), w) == accepts(old(fa), w),
{
    let ghost pre = *fa;
    let n = fa.q;
    let k = fa.alphabet_size as i32;
    let mut missing = false;
    let mut p: usize = 0;
    while p < n
        invariant
            n == pre.q,
            k == pre.alphabet_size,
            fa.q == pre.q,
            fa.q0 == pre.q0,
            fa.alphabet_size == pre.alphabet_size,
            fa.true_false == pre.true_false,
            fa.o == pre.o,
            fa.d@.len() == n,
            p <= n,
            !missing ==> fa.d == pre.d,
            !missing ==> forall|x: int, sym: i32|
                0 <= x < p && 0 <= sym < k ==> #[trigger] pre.row(x).contains_key(sym),
            missing ==> !is_total(&pre),
            forall|x: int| p <= x < n ==> #[trigger] fa.d@[x] == pre.d@[x],
            forall|x: int, sym: i32|
                0 <= x < p ==> #[trigger] fa.row(x).contains_key(sym) == (pre.row(x).contains_key(sym)
                    || 0 <= sym < k),
            forall|x: int, sym: i32|
                0 <= x < p && #[trigger] pre.row(x).contains_key(sym) ==> fa.row(x)[sym] == pre.row(x)[sym],
            forall|x: int, sym: i32|
                0 <= x < p && !pre.row(x).contains_key(sym) && 0 <= sym < k ==> #[trigger] fa.dests(x, sym)
                    == seq![n as usize],
        decreases n - p,
    {
        let ghost f0 = *fa;
        let mut row = fa.d[p].clone();
        let ghost r0 = row@;
        proof {
            assert(r0 == pre.row(p as int));
        }
        let mut sym: i32 = 0;
        let mut changed = false;
        while sym < k
            invariant
                0 <= sym <= k,
                !changed ==> row@ == r0,
                changed ==> exists|s: i32| 0 <= s < k && !r0.contains_key(s),
                !changed ==> forall|s: i32| 0 <= s < sym ==> #[trigger] r0.contains_key(s),
                forall|s: i32| #[trigger] row@.contains_key(s) == (r0.contains_key(s) || 0 <= s < sym),
                forall|s: i32| #[trigger] r0.contains_key(s) ==> row@[s] == r0[s],
                forall|s: i32| !r0.contains_key(s) && 0 <= s < sym ==> #[trigger] row@[s]@ == seq![n as usize],
            decreases k - sym,
        {
            if !row.contains_key(&sym) {
                let mut v: Vec<usize> = Vec::new();
                v.push(n);
                row.insert(sym, v);
                changed = true;
            }
            sym = sym + 1;
        }
        let ghost d0 = fa.d@;
        if changed {
            missing = true;
            fa.d.set(p, row);
            proof {
                assert(!pre.row(p as int).contains_key(choose|s: i32| 0 <= s < k && !r0.contains_key(s)));
            }
        }
        proof {
            assert(fa.row(p as int) == if changed { row@ } else { r0 });
            assert forall|x: int, s: i32|
                0 <= x < p + 1 implies #[trigger] fa.row(x).contains_key(s) == (pre.row(x).contains_key(s)
                    || 0 <= s < k) by {
                if x < p {
                    assert(fa.d@[x] == d0[x]);
                    assert(f0.row(x).contains_key(s) == (pre.row(x).contains_key(s) || 0 <= s < k));
                }
            }
            assert forall|x: int, s: i32|
                0 <= x < p + 1 && #[trigger] pre.row(x).contains_key(s) implies fa.row(x)[s] == pre.row(x)[s] by {
                if x < p {
                    assert(fa.d@[x] == d0[x]);
                    assert(f0.row(x)[s] == pre.row(x)[s]);
                }
            }
            assert forall|x: int, s: i32|
                0 <= x < p + 1 && !pre.row(x).contains_key(s) && 0 <= s < k implies #[trigger] fa.dests(x, s)
                    == seq![n as usize] by {
                if x < p {
                    assert(fa.d@[x] == d0[x]);
                    assert(f0.dests(x, s) == seq![n as usize]);
                }
            }
            assert forall|x: int| p + 1 <= x < n implies #[trigger] fa.d@[x] == pre.d@[x] by {
                assert(fa.d@[x] == d0[x]);
            }
        }
        p = p + 1;
    }
    if missing {
        let mut sink: BTreeMap<i32, Vec<usize>> = BTreeMap::new();
        let mut sym: i32 = 0;
        while sym < k
            invariant
                0 <= sym <= k,
                forall|s: i32| #[trigger] sink@.contains_key(s) == (0 <= s < sym),
                forall|s: i32| 0 <= s < sym ==> #[trigger] sink@[s]@ == seq![n as usize],
            decreases k - sym,
        {
            let mut v: Vec<usize> = Vec::new();
            v.push(n);
            sink.insert(sym, v);
            sym = sym + 1;
        }
        let ghost d1 = fa.d@;
        let ghost f1 = *fa;
        fa.d.push(sink);
        fa.o.push(0);
        fa.q = fa.o.len();
        proof {
            assert forall|x: int, s: i32|
                0 <= x < n implies #[trigger] fa.row(x).contains_key(s) == (pre.row(x).contains_key(s)
                    || 0 <= s < k) by {
                assert(fa.d@[x] == d1[x]);
                assert(f1.row(x).contains_key(s) == (pre.row(x).contains_key(s) || 0 <= s < k));
            }
            assert forall|x: int, s: i32|
                0 <= x < n && #[trigger] pre.row(x).contains_key(s) implies fa.row(x)[s] == pre.row(x)[s] by {
                assert(fa.d@[x] == d1[x]);
                assert(f1.row(x)[s] == pre.row(x)[s]);
            }
            assert forall|x: int, s: i32|
                0 <= x < n && !pre.row(x).contains_key(s) && 0 <= s < k implies #[trigger] fa.dests(x, s)
                    == seq![n as usize] by {
                assert(fa.d@[x] == d1[x]);
                assert(f1.dests(x, s) == seq![n as usize]);
            }
            assert forall|x: int, s: i32|
                0 <= x < fa.q && 0 <= s < fa.alphabet_size implies #[trigger] fa.row(x).contains_key(s) by {
                if x < n {
                    assert(fa.d@[x] == d1[x]);
                    assert(f1.row(x).contains_key(s) == (pre.row(x).contains_key(s) || 0 <= s < k));
                } else {
                    assert(fa.d@[x] == sink);
                }
            }
        }
    } else {
        proof {
            assert(is_total(&pre));
        }
    }
    proof {
        if !is_total(&pre) {
            lemma_totalized_keeps(&pre, fa);
        }
    }
}

/// What totalizing keeps: well-formedness, determinism, destinations and the language.
proof fn lemma_totalized_keeps(f0: &Fa, f1: &Fa)
    requires
        f0.wf(),
        totalized_from(f0, f1),
    ensures
        f1.wf(),
        f0.spec_deterministic() ==> f1.spec_deterministic(),
        has_destinations(f0) ==> has_destinations(f1),
        f0.q0 < f0.q ==> forall|w: Seq<i32>| #[trigger] accepts(f1, w) == accepts(f0, w),
{
    assert forall|p: int, sym: i32, k: int|
        0 <= p < f1.q && f1.row(p).contains_key(sym) && 0 <= k < f1.dests(p, sym).len()
        implies #[trigger] f1.dests(p, sym)[k] < f1.q by {
        if p < f0.q {
            if f0.row(p).contains_key(sym) {
                assert(f1.row(p)[sym] == f0.row(p)[sym]);
                assert(f0.dests(p, sym)[k] < f0.q);
            } else {
                assert(f1.dests(p, sym) == seq![f0.q as usize]);
            }
        } else {
            assert(f1.dests(p, sym) == seq![f0.q as usize]);
        }
    }
    if f0.spec_deterministic() {
        assert forall|p: int, sym: i32|
            0 <= p < f1.d@.len() && #[trigger] f1.row(p).contains_key(sym) implies f1.dests(p, sym).len() <= 1 by {
            if p < f0.q {
                if f0.row(p).contains_key(sym) {
                    assert(f1.row(p)[sym] == f0.row(p)[sym]);
                } else {
                    assert(f1.dests(p, sym) == seq![f0.q as usize]);
                }
            } else {
                assert(f1.dests(p, sym) == seq![f0.q as usize]);
            }
        }
    }
    if has_destinations(f0) {
        assert forall|p: int, sym: i32|
            0 <= p < f1.q && #[trigger] f1.row(p).contains_key(sym) implies f1.dests(p, sym).len() > 0 by {
            if p < f0.q {
                if f0.row(p).contains_key(sym) {
                    assert(f1.row(p)[sym] == f0.row(p)[sym]);
                } else {
                    assert(f1.dests(p, sym) == seq![f0.q as usize]);
                }
            } else {
                assert(f1.dests(p, sym) == seq![f0.q as usize]);
            }
        }
    }
    if f0.q0 < f0.q {
        assert forall|w: Seq<i32>| #[trigger] accepts(f1, w) == accepts(f0, w) by {
            lemma_totalized_accepts(f0, f1, w);
        }
    }
}

/// `after` is `before` with every rejecting state made to output `1` and every
/// accepting state made to output `0`.
pub open spec fn outputs_flipped(before: &Fa, after: &Fa) -> bool {
    &&& after.q == before.q
    &&& after.q0 == before.q0
    &&& after.alphabet_size == before.alphabet_size
    &&& after.true_false == before.true_false
    &&& after.d == before.d
    &&& after.o@.len() == before.o@.len()
    &&& forall|p: int| 0 <= p < before.q ==> #[trigger] after.o@[p] == if before.o@[p] != 0 {
        0i32
    } else {
        1i32
    }
}

/// Flipping the outputs complements the set of accepting states; flipping twice gives
/// every accepting state output `1` and every other state output `0`, so an automaton
/// whose outputs are all `0` or `1` comes back unchanged.
pub proof fn law_flip_output_complements_and_twice_restores(f0: &Fa, f1: &Fa, f2: &Fa)
    requires
        f0.wf(),
        outputs_flipped(f0, f1),
        outputs_flipped(f1, f2),
    ensures
        forall|p: int| 0 <= p < f0.q ==> #[trigger] f1.accepting(p) == !f0.accepting(p),
        forall|p: int| 0 <= p < f0.q ==> #[trigger] f2.o@[p] == if f0.o@[p] != 0 {
            1i32
        } else {
            0i32
        },
        (forall|p: int| 0 <= p < f0.q ==> #[trigger] f0.o@[p] == 0 || f0.o@[p] == 1) ==> f2.o@ == f0.o@,
{
    if forall|p: int| 0 <= p < f0.q ==> #[trigger] f0.o@[p] == 0 || f0.o@[p] == 1 {
        assert(f2.o@ =~= f0.o@);
    }
}

/// Totalizing an automaton that is already total changes nothing, so totalizing twice
/// is the same as totalizing once.
pub proof fn law_totalize_is_idempotent(f1: &Fa, f2: &Fa)
    requires
        is_total(f1),
        is_total(f1) ==> *f2 == *f1,
    ensures
        *f2 == *f1,
        is_total(f2),
{
}

/// Every symbol of `w` is one of `0..k`.
pub open spec fn over_alphabet(w: Seq<i32>, k: int) -> bool {
    forall|i: int| 0 <= i < w.len() ==> 0 <= #[trigger] w[i] < k
}

/// A word read from a state of `fa` along existing transitions uses only symbols that
/// some row of `fa` holds; when every row's symbols are `0..k`, the word is over that
/// alphabet.
pub proof fn lemma_run_symbols(fa: &Fa, p: int, w: Seq<i32>, k: int)
    requires
        fa.wf(),
        0 <= p < fa.q,
        forall|x: int, sym: i32| 0 <= x < fa.q && #[trigger] fa.row(x).contains_key(sym) ==> 0 <= sym < k,
        run_from(fa, p, w) is Some,
    ensures
        over_alphabet(w, k),
    decreases w.len(),
{
    if w.len() > 0 {
        let u = w.drop_last();
        lemma_run_symbols(fa, p, u, k);
        lemma_run_in_range(fa, p, u);
        let r = run_from(fa, p, u)->Some_0;
        assert(fa.row(r).contains_key(w.last()));
        assert forall|i: int| 0 <= i < w.len() implies 0 <= #[trigger] w[i] < k by {
            if i < u.len() {
                assert(w[i] == u[i]);
            }
        }
    }
}

/// Every transition that is present has a destination.
pub open spec fn has_destinations(fa: &Fa) -> bool {
    forall|p: int, sym: i32| 0 <= p < fa.q && #[trigger] fa.row(p).contains_key(sym) ==> fa.dests(p, sym).len() > 0
}

/// What `totalize` does to an automaton that is not total, as its contract states it.
pub open spec fn totalized_from(f0: &Fa, f1: &Fa) -> bool {
    let n = f0.q as int;
    &&& f1.q == n + 1
    &&& f1.q0 == f0.q0
    &&& f1.alphabet_size == f0.alphabet_size
    &&& f1.o@ == f0.o@.push(0)
    &&& f1.d@.len() == n + 1
    &&& forall|p: int, sym: i32|
        0 <= p < n ==> #[trigger] f1.row(p).contains_key(sym) == (f0.row(p).contains_key(sym) || 0 <= sym
            < f0.alphabet_size)
    &&& forall|p: int, sym: i32|
        0 <= p < n && #[trigger] f0.row(p).contains_key(sym) ==> f1.row(p)[sym] == f0.row(p)[sym]
    &&& forall|p: int, sym: i32|
        0 <= p < n && !f0.row(p).contains_key(sym) && 0 <= sym < f0.alphabet_size ==> #[trigger] f1.dests(p, sym)
            == seq![n as usize]
    &&& forall|sym: i32| #[trigger] f1.row(n).contains_key(sym) == (0 <= sym < f0.alphabet_size)
    &&& forall|sym: i32| 0 <= sym < f0.alphabet_size ==> #[trigger] f1.dests(n, sym) == seq![n as usize]
}

/// After totalizing, a run either goes where it went before or, where it had stopped,
/// ends in the new sink (or stops on a symbol outside the alphabet).
pub(crate) proof fn lemma_totalized_run(f0: &Fa, f1: &Fa, p: int, w: Seq<i32>)
    requires
        f0.wf(),
        totalized_from(f0, f1),
        0 <= p < f0.q,
    ensures
        run_from(f0, p, w) is Some ==> run_from(f1, p, w) == run_from(f0, p, w),
        run_from(f0, p, w) is None ==> run_from(f1, p, w) is None || run_from(f1, p, w) == Some(f0.q as int),
    decreases w.len(),
{
    if w.len() > 0 {
        lemma_totalized_run(f0, f1, p, w.drop_last());
        let a = w.last();
        if run_from(f0, p, w.drop_last()) is Some {
            lemma_run_in_range(f0, p, w.drop_last());
            let r = run_from(f0, p, w.drop_last())->Some_0;
            if f0.row(r).contains_key(a) {
                assert(f1.row(r)[a] == f0.row(r)[a]);
            }
        }
    }
}

/// Totalizing keeps the language: the new sink rejects.
proof fn lemma_totalized_accepts(f0: &Fa, f1: &Fa, w: Seq<i32>)
    requires
        f0.wf(),
        totalized_from(f0, f1),
        f0.q0 < f0.q,
    ensures
        accepts(f1, w) == accepts(f0, w),
{
    lemma_totalized_run(f0, f1, f0.q0 as int, w);
    if run_from(f0, f0.q0 as int, w) is Some {
        lemma_run_in_range(f0, f0.q0 as int, w);
    }
}

/// In a total automaton whose transitions all have destinations, every word over the
/// alphabet has a run.
pub(crate) proof fn lemma_total_run(f: &Fa, p: int, w: Seq<i32>)
    requires
        f.wf(),
        is_total(f),
        has_destinations(f),
        0 <= p < f.q,
        over_alphabet(w, f.alphabet_size as int),
    ensures
        run_from(f, p, w) is Some,
    decreases w.len(),
{
    if w.len() > 0 {
        assert(over_alphabet(w.drop_last(), f.alphabet_size as int)) by {
            assert forall|i: int| 0 <= i < w.drop_last().len() implies 0 <= #[trigger] w.drop_last()[i] < f.alphabet_size by {
                assert(w.drop_last()[i] == w[i]);
            }
        }
        lemma_total_run(f, p, w.drop_last());
        lemma_run_in_range(f, p, w.drop_last());
        let r = run_from(f, p, w.drop_last())->Some_0;
        assert(0 <= w[w.len() - 1] < f.alphabet_size);
        assert(f.row(r).contains_key(w.last()));
    }
}

/// Sets every output to `1` where the state rejected and to `0` where it accepted.
pub fn flip_output(fa: &mut Fa)
    requires
        old(fa).wf(),
    ensures
        outputs_flipped(old(fa), final(fa)),
{
    let ghost pre = *fa;
    let n = fa.q;
    let mut p: usize = 0;
    while p < n
        invariant
            n == pre.q,
            fa.q == pre.q,
            fa.q0 == pre.q0,
            fa.alphabet_size == pre.alphabet_size,
            fa.true_false == pre.true_false,
            fa.d == pre.d,
            fa.o@.len() == n,
            p <= n,
            forall|x: int| p <= x < n ==> #[trigger] fa.o@[x] == pre.o@[x],
            forall|x: int| 0 <= x < p ==> #[trigger] fa.o@[x] == if pre.o@[x] != 0 {
                0i32
            } else {
                1i32
            },
        decreases n - p,
    {
        let v: i32 = if fa.is_accepting(p) {
            0
        } else {
            1
        };
        fa.o.set(p, v);
        p = p + 1;
    }
}

/// Minimizes a deterministic automaton; a nondeterministic one is a caller's error.
pub fn just_minimize(fa: &Fa) -> (r: Fa)
    requires
        fa.wf(),
        fa.q > 0,
        fa.q0 < fa.q,
        fa.spec_deterministic(),
    ensures
        is_partial_dfa(&r),
        1 <= r.q <= fa.q,
        r.alphabet_size == fa.alphabet_size,
        r.true_false is None,
        fa.accepts_nothing() ==> crate::minimize::is_empty_language_dfa(&r, fa.alphabet_size),
        forall|w: Seq<i32>| #[trigger] accepts(&r, w) == accepts(fa, w),
        is_minimal(&r),
        (forall|x: int| 0 <= x < fa.q ==> #[trigger] reachable(fa, x)) ==> forall|j: int|
            0 <= j < r.q ==> #[trigger] reachable(&r, j),
{
    match minimize(fa) {
        Ok(m) => {
            proof {
                lemma_minimal_from_parts(fa, &m);
            }
            m
        },
        Err(_) => {
            proof {
                assert(false);
            }
            Fa::with_states(0, 0, 0, Vec::new(), Vec::new())
        },
    }
}

/// Every track of `r1` uses only digits of the same track of `r2`, and both have the
/// same number of tracks.
pub open spec fn subset_alphabet(r1: Seq<Vec<i32>>, r2: Seq<Vec<i32>>) -> bool {
    &&& r1.len() == r2.len()
    &&& forall|i: int, j: int|
        0 <= i < r1.len() && 0 <= j < r1[i]@.len() ==> r2[i]@.contains(#[trigger] r1[i]@[j])
}

/// Whether every track of `r1` uses only digits of the same track of `r2` (in any
/// order), with the same number of tracks.
pub fn is_subset_alphabet(r1: &[Vec<i32>], r2: &[Vec<i32>]) -> (r: bool)
    ensures
        r == subset_alphabet(r1@, r2@),
{
    if r1.len() != r2.len() {
        return false;
    }
    let n = r1.len();
    let mut i: usize = 0;
    while i < n
        invariant
            n == r1@.len(),
            n == r2@.len(),
            i <= n,
            forall|a: int, j: int| 0 <= a < i && 0 <= j < r1@[a]@.len() ==> r2@[a]@.contains(#[trigger] r1@[a]@[j]),
        decreases n - i,
    {
        let t1 = &r1[i];
        let t2 = &r2[i];
        let m = t1.len();
        let mut j: usize = 0;
        while j < m
            invariant
                m == t1@.len(),
                i < n,
                n == r1@.len(),
                n == r2@.len(),
                *t1 == r1@[i as int],
                *t2 == r2@[i as int],
                j <= m,
                forall|j2: int| 0 <= j2 < j ==> t2@.contains(#[trigger] t1@[j2]),
            decreases m - j,
        {
            if !contains_digit(t2, t1[j]) {
                proof {
                    assert(!r2@[i as int]@.contains(r1@[i as int]@[j as int]));
                }
                return false;
            }
            j = j + 1;
        }
        i = i + 1;
    }
    true
}

/// `v` holds `x`.
fn contains_digit(v: &Vec<i32>, x: i32) -> (r: bool)
    ensures
        r == v@.contains(x),
{
    let n = v.len();
    let mut i: usize = 0;
    while i < n
        invariant
            n == v@.len(),
            i <= n,
            forall|j: int| 0 <= j < i ==> v@[j] != x,
        decreases n - i,
    {
        if v[i] == x {
            return true;
        }
        i = i + 1;
    }
    false
}

/// The name of the same number system read in the other direction: `lsd_` when the
/// part before the first `_` is `msd`, `msd_` otherwise, followed by everything after
/// that `_`.
pub open spec fn flipped_name(name: Seq<char>) -> Seq<char> {
    let prefix = name.subrange(0, first_underscore(name));
    (if prefix == "msd"@ {
        "lsd"@
    } else {
        "msd"@
    }) + "_"@ + base_text(name)
}

/// `first_underscore` of a word with no `_` followed by a word that starts with `_`.
proof fn lemma_underscore_after(p: Seq<char>, rest: Seq<char>)
    requires
        forall|i: int| 0 <= i < p.len() ==> #[trigger] p[i] != '_',
        rest.len() > 0,
        rest[0] == '_',
    ensures
        first_underscore(p + rest) == p.len(),
{
    let s = p + rest;
    assert forall|j: int| 0 <= j < p.len() implies #[trigger] s[j] != '_' by {
        assert(s[j] == p[j]);
    }
    assert(s[p.len() as int] == rest[0]);
    crate::numsys::lemma_first_underscore(s, p.len() as int);
}

/// Flipping the direction of a number-system name twice gives the name back, for every
/// name whose part before the first `_` is `msd` or `lsd`.
pub proof fn law_flipped_name_round_trips(name: Seq<char>)
    requires
        first_underscore(name) >= 0,
        name.subrange(0, first_underscore(name)) == "msd"@ || name.subrange(0, first_underscore(name)) == "lsd"@,
    ensures
        flipped_name(flipped_name(name)) == name,
{
    reveal_strlit("msd");
    reveal_strlit("lsd");
    reveal_strlit("_");
    let f = first_underscore(name);
    crate::numsys::lemma_first_underscore_facts(name);
    let d = name.subrange(0, f);
    let b = base_text(name);
    assert(b == name.subrange(f + 1, name.len() as int));
    let d1: Seq<char> = if d == "msd"@ {
        "lsd"@
    } else {
        "msd"@
    };
    let n1 = d1 + "_"@ + b;
    assert(n1 == flipped_name(name));
    assert(d1 + ("_"@ + b) == n1);
    assert forall|i: int| 0 <= i < d1.len() implies #[trigger] d1[i] != '_' by {}
    lemma_underscore_after(d1, "_"@ + b);
    assert(first_underscore(n1) == 3);
    assert(n1.subrange(0, 3) =~= d1);
    assert(base_text(n1) =~= b);
    let d2: Seq<char> = if d1 == "msd"@ {
        "lsd"@
    } else {
        "msd"@
    };
    assert(d2 == d);
    assert(flipped_name(n1) == d2 + "_"@ + b);
    assert(name =~= d + "_"@ + b);
}

/// The name of the other direction has its `_` after three letters, the same base, and
/// the other direction.
pub proof fn lemma_flipped_name_parts(name: Seq<char>)
    requires
        first_underscore(name) >= 0,
    ensures
        first_underscore(flipped_name(name)) == 3,
        base_text(flipped_name(name)) == base_text(name),
        crate::numsys::direction_text(flipped_name(name)) == if crate::numsys::direction_text(name) == "msd"@ {
            "lsd"@
        } else {
            "msd"@
        },
{
    reveal_strlit("msd");
    reveal_strlit("lsd");
    reveal_strlit("_");
    let f = first_underscore(name);
    crate::numsys::lemma_first_underscore_facts(name);
    let d = name.subrange(0, f);
    let b = base_text(name);
    let d1: Seq<char> = if d == "msd"@ {
        "lsd"@
    } else {
        "msd"@
    };
    let n1 = d1 + "_"@ + b;
    assert(n1 == flipped_name(name));
    assert(d1 + ("_"@ + b) == n1);
    assert forall|i: int| 0 <= i < d1.len() implies #[trigger] d1[i] != '_' by {}
    lemma_underscore_after(d1, "_"@ + b);
    assert(n1.subrange(0, 3) =~= d1);
    assert(base_text(n1) =~= b);
}

/// The name of the same number system read in the other direction.
pub fn flipped_ns_name(name: &str) -> (r: String)
    requires
        first_underscore(name@) >= 0,
    ensures
        r@ == flipped_name(name@),
{
    let prefix = match crate::numsys::determine_msd_or_lsd(name) {
        Ok(p) => p,
        Err(_) => {
            proof {
                assert(false);
            }
            name
        },
    };
    let base = determine_base(name);
    let msd = crate::numsys::same_text(prefix, "msd");
    let mut s = if msd {
        String::from_str("lsd")
    } else {
        String::from_str("msd")
    };
    s.append("_");
    s.append(base);
    s
}

/// Drops, from every state, each transition whose first destination is a state with
/// output `min_output`; the states and outputs stay as they are.
pub fn remove_states_with_output_rebuild(fa: &mut Fa, min_output: i32)
    requires
        old(fa).wf(),
    ensures
        final(fa).q == old(fa).q,
        final(fa).q0 == old(fa).q0,
        final(fa).alphabet_size == old(fa).alphabet_size,
        final(fa).true_false == old(fa).true_false,
        final(fa).o == old(fa).o,
        final(fa).d@.len() == old(fa).d@.len(),
        forall|p: int, sym: i32|
            0 <= p < old(fa).q ==> #[trigger] final(fa).row(p).contains_key(sym) == (old(fa).row(p).contains_key(
                sym,
            ) && !(old(fa).dests(p, sym).len() > 0 && old(fa).o@[old(fa).dests(p, sym)[0] as int]
                == min_output)),
        forall|p: int, sym: i32|
            0 <= p < old(fa).q && #[trigger] final(fa).row(p).contains_key(sym) ==> final(fa).dests(p, sym)
                == old(fa).dests(p, sym),
{
    let ghost pre = *fa;
    let n = fa.q;
    let mut p: usize = 0;
    while p < n
        invariant
            n == pre.q,
            pre.wf(),
            fa.q == pre.q,
            fa.q0 == pre.q0,
            fa.alphabet_size == pre.alphabet_size,
            fa.true_false == pre.true_false,
            fa.o == pre.o,
            fa.d@.len() == n,
            p <= n,
            forall|x: int| p <= x < n ==> #[trigger] fa.d@[x] == pre.d@[x],
            forall|x: int, sym: i32|
                0 <= x < p ==> #[trigger] fa.row(x).contains_key(sym) == (pre.row(x).contains_key(sym)
                    && !(pre.dests(x, sym).len() > 0 && pre.o@[pre.dests(x, sym)[0] as int] == min_output)),
            forall|x: int, sym: i32|
                0 <= x < p && #[trigger] fa.row(x).contains_key(sym) ==> fa.dests(x, sym) == pre.dests(x, sym),
        decreases n - p,
    {
        let ghost f0 = *fa;
        let row = &fa.d[p];
        let ghost rem = vstd::std_specs::btree::spec_btree_map_iter(row).remaining();
        let mut kept: BTreeMap<i32, Vec<usize>> = BTreeMap::new();
        for e in it: row.iter()
            invariant
                n == pre.q,
                pre.wf(),
                p < n,
                fa.o == pre.o,
                *row == pre.d@[p as int],
                it.seq() == rem,
                rem == vstd::std_specs::btree::spec_btree_map_iter(row).remaining(),
                rem.no_duplicates(),
                forall|sym: i32| #[trigger] kept@.contains_key(sym) ==> row@.contains_key(sym) && kept@[sym]@
                    == row@[sym]@,
                forall|sym: i32| #[trigger] kept@.contains_key(sym) ==> exists|i: int| 0 <= i < it.index() && *rem[i].0 == sym,
                forall|i: int|
                    #![trigger rem[i]]
                    0 <= i < it.index() ==> (kept@.contains_key(*rem[i].0) <==> !(rem[i].1@.len() > 0
                        && pre.o@[rem[i].1@[0] as int] == min_output)),
        {
            let sym = *e.0;
            let dests = e.1;
            proof {
                assert(e == rem[it.index()]);
                assert(row@.contains_key(*rem[it.index()].0));
                assert(row@[*rem[it.index()].0] == *rem[it.index()].1);
                assert(pre.row(p as int).contains_key(sym));
                if dests@.len() > 0 {
                    assert(pre.dests(p as int, sym)[0] < pre.q);
                }
            }
            let ghost k0 = kept@;
            let drop = dests.len() > 0 && fa.o[dests[0]] == min_output;
            if !drop {
                kept.insert(sym, copy_dests(dests));
            }
            proof {
                assert forall|i: int|
                    #![trigger rem[i]]
                    0 <= i < it.index() + 1 implies (kept@.contains_key(*rem[i].0) <==> !(rem[i].1@.len() > 0
                        && pre.o@[rem[i].1@[0] as int] == min_output)) by {
                    if i < it.index() {
                        assert(rem[i] != rem[it.index() as int]);
                        assert(row@.contains_key(*rem[i].0));
                        assert(row@[*rem[i].0] == *rem[i].1);
                        assert(*rem[i].0 != sym);
                    }
                }
                assert forall|s: i32| #[trigger] kept@.contains_key(s) implies exists|i: int| 0 <= i < it.index() + 1 && *rem[i].0 == s by {
                    if s != sym {
                        assert(k0.contains_key(s));
                    }
                }
            }
        }
        proof {
            assert forall|sym: i32| #[trigger] kept@.contains_key(sym) == (pre.row(p as int).contains_key(sym)
                && !(pre.dests(p as int, sym).len() > 0 && pre.o@[pre.dests(p as int, sym)[0] as int] == min_output)) by {
                if pre.row(p as int).contains_key(sym) {
                    assert(rem.contains((&sym, &row@[sym])));
                    let i = choose|i: int| 0 <= i < rem.len() && rem[i] == (&sym, &row@[sym]);
                    assert(rem[i].1@ == pre.dests(p as int, sym));
                }
                if kept@.contains_key(sym) {
                    let i = choose|i: int| 0 <= i < rem.len() && *rem[i].0 == sym;
                    assert(row@.contains_key(*rem[i].0));
                    assert(row@[*rem[i].0] == *rem[i].1);
                }
            }
        }
        let ghost d0 = fa.d@;
        fa.d.set(p, kept);
        proof {
            assert forall|x: int, s: i32|
                0 <= x < p + 1 implies #[trigger] fa.row(x).contains_key(s) == (pre.row(x).contains_key(s)
                    && !(pre.dests(x, s).len() > 0 && pre.o@[pre.dests(x, s)[0] as int] == min_output)) by {
                if x < p {
                    assert(fa.d@[x] == d0[x]);
                    assert(f0.row(x).contains_key(s) == (pre.row(x).contains_key(s)
                    && !(pre.dests(x, s).len() > 0 && pre.o@[pre.dests(x, s)[0] as int] == min_output)));
                }
            }
            assert forall|x: int, s: i32|
                0 <= x < p + 1 && #[trigger] fa.row(x).contains_key(s) implies fa.dests(x, s) == pre.dests(x, s) by {
                if x < p {
                    assert(fa.d@[x] == d0[x]);
                    assert(f0.row(x).contains_key(s));
                    assert(f0.dests(x, s) == pre.dests(x, s));
                }
            }
            assert forall|x: int| p + 1 <= x < n implies #[trigger] fa.d@[x] == pre.d@[x] by {
                assert(fa.d@[x] == d0[x]);
            }
        }
        p = p + 1;
    }
}

/// A copy of a destination list.
fn copy_dests(v: &Vec<usize>) -> (r: Vec<usize>)
    ensures
        r@ == v@,
{
    let mut r: Vec<usize> = Vec::new();
    let n = v.len();
    let mut i: usize = 0;
    while i < n
        invariant
            n == v@.len(),
            i <= n,
            r@ == v@.take(i as int),
        decreases n - i,
    {
        r.push(v[i]);
        proof {
            assert(v@.take(i + 1) =~= v@.take(i as int).push(v@[i as int]));
        }
        i = i + 1;
    }
    proof {
        assert(v@.take(n as int) =~= v@);
    }
    r
}

/// `i32` keys are ordered the way the maps of this crate need.
proof fn lemma_i32_keys_ordered()
    ensures
        vstd::std_specs::btree::key_obeys_cmp_spec::<i32>(),
{
    assert(vstd::laws_cmp::obeys_cmp::<i32>());
}

/// Every state's transition map has exactly `alphabet_size` symbols.
pub open spec fn has_full_rows(fa: &Fa) -> bool {
    forall|p: int| 0 <= p < fa.q ==> #[trigger] fa.row(p).dom().len() == fa.alphabet_size
}

/// Whether every state's transition map has exactly `alphabet_size` symbols (how many
/// destinations each symbol has, and which symbols they are, is not looked at).
pub fn is_deterministic_and_total_java(fa: &Fa) -> (r: bool)
    requires
        fa.wf(),
    ensures
        r == has_full_rows(fa),
{
    let n = fa.q;
    let mut p: usize = 0;
    while p < n
        invariant
            n == fa.q,
            fa.wf(),
            p <= n,
            forall|x: int| 0 <= x < p ==> #[trigger] fa.row(x).dom().len() == fa.alphabet_size,
        decreases n - p,
    {
        let len = fa.d[p].len();
        proof {
            lemma_i32_keys_ordered();
            assert(len == fa.d@[p as int]@.len());
        }
        if len != fa.alphabet_size {
            proof {
                assert(fa.row(p as int).dom().len() != fa.alphabet_size);
            }
            return false;
        }
        p = p + 1;
    }
    true
}

/// Why the leading zeros of some inputs cannot be removed.
#[derive(Debug, Clone, PartialEq, Eq)]
pub enum RemoveLeadingZerosError {
    /// A variable in the list is not one of the automaton's inputs.
    NotFreeVariable(String),
    /// The input index `n` is past the automaton's `inputs` inputs.
    InputIndexOutOfRange { n: usize, inputs: usize },
}

/// The message that describes `e`.
pub open spec fn remove_leading_zeros_error_text(e: RemoveLeadingZerosError) -> Seq<char> {
    match e {
        RemoveLeadingZerosError::NotFreeVariable(s) => "Variable "@ + s@ + " in the list of quantified variables is not a free variable."@,
        RemoveLeadingZerosError::InputIndexOutOfRange { n, inputs } => "Cannot remove leading zeros for the "@
            + crate::text::decimal((n + 1) as nat) + "-th input when A only has "@ + crate::text::decimal(inputs as nat)
            + " inputs."@,
    }
}

impl RemoveLeadingZerosError {
    /// The message that describes this error.
    pub fn message(&self) -> (r: String)
        requires
            self is InputIndexOutOfRange ==> self->n < u64::MAX,
        ensures
            r@ == remove_leading_zeros_error_text(*self),
    {
        match self {
            RemoveLeadingZerosError::NotFreeVariable(s) => {
                let mut r = String::from_str("Variable ");
                r.append(s.as_str());
                r.append(" in the list of quantified variables is not a free variable.");
                r
            },
            RemoveLeadingZerosError::InputIndexOutOfRange { n, inputs } => {
                let mut r = String::from_str("Cannot remove leading zeros for the ");
                crate::text::push_decimal(&mut r, *n as u64 + 1);
                r.append("-th input when A only has ");
                crate::text::push_decimal(&mut r, *inputs as u64);
                r.append(" inputs.");
                r
            },
        }
    }
}

/// Why an automaton cannot be converted to another number system.
#[derive(Debug, Clone, PartialEq, Eq)]
pub enum ConvertNsError {
    /// The automaton does not have exactly one input.
    NotSingleInput,
    /// The input has no number system.
    NoNumberSystem,
    /// The base is not a decimal number greater than one.
    BaseNotAPositiveInt { found: String },
    /// The base is a decimal number too large for an `i32`.
    BaseOverflowsInt { found: String },
    /// The old and new number systems are the same.
    IdenticalNumberSystems { name: String },
    /// The two bases are not powers of one common root.
    NoCommonRoot,
    /// The automaton is not deterministic and total.
    NotDeterministicAndTotal,
    /// The automaton's base is not the expected power of the root.
    BaseMismatch { expected: i32, found: i32 },
}

/// The message that describes `e`.
pub open spec fn convert_ns_error_text(e: ConvertNsError) -> Seq<char> {
    match e {
        ConvertNsError::NotSingleInput => "Automaton must have exactly one input to be converted."@,
        ConvertNsError::NoNumberSystem => "Cannot invoke \"Automata.NumberSystem.parseBase()\" because \"ns\" is null"@,
        ConvertNsError::BaseNotAPositiveInt { found } => "Base of automaton's number system must be > 1 and int, found: "@
            + found@,
        ConvertNsError::BaseOverflowsInt { found } => "For input string: \""@ + found@ + "\""@,
        ConvertNsError::IdenticalNumberSystems { name } => "New and old number systems are identical: "@ + name@,
        ConvertNsError::NoCommonRoot => "New and old number systems must have bases k^i and k^j for some integer k."@,
        ConvertNsError::NotDeterministicAndTotal => "Automaton must be deterministic for msd_k^j conversion"@,
        ConvertNsError::BaseMismatch { expected, found } => "Base mismatch: expected "@ + signed_decimal(
            expected as int,
        ) + ", found "@ + signed_decimal(found as int),
    }
}

impl ConvertNsError {
    /// The message that describes this error.
    pub fn message(&self) -> (r: String)
        ensures
            r@ == convert_ns_error_text(*self),
    {
        match self {
            ConvertNsError::NotSingleInput => String::from_str("Automaton must have exactly one input to be converted."),
            ConvertNsError::NoNumberSystem => String::from_str(
                "Cannot invoke \"Automata.NumberSystem.parseBase()\" because \"ns\" is null",
            ),
            ConvertNsError::BaseNotAPositiveInt { found } => {
                let mut r = String::from_str("Base of automaton's number system must be > 1 and int, found: ");
                r.append(found.as_str());
                r
            },
            ConvertNsError::BaseOverflowsInt { found } => {
                let mut r = String::from_str("For input string: \"");
                r.append(found.as_str());
                r.append("\"");
                r
            },
            ConvertNsError::IdenticalNumberSystems { name } => {
                let mut r = String::from_str("New and old number systems are identical: ");
                r.append(name.as_str());
                r
            },
            ConvertNsError::NoCommonRoot => String::from_str(
                "New and old number systems must have bases k^i and k^j for some integer k.",
            ),
            ConvertNsError::NotDeterministicAndTotal => String::from_str(
                "Automaton must be deterministic for msd_k^j conversion",
            ),
            ConvertNsError::BaseMismatch { expected, found } => {
                let mut r = String::from_str("Base mismatch: expected ");
                push_signed(&mut r, *expected as i64);
                r.append(", found ");
                push_signed(&mut r, *found as i64);
                r
            },
        }
    }
}

/// The base of a number-system name as an integer greater than one.
pub fn parse_base(name: &str) -> (r: Result<i32, ConvertNsError>)
    ensures
        ({
            let b = base_text(name@);
            &&& !is_number_text(b) ==> r is Err && r->Err_0 is BaseNotAPositiveInt
                && r->Err_0->BaseNotAPositiveInt_found@ == b
            &&& is_number_text(b) && digits_value(b) > i32::MAX ==> r is Err && r->Err_0 is BaseOverflowsInt
                && r->Err_0->BaseOverflowsInt_found@ == b
            &&& is_number_text(b) && digits_value(b) <= 1 ==> r is Err && r->Err_0 is BaseNotAPositiveInt
                && r->Err_0->BaseNotAPositiveInt_found@ == b
            &&& r is Ok <==> is_number_text(b) && 1 < digits_value(b) <= i32::MAX
            &&& r is Ok ==> r->Ok_0 == digits_value(b)
        }),
{
    match crate::numsys::parse_base_of(name) {
        Ok(v) => Ok(v),
        Err(crate::numsys::NumSysError::BaseNotAnI32(found)) => Err(ConvertNsError::BaseOverflowsInt { found }),
        Err(crate::numsys::NumSysError::InvalidBase(found)) => Err(ConvertNsError::BaseNotAPositiveInt { found }),
        Err(_) => {
            proof {
                assert(false);
            }
            Err(ConvertNsError::NoNumberSystem)
        },
    }
}

/// `msd_<base>` or `lsd_<base>`.
pub open spec fn ns_name_text(is_msd: bool, base: int) -> Seq<char> {
    (if is_msd {
        "msd_"@
    } else {
        "lsd_"@
    }) + signed_decimal(base)
}

/// The name `msd_<base>` or `lsd_<base>`.
pub fn ns_name(is_msd: bool, base: i32) -> (r: String)
    ensures
        r@ == ns_name_text(is_msd, base as int),
{
    let mut s = if is_msd {
        String::from_str("msd_")
    } else {
        String::from_str("lsd_")
    };
    push_signed(&mut s, base as i64);
    s
}

/// Every state has, for every symbol `0..alphabet_size`, a transition with at least one
/// destination.
pub open spec fn has_every_symbol(fa: &Fa) -> bool {
    forall|p: int, sym: i32|
        0 <= p < fa.q && 0 <= sym < fa.alphabet_size ==> #[trigger] fa.row(p).contains_key(sym) && fa.dests(
            p,
            sym,
        ).len() > 0
}

/// The transition matrix: entry `[p][sym]` is the first destination of state `p` on
/// symbol `sym`, for every symbol `0..alphabet_size`.
pub fn build_initial_morphism(fa: &Fa) -> (r: Vec<Vec<usize>>)
    requires
        fa.wf(),
        has_every_symbol(fa),
        fa.alphabet_size <= i32::MAX,
    ensures
        r@.len() == fa.q,
        forall|p: int| 0 <= p < fa.q ==> #[trigger] r@[p]@.len() == fa.alphabet_size,
        forall|p: int, sym: int|
            0 <= p < fa.q && 0 <= sym < fa.alphabet_size ==> #[trigger] r@[p]@[sym] == fa.dests(p, sym as i32)[0],
{
    let n = fa.q;
    let k = fa.alphabet_size;
    let mut rows: Vec<Vec<usize>> = Vec::new();
    let mut p: usize = 0;
    while p < n
        invariant
            n == fa.q,
            k == fa.alphabet_size,
            fa.wf(),
            has_every_symbol(fa),
            k <= i32::MAX,
            p <= n,
            rows@.len() == p,
            forall|x: int| 0 <= x < p ==> #[trigger] rows@[x]@.len() == k,
            forall|x: int, sym: int|
                0 <= x < p && 0 <= sym < k ==> #[trigger] rows@[x]@[sym] == fa.dests(x, sym as i32)[0],
        decreases n - p,
    {
        let mut row: Vec<usize> = Vec::new();
        let mut di: usize = 0;
        while di < k
            invariant
                n == fa.q,
                k == fa.alphabet_size,
                fa.wf(),
                has_every_symbol(fa),
                k <= i32::MAX,
                p < n,
                di <= k,
                row@.len() == di,
                forall|sym: int| 0 <= sym < di ==> #[trigger] row@[sym] == fa.dests(p as int, sym as i32)[0],
            decreases k - di,
        {
            let sym = di as i32;
            proof {
                assert(fa.row(p as int).contains_key(sym));
            }
            let dests = fa.d[p].get(&sym).unwrap();
            row.push(dests[0]);
            di = di + 1;
        }
        let ghost r0 = rows@;
        rows.push(row);
        proof {
            assert forall|x: int, sym: int|
                0 <= x < p + 1 && 0 <= sym < k implies #[trigger] rows@[x]@[sym] == fa.dests(x, sym as i32)[0] by {
                if x < p {
                    assert(rows@[x] == r0[x]);
                }
            }
        }
        p = p + 1;
    }
    rows
}

/// The transition table of a matrix: state `p` goes on symbol `sym` to
/// `morphism[p][sym]`.
pub fn build_transitions_from_morphism(fa: &Fa, morphism: &Vec<Vec<usize>>) -> (r: Vec<
    BTreeMap<i32, Vec<usize>>,
>)
    requires
        morphism@.len() >= fa.q,
        forall|p: int| 0 <= p < fa.q ==> #[trigger] morphism@[p]@.len() <= i32::MAX + 1,
    ensures
        r@.len() == fa.q,
        forall|p: int, sym: i32|
            0 <= p < fa.q ==> (#[trigger] r@[p]@.contains_key(sym) <==> 0 <= sym < morphism@[p]@.len()),
        forall|p: int, sym: i32|
            0 <= p < fa.q && 0 <= sym < morphism@[p]@.len() ==> #[trigger] r@[p]@[sym]@ == seq![
                morphism@[p]@[sym as int],
            ],
{
    let n = fa.q;
    let mut rows: Vec<BTreeMap<i32, Vec<usize>>> = Vec::new();
    let mut p: usize = 0;
    while p < n
        invariant
            n == fa.q,
            morphism@.len() >= n,
            forall|x: int| 0 <= x < n ==> #[trigger] morphism@[x]@.len() <= i32::MAX + 1,
            p <= n,
            rows@.len() == p,
            forall|x: int, sym: i32|
                0 <= x < p ==> (#[trigger] rows@[x]@.contains_key(sym) <==> 0 <= sym < morphism@[x]@.len()),
            forall|x: int, sym: i32|
                0 <= x < p && 0 <= sym < morphism@[x]@.len() ==> #[trigger] rows@[x]@[sym]@ == seq![
                    morphism@[x]@[sym as int],
                ],
        decreases n - p,
    {
        let src = &morphism[p];
        let m = src.len();
        let mut row: BTreeMap<i32, Vec<usize>> = BTreeMap::new();
        let mut di: usize = 0;
        while di < m
            invariant
                m == src@.len(),
                m <= i32::MAX + 1,
                di <= m,
                forall|sym: i32| #[trigger] row@.contains_key(sym) <==> 0 <= sym < di,
                forall|sym: i32| 0 <= sym < di ==> #[trigger] row@[sym]@ == seq![src@[sym as int]],
            decreases m - di,
        {
            let mut v: Vec<usize> = Vec::new();
            v.push(src[di]);
            row.insert(di as i32, v);
            proof {
                assert(v@ =~= seq![src@[di as int]]);
            }
            di = di + 1;
        }
        let ghost r0 = rows@;
        rows.push(row);
        proof {
            assert forall|x: int, sym: i32|
                0 <= x < p + 1 implies (#[trigger] rows@[x]@.contains_key(sym) <==> 0 <= sym < morphism@[x]@.len()) by {
                if x < p {
                    assert(rows@[x] == r0[x]);
                }
            }
            assert forall|x: int, sym: i32|
                0 <= x < p + 1 && 0 <= sym < morphism@[x]@.len() implies #[trigger] rows@[x]@[sym]@ == seq![
                    morphism@[x]@[sym as int],
                ] by {
                if x < p {
                    assert(rows@[x] == r0[x]);
                }
            }
        }
        p = p + 1;
    }
    rows
}

/// The first destination of state `p` on symbol `sym`.
pub open spec fn first_dest(fa: &Fa, p: int, sym: int) -> int {
    fa.dests(p, sym as i32)[0] as int
}

/// The state reached from `p` by the `e`-digit word whose value, read most significant
/// digit first in base `alphabet_size`, is `idx` (following first destinations).
pub open spec fn grouped_dest(fa: &Fa, p: int, e: nat, idx: int) -> int
    decreases e,
{
    if e <= 1 {
        first_dest(fa, p, idx)
    } else {
        let k = fa.alphabet_size as int;
        first_dest(fa, grouped_dest(fa, p, (e - 1) as nat, idx / k), idx % k)
    }
}

/// Splitting an index below `k * m` into a quotient below `m` and a digit below `k`.
proof fn lemma_split_index(idx: int, k: int, m: int)
    requires
        k > 0,
        m >= 0,
        0 <= idx < k * m,
    ensures
        0 <= idx / k < m,
        0 <= idx % k < k,
        idx == (idx / k) * k + idx % k,
{
    vstd::arithmetic::div_mod::lemma_fundamental_div_mod(idx, k);
    let q = idx / k;
    let r = idx % k;
    assert(idx == q * k + r) by (nonlinear_arith)
        requires
            idx == k * (idx / k) + (idx % k),
            q == idx / k,
            r == idx % k,
    ;
    assert(0 <= q < m) by (nonlinear_arith)
        requires
            idx == q * k + r,
            0 <= r < k,
            0 <= idx < k * m,
            k > 0,
    ;
}

/// The state reached by a grouped word is a state.
#[verifier::spinoff_prover]
proof fn lemma_grouped_dest_is_state(fa: &Fa, p: int, e: nat, idx: int)
    requires
        fa.wf(),
        has_every_symbol(fa),
        fa.alphabet_size <= i32::MAX,
        0 <= p < fa.q,
        e >= 1,
        0 <= idx < pow(fa.alphabet_size as int, e),
    ensures
        0 <= grouped_dest(fa, p, e, idx) < fa.q,
    decreases e,
{
    let k = fa.alphabet_size as int;
    reveal(pow);
    if e <= 1 {
        assert(e == 1);
        assert(pow(k, 0) == 1);
        assert(pow(k, 1) == k * pow(k, 0));
        assert(idx < k);
        let sym = idx as i32;
        assert(sym as int == idx);
        assert(0 <= sym < fa.alphabet_size);
        assert(fa.row(p).contains_key(sym));
        assert(fa.dests(p, idx as i32)[0] < fa.q);
    } else {
        let m = pow(k, (e - 1) as nat);
        assert(pow(k, e) == k * m);
        vstd::arithmetic::power::lemma_pow_positive(k, (e - 1) as nat);
        lemma_split_index(idx, k, m);
        lemma_grouped_dest_is_state(fa, p, (e - 1) as nat, idx / k);
        let g = grouped_dest(fa, p, (e - 1) as nat, idx / k);
        let sym = (idx % k) as i32;
        assert(sym as int == idx % k);
        assert(0 <= sym < fa.alphabet_size);
        assert(fa.row(g).contains_key(sym));
        assert(fa.dests(g, (idx % k) as i32)[0] < fa.q);
    }
}

/// One more digit per word: row `j` of the result lists, for each entry of row `j` of
/// `prev` in order, that entry's first destinations on the symbols `0..alphabet_size`.
fn extend_morphism(fa: &Fa, prev: &Vec<Vec<usize>>, Ghost(e): Ghost<nat>) -> (r: Vec<Vec<usize>>)
    requires
        fa.wf(),
        has_every_symbol(fa),
        fa.alphabet_size > 0,
        e >= 1,
        pow(fa.alphabet_size as int, e + 1) <= i32::MAX,
        prev@.len() == fa.q,
        forall|j: int|
            0 <= j < fa.q ==> #[trigger] prev@[j]@.len() == pow(fa.alphabet_size as int, e),
        forall|j: int, idx: int|
            0 <= j < fa.q && 0 <= idx < prev@[j]@.len() ==> #[trigger] prev@[j]@[idx] == grouped_dest(fa, j, e, idx),
    ensures
        r@.len() == fa.q,
        forall|j: int|
            0 <= j < fa.q ==> #[trigger] r@[j]@.len() == pow(fa.alphabet_size as int, e + 1),
        forall|j: int, idx: int|
            0 <= j < fa.q && 0 <= idx < r@[j]@.len() ==> #[trigger] r@[j]@[idx] == grouped_dest(fa, j, e + 1, idx),
{
    let n = fa.q;
    let k = fa.alphabet_size;
    let ghost kk = k as int;
    let ghost m = pow(kk, e);
    proof {
        reveal(pow);
        assert(pow(kk, e + 1) == kk * m);
        vstd::arithmetic::power::lemma_pow_positive(kk, e);
        assert(m <= kk * m) by (nonlinear_arith)
            requires
                kk >= 1,
                m >= 1,
        ;
    }
    let mut rows: Vec<Vec<usize>> = Vec::new();
    let mut j: usize = 0;
    while j < n
        invariant
            n == fa.q,
            k == fa.alphabet_size,
            kk == k as int,
            m == pow(kk, e),
            kk * m <= i32::MAX,
            m >= 1,
            kk >= 1,
            e >= 1,
            fa.wf(),
            has_every_symbol(fa),
            prev@.len() == n,
            forall|x: int| 0 <= x < n ==> #[trigger] prev@[x]@.len() == m,
            forall|x: int, idx: int|
                0 <= x < n && 0 <= idx < prev@[x]@.len() ==> #[trigger] prev@[x]@[idx] == grouped_dest(fa, x, e, idx),
            j <= n,
            rows@.len() == j,
            forall|x: int| 0 <= x < j ==> #[trigger] rows@[x]@.len() == kk * m,
            forall|x: int, idx: int|
                0 <= x < j && 0 <= idx < rows@[x]@.len() ==> #[trigger] rows@[x]@[idx] == grouped_dest(
                    fa,
                    x,
                    e + 1,
                    idx,
                ),
        decreases n - j,
    {
        let src_row = &prev[j];
        let len = src_row.len();
        let mut row: Vec<usize> = Vec::new();
        let mut t: usize = 0;
        while t < len
            invariant
                n == fa.q,
                k == fa.alphabet_size,
                kk == k as int,
                m == pow(kk, e),
                kk * m <= i32::MAX,
                m >= 1,
                kk >= 1,
                e >= 1,
                fa.wf(),
                has_every_symbol(fa),
                j < n,
                src_row@ == prev@[j as int]@,
                len == src_row@.len(),
                len == m,
                forall|idx: int| 0 <= idx < len ==> #[trigger] src_row@[idx] == grouped_dest(fa, j as int, e, idx),
                t <= len,
                row@.len() == t * kk,
                forall|idx: int| 0 <= idx < row@.len() ==> #[trigger] row@[idx] == grouped_dest(fa, j as int, e + 1, idx),
            decreases len - t,
        {
            let s = src_row[t];
            proof {
                assert(kk <= kk * m) by (nonlinear_arith)
                    requires
                        kk >= 1,
                        m >= 1,
                ;
                lemma_grouped_dest_is_state(fa, j as int, e, t as int);
                assert(t * kk + kk <= kk * m) by (nonlinear_arith)
                    requires
                        t < m,
                        kk >= 1,
                ;
            }
            let mut di: usize = 0;
            while di < k
                invariant
                    n == fa.q,
                    k == fa.alphabet_size,
                    kk == k as int,
                    m == pow(kk, e),
                    kk * m <= i32::MAX,
                    t * kk + kk <= kk * m,
                    kk >= 1,
                    e >= 1,
                    fa.wf(),
                    has_every_symbol(fa),
                    j < n,
                    t < len,
                    len == m,
                    s == grouped_dest(fa, j as int, e, t as int),
                    0 <= s < n,
                    di <= k,
                    row@.len() == t * kk + di,
                    forall|idx: int|
                        0 <= idx < row@.len() ==> #[trigger] row@[idx] == grouped_dest(fa, j as int, e + 1, idx),
                decreases k - di,
            {
                let sym = di as i32;
                proof {
                    assert(fa.row(s as int).contains_key(sym));
                }
                let dests = fa.d[s].get(&sym).unwrap();
                let ghost before = row@;
                row.push(dests[0]);
                proof {
                    let idx = t * kk + di;
                    vstd::arithmetic::div_mod::lemma_fundamental_div_mod_converse(idx, kk, t as int, di as int);
                    assert(grouped_dest(fa, j as int, e + 1, idx) == first_dest(fa, s as int, di as int));
                    assert forall|x: int| 0 <= x < row@.len() implies #[trigger] row@[x] == grouped_dest(
                        fa,
                        j as int,
                        e + 1,
                        x,
                    ) by {
                        if x < before.len() {
                            assert(row@[x] == before[x]);
                        }
                    }
                }
                di = di + 1;
            }
            t = t + 1;
            proof {
                assert((t - 1) * kk + kk == t * kk) by (nonlinear_arith);
            }
        }
        proof {
            assert(row@.len() == kk * m) by (nonlinear_arith)
                requires
                    row@.len() == t * kk,
                    t == m,
            ;
        }
        let ghost r0 = rows@;
        rows.push(row);
        proof {
            assert forall|x: int, idx: int|
                0 <= x < j + 1 && 0 <= idx < rows@[x]@.len() implies #[trigger] rows@[x]@[idx] == grouped_dest(
                    fa,
                    x,
                    e + 1,
                    idx,
                ) by {
                if x < j {
                    assert(rows@[x] == r0[x]);
                }
            }
            assert forall|x: int| 0 <= x < j + 1 implies #[trigger] rows@[x]@.len() == kk * m by {
                if x < j {
                    assert(rows@[x] == r0[x]);
                }
            }
        }
        j = j + 1;
    }
    rows
}

/// How many digits one symbol groups: `exponent`, and `1` when `exponent` is below `2`.
pub open spec fn group_length(exponent: i32) -> nat {
    if exponent <= 1 {
        1
    } else {
        exponent as nat
    }
}

/// Regroups the transitions so that one symbol stands for `exponent` digits read most
/// significant digit first: the new symbol `v` (for `0 <= v < alphabet_size^exponent`)
/// of state `p` leads where the `exponent`-digit word of value `v` led, following first
/// destinations. The alphabet size itself is left as it is.
pub fn update_transitions_from_morphism(fa: &mut Fa, exponent: i32)
    requires
        old(fa).wf(),
        has_every_symbol(old(fa)),
        has_full_rows(old(fa)),
        pow(old(fa).alphabet_size as int, group_length(exponent)) <= i32::MAX,
    ensures
        final(fa).wf(),
        final(fa).q == old(fa).q,
        final(fa).q0 == old(fa).q0,
        final(fa).alphabet_size == old(fa).alphabet_size,
        final(fa).true_false == old(fa).true_false,
        final(fa).o == old(fa).o,
        forall|p: int, sym: i32|
            0 <= p < old(fa).q ==> (#[trigger] final(fa).row(p).contains_key(sym) <==> 0 <= sym < pow(
                old(fa).alphabet_size as int,
                group_length(exponent),
            )),
        forall|p: int, sym: i32|
            0 <= p < old(fa).q && 0 <= sym < pow(old(fa).alphabet_size as int, group_length(exponent))
                ==> #[trigger] final(fa).dests(p, sym) == seq![grouped_dest(old(fa), p, group_length(exponent), sym as int) as usize],
{
    let ghost f0 = *fa;
    let k = fa.alphabet_size;
    let ghost kk = k as int;
    let ghost ge = group_length(exponent);
    proof {
        reveal(pow);
        assert(pow(kk, 0) == 1);
        assert(pow(kk, 1) == kk * pow(kk, 0));
        if kk > 0 {
            vstd::arithmetic::power::lemma_pow_increases(kk as nat, 1, ge);
        }
    }
    let mut prev = build_initial_morphism(fa);
    let mut i: i32 = 1;
    if k > 0 {
        while i < exponent
            invariant
                *fa == f0,
                k == fa.alphabet_size,
                kk == k as int,
                kk > 0,
                ge == group_length(exponent),
                pow(kk, ge) <= i32::MAX,
                fa.wf(),
                has_every_symbol(fa),
                1 <= i,
                i <= ge,
                prev@.len() == fa.q,
                forall|j: int| 0 <= j < fa.q ==> #[trigger] prev@[j]@.len() == pow(kk, i as nat),
                forall|j: int, idx: int|
                    0 <= j < fa.q && 0 <= idx < prev@[j]@.len() ==> #[trigger] prev@[j]@[idx] == grouped_dest(
                        fa,
                        j,
                        i as nat,
                        idx,
                    ),
            decreases exponent - i,
        {
            proof {
                vstd::arithmetic::power::lemma_pow_increases(kk as nat, (i + 1) as nat, ge);
            }
            prev = extend_morphism(fa, &prev, Ghost(i as nat));
            i = i + 1;
        }
    }
    proof {
        if kk == 0 {
            vstd::arithmetic::power::lemma0_pow(ge);
            assert forall|j: int| 0 <= j < fa.q implies #[trigger] prev@[j]@.len() == pow(kk, ge) by {
                assert(prev@[j]@.len() == kk);
            }
        } else {
            assert(i as nat == ge);
        }
    }
    let rows = build_transitions_from_morphism(fa, &prev);
    fa.d = rows;
    proof {
        assert forall|p: int, sym: i32, t: int|
            0 <= p < fa.q && fa.row(p).contains_key(sym) && 0 <= t < fa.dests(p, sym).len()
            implies #[trigger] fa.dests(p, sym)[t] < fa.q by {
            lemma_grouped_dest_is_state(&f0, p, ge, sym as int);
        }
    }
}

/// `b^e`, or `i32::MAX` when that is larger.
pub open spec fn sat_pow(b: int, e: nat) -> int {
    if pow(b, e) > i32::MAX {
        i32::MAX as int
    } else {
        pow(b, e)
    }
}

/// `base^exponent`, saturated at `i32::MAX`.
pub fn int_pow(base: i32, exponent: i32) -> (r: i32)
    requires
        base >= 0,
        exponent >= 0,
    ensures
        r == sat_pow(base as int, exponent as nat),
        r >= 0,
{
    let b: i64 = base as i64;
    let mut acc: i64 = 1;
    let mut i: i32 = 0;
    proof {
        reveal(pow);
    }
    while i < exponent && acc <= i32::MAX as i64
        invariant
            b == base,
            base >= 0,
            0 <= i <= exponent,
            acc == pow(b as int, i as nat),
            0 <= acc <= 0x4000_0000_0000_0000,
        decreases exponent - i,
    {
        proof {
            reveal(pow);
            assert(acc * b <= 0x4000_0000_0000_0000) by (nonlinear_arith)
                requires
                    0 <= acc <= i32::MAX,
                    0 <= b <= i32::MAX,
            ;
            assert(acc * b >= 0) by (nonlinear_arith)
                requires
                    0 <= acc,
                    0 <= b,
            ;
        }
        let ghost old_acc = acc;
        acc = acc * b;
        i = i + 1;
        proof {
            reveal(pow);
            assert(pow(b as int, i as nat) == b * pow(b as int, (i - 1) as nat));
            assert(acc == b * old_acc) by (nonlinear_arith)
                requires
                    acc == old_acc * b,
            ;
        }
    }
    if acc > i32::MAX as i64 {
        proof {
            if b == 0 || b == 1 {
                vstd::arithmetic::power::lemma1_pow(i as nat);
                if b == 0 && i > 0 {
                    vstd::arithmetic::power::lemma0_pow(i as nat);
                }
                assert(false);
            }
            vstd::arithmetic::power::lemma_pow_increases(b as nat, i as nat, exponent as nat);
        }
        i32::MAX
    } else {
        acc as i32
    }
}

/// The value of the first `n` digits of `digits` read least significant digit first
/// in base `root`, each place value saturated at `i32::MAX`.
pub open spec fn lsd_value(digits: Seq<i32>, root: int, n: nat) -> int
    decreases n,
{
    if n == 0 {
        0
    } else {
        lsd_value(digits, root, (n - 1) as nat) + digits[n - 1] * sat_pow(root, (n - 1) as nat)
    }
}

/// Every place value and every partial sum of `lsd_value` fits in an `i32`.
pub open spec fn lsd_value_fits(digits: Seq<i32>, root: int) -> bool {
    forall|i: int|
        0 <= i < digits.len() ==> {
            &&& i32::MIN <= #[trigger] (digits[i] * sat_pow(root, i as nat)) <= i32::MAX
            &&& i32::MIN <= lsd_value(digits, root, (i + 1) as nat) <= i32::MAX
        }
}

/// The value of a digit list read least significant digit first in base `root`.
pub fn compute_string_value(digits: &[i32], root: i32) -> (r: i32)
    requires
        root >= 0,
        digits@.len() <= i32::MAX,
        lsd_value_fits(digits@, root as int),
    ensures
        r == lsd_value(digits@, root as int, digits@.len()),
{
    let n = digits.len();
    let mut value: i32 = 0;
    let mut i: usize = 0;
    while i < n
        invariant
            n == digits@.len(),
            n <= i32::MAX,
            root >= 0,
            lsd_value_fits(digits@, root as int),
            i <= n,
            value == lsd_value(digits@, root as int, i as nat),
        decreases n - i,
    {
        let p = int_pow(root, i as i32);
        proof {
            assert(i32::MIN <= digits@[i as int] * sat_pow(root as int, i as nat) <= i32::MAX);
            assert(i32::MIN <= lsd_value(digits@, root as int, (i + 1) as nat) <= i32::MAX);
        }
        let place = digits[i] * p;
        value = value + place;
        i = i + 1;
    }
    value
}

/// The alphabet `0..n` of one base-`n` digit.
pub open spec fn digit_range(n: int) -> Seq<i32> {
    Seq::new(n as nat, |i: int| i as i32)
}

/// Makes the automaton a single base-`new_base` track in the given direction: the
/// track's alphabet becomes `0..new_base` and the automaton's alphabet size `new_base`.
pub fn set_number_system_and_alphabet(a: &mut Automaton, is_msd: bool, new_base: i32)
    requires
        new_base >= 0,
    ensures
        final(a).msd@ == seq![Some(is_msd)],
        final(a).alphabet@.len() == 1,
        final(a).alphabet@[0]@ == digit_range(new_base as int),
        final(a).fa.alphabet_size == new_base,
        final(a).fa.q == old(a).fa.q,
        final(a).fa.q0 == old(a).fa.q0,
        final(a).fa.true_false == old(a).fa.true_false,
        final(a).fa.o == old(a).fa.o,
        final(a).fa.d == old(a).fa.d,
        final(a).label == old(a).label,
        final(a).canonized == old(a).canonized,
{
    let mut msd: Vec<Option<bool>> = Vec::new();
    msd.push(Some(is_msd));
    a.msd = msd;
    let mut digits: Vec<i32> = Vec::new();
    let mut i: i32 = 0;
    while i < new_base
        invariant
            0 <= i <= new_base,
            digits@ == digit_range(i as int),
        decreases new_base - i,
    {
        digits.push(i);
        i = i + 1;
        proof {
            assert(digits@ =~= digit_range(i as int));
        }
    }
    let mut alphabet: Vec<Vec<i32>> = Vec::new();
    alphabet.push(digits);
    a.alphabet = alphabet;
    a.fa.alphabet_size = new_base as usize;
    proof {
        assert(a.msd@ =~= seq![Some(is_msd)]);
    }
}

/// Groups `exponent` consecutive base-`base` digits (read most significant digit first)
/// into one base-`base^exponent` digit. Refused, with nothing changed, unless every
/// state's transition map has exactly `alphabet_size` symbols.
pub fn convert_msd_base_to_exponent(a: &mut Automaton, base: i32, exponent: i32) -> (r: Result<
    (),
    ConvertNsError,
>)
    requires
        old(a).fa.wf(),
        has_full_rows(&old(a).fa) ==> has_every_symbol(&old(a).fa),
        pow(old(a).fa.alphabet_size as int, group_length(exponent)) <= i32::MAX,
        base >= 0,
        exponent >= 0,
    ensures
        !has_full_rows(&old(a).fa) ==> r == Err::<(), ConvertNsError>(ConvertNsError::NotDeterministicAndTotal)
            && *final(a) == *old(a),
        has_full_rows(&old(a).fa) ==> {
            let k = old(a).fa.alphabet_size as int;
            let ge = group_length(exponent);
            &&& r is Ok
            &&& final(a).fa.wf()
            &&& final(a).fa.q == old(a).fa.q
            &&& final(a).fa.q0 == old(a).fa.q0
            &&& final(a).fa.o == old(a).fa.o
            &&& final(a).fa.true_false == old(a).fa.true_false
            &&& final(a).fa.alphabet_size == sat_pow(base as int, exponent as nat)
            &&& forall|p: int, sym: i32|
                0 <= p < old(a).fa.q ==> (#[trigger] final(a).fa.row(p).contains_key(sym) <==> 0 <= sym < pow(k, ge))
            &&& forall|p: int, sym: i32|
                0 <= p < old(a).fa.q && 0 <= sym < pow(k, ge) ==> #[trigger] final(a).fa.dests(p, sym) == seq![
                    grouped_dest(&old(a).fa, p, ge, sym as int) as usize,
                ]
            &&& final(a).msd@ == seq![Some(true)]
            &&& final(a).alphabet@.len() == 1
            &&& final(a).alphabet@[0]@ == digit_range(sat_pow(base as int, exponent as nat))
            &&& final(a).label == old(a).label
            &&& final(a).canonized == old(a).canonized
            &&& k >= 1 && old(a).fa.q0 < old(a).fa.q ==> forall|w: Seq<i32>|
                over_alphabet(w, pow(k, ge)) ==> #[trigger] output_on(&final(a).fa, w) == output_on(
                    &old(a).fa,
                    msd_expanded(w, k, ge),
                )
        },
{
    if !is_deterministic_and_total_java(&a.fa) {
        return Err(ConvertNsError::NotDeterministicAndTotal);
    }
    let ghost f0 = a.fa;
    let new_base = int_pow(base, exponent);
    update_transitions_from_morphism(&mut a.fa, exponent);
    let ghost f1 = a.fa;
    set_number_system_and_alphabet(a, true, new_base);
    proof {
        assert forall|p: int, sym: i32, t: int|
            0 <= p < a.fa.q && a.fa.row(p).contains_key(sym) && 0 <= t < a.fa.dests(p, sym).len()
            implies #[trigger] a.fa.dests(p, sym)[t] < a.fa.q by {
            assert(f1.row(p).contains_key(sym));
            assert(f1.dests(p, sym)[t] < f1.q);
        }
        assert forall|p: int| 0 <= p < a.fa.q implies #[trigger] a.fa.row(p) == f1.row(p) by {
            assert(a.fa.d@[p] == f1.d@[p]);
        }
        assert forall|p: int, sym: i32| 0 <= p < a.fa.q implies #[trigger] a.fa.dests(p, sym) == f1.dests(p, sym) by {
            assert(a.fa.d@[p] == f1.d@[p]);
        }
    }
    proof {
        let k = f0.alphabet_size as int;
        let ge = group_length(exponent);
        if k >= 1 && f0.q0 < f0.q {
            vstd::arithmetic::power::lemma_pow_increases(k as nat, 1, ge);
            vstd::arithmetic::power::lemma_pow1(k);
            assert(grouped_rows(&f0, &a.fa, ge));
            assert forall|w: Seq<i32>| over_alphabet(w, pow(k, ge)) implies #[trigger] output_on(&a.fa, w) == output_on(
                &f0,
                msd_expanded(w, k, ge),
            ) by {
                law_msd_grouping_expands(&f0, &a.fa, ge, w);
            }
        }
    }
    Ok(())
}

/// Every state has, for every symbol below `n`, a transition with a destination.
pub open spec fn covers_symbols(fa: &Fa, n: int) -> bool {
    forall|p: int, sym: i32|
        0 <= p < fa.q && 0 <= sym < n ==> #[trigger] fa.row(p).contains_key(sym) && fa.dests(p, sym).len() > 0
}

/// The pair of the ungrouped automaton reached from `(s, w)` on the digit `di`: the
/// digit is appended while fewer than `e - 1` digits are pending; otherwise the
/// completed group of `e` digits (least significant first) is read from `s` and
/// nothing is pending any more.
pub open spec fn lsd_pair_step(fa: &Fa, root: int, e: int, s: int, w: Seq<i32>, di: int) -> (int, Seq<i32>) {
    if w.len() < e - 1 {
        (s, w.push(di as i32))
    } else {
        (first_dest(fa, s, lsd_value(w.push(di as i32), root, w.len() + 1)), Seq::<i32>::empty())
    }
}

/// The output of the pair `(s, w)`: that of `s` when nothing is pending, otherwise that
/// of the state the pending digits (with zeros above them) lead to from `s`.
pub open spec fn lsd_pair_output(fa: &Fa, root: int, s: int, w: Seq<i32>) -> i32 {
    if w.len() == 0 {
        fa.o@[s]
    } else {
        fa.o@[first_dest(fa, s, lsd_value(w, root, w.len()))]
    }
}

/// A pair of the ungrouped automaton: a state, and at most `e - 1` pending digits below
/// `root` (none at all when `e` is `0`).
pub open spec fn lsd_pair_valid(q: int, root: int, e: int, pr: (int, Seq<i32>)) -> bool {
    &&& 0 <= pr.0 < q
    &&& pr.1.len() == 0 || pr.1.len() <= e - 1
    &&& forall|t: int| 0 <= t < pr.1.len() ==> 0 <= #[trigger] pr.1[t] < root
}

/// How many pairs a pair with `l` pending digits stands for, itself included, before
/// its descendants complete a group.
pub open spec fn lsd_pair_weight(root: nat, e: int, l: int) -> nat
    decreases e - l,
{
    if l >= e - 1 {
        1
    } else {
        1 + root * lsd_pair_weight(root, e, l + 1)
    }
}

/// The total weight of the pairs `pairs[from..to]`.
pub open spec fn lsd_weight_sum(pairs: Seq<(int, Seq<i32>)>, root: nat, e: int, from: int, to: int) -> nat
    decreases to - from,
{
    if to <= from {
        0
    } else {
        lsd_weight_sum(pairs, root, e, from, to - 1) + lsd_pair_weight(root, e, pairs[to - 1].1.len() as int)
    }
}

/// The number of `None` entries.
pub open spec fn count_none(s: Seq<Option<usize>>) -> nat
    decreases s.len(),
{
    if s.len() == 0 {
        0
    } else {
        count_none(s.drop_last()) + if s.last() is None {
            1nat
        } else {
            0nat
        }
    }
}

proof fn lemma_count_none_set(s: Seq<Option<usize>>, i: int, v: usize)
    requires
        0 <= i < s.len(),
        s[i] is None,
    ensures
        count_none(s.update(i, Some(v))) + 1 == count_none(s),
    decreases s.len(),
{
    let t = s.update(i, Some(v));
    if i == s.len() - 1 {
        assert(t.drop_last() =~= s.drop_last());
    } else {
        assert(t.drop_last() =~= s.drop_last().update(i, Some(v)));
        lemma_count_none_set(s.drop_last(), i, v);
    }
}

/// The weight sum depends only on the pairs in its range.
proof fn lemma_weight_sum_frame(p1: Seq<(int, Seq<i32>)>, p2: Seq<(int, Seq<i32>)>, root: nat, e: int, from: int, to: int)
    requires
        0 <= from,
        to <= p1.len(),
        to <= p2.len(),
        forall|k: int| from <= k < to ==> #[trigger] p1[k] == p2[k],
    ensures
        lsd_weight_sum(p1, root, e, from, to) == lsd_weight_sum(p2, root, e, from, to),
    decreases to - from,
{
    if to > from {
        lemma_weight_sum_frame(p1, p2, root, e, from, to - 1);
        assert(p1[to - 1] == p2[to - 1]);
    }
}

/// Dropping the first pair of the range takes its weight off the sum.
proof fn lemma_weight_sum_front(pairs: Seq<(int, Seq<i32>)>, root: nat, e: int, from: int, to: int)
    requires
        0 <= from < to,
    ensures
        lsd_weight_sum(pairs, root, e, from, to) == lsd_pair_weight(root, e, pairs[from].1.len() as int)
            + lsd_weight_sum(pairs, root, e, from + 1, to),
    decreases to - from,
{
    if to - 1 > from {
        lemma_weight_sum_front(pairs, root, e, from, to - 1);
        assert(lsd_weight_sum(pairs, root, e, from + 1, to) == lsd_weight_sum(pairs, root, e, from + 1, to - 1)
            + lsd_pair_weight(root, e, pairs[to - 1].1.len() as int));
    } else {
        assert(lsd_weight_sum(pairs, root, e, from, from) == 0);
        assert(lsd_weight_sum(pairs, root, e, from + 1, to) == 0);
    }
}

/// The value of pending digits below `root` stays below `root` to the number of digits,
/// and every place value and partial sum is exact.
proof fn lemma_lsd_value_bound(w: Seq<i32>, root: int, k: nat)
    requires
        root >= 1,
        k <= w.len(),
        forall|t: int| 0 <= t < w.len() ==> 0 <= #[trigger] w[t] < root,
        pow(root, k) <= i32::MAX,
    ensures
        0 <= lsd_value(w, root, k) < pow(root, k),
    decreases k,
{
    reveal(pow);
    if k > 0 {
        let k1 = (k - 1) as nat;
        vstd::arithmetic::power::lemma_pow_positive(root, k1);
        assert(pow(root, k) == root * pow(root, k1));
        assert(pow(root, k1) <= pow(root, k)) by (nonlinear_arith)
            requires
                pow(root, k) == root * pow(root, k1),
                root >= 1,
                pow(root, k1) > 0,
        ;
        lemma_lsd_value_bound(w, root, k1);
        let d = w[k - 1];
        let v = lsd_value(w, root, k1);
        let p = pow(root, k1);
        assert(sat_pow(root, k1) == p);
        assert(0 <= v + d * p < root * p) by (nonlinear_arith)
            requires
                0 <= v < p,
                0 <= d < root,
                p > 0,
        ;
    }
}

/// The pending digits of a valid pair can be valued without overflow.
proof fn lemma_lsd_value_fits(w: Seq<i32>, root: int, e: int)
    requires
        root >= 1,
        e >= 0,
        w.len() <= e,
        forall|t: int| 0 <= t < w.len() ==> 0 <= #[trigger] w[t] < root,
        pow(root, e as nat) <= i32::MAX,
    ensures
        lsd_value_fits(w, root),
        0 <= lsd_value(w, root, w.len()) < pow(root, w.len()),
        pow(root, w.len()) <= pow(root, e as nat),
{
    vstd::arithmetic::power::lemma_pow_increases(root as nat, w.len(), e as nat);
    lemma_lsd_value_bound(w, root, w.len());
    assert forall|i: int| 0 <= i < w.len() implies {
        &&& i32::MIN <= #[trigger] (w[i] * sat_pow(root, i as nat)) <= i32::MAX
        &&& i32::MIN <= lsd_value(w, root, (i + 1) as nat) <= i32::MAX
    } by {
        vstd::arithmetic::power::lemma_pow_increases(root as nat, (i + 1) as nat, w.len());
        vstd::arithmetic::power::lemma_pow_increases(root as nat, i as nat, w.len());
        lemma_lsd_value_bound(w, root, (i + 1) as nat);
        reveal(pow);
        let p = pow(root, i as nat);
        vstd::arithmetic::power::lemma_pow_positive(root, i as nat);
        assert(pow(root, (i + 1) as nat) == root * p);
        assert(sat_pow(root, i as nat) == p);
        assert(0 <= w[i] * p < root * p) by (nonlinear_arith)
            requires
                0 <= w[i] < root,
                p > 0,
        ;
    }
}

/// The first destination of `s` on `v`.
fn jump(fa: &Fa, s: usize, v: i32) -> (r: usize)
    requires
        fa.wf(),
        s < fa.q,
        fa.row(s as int).contains_key(v),
        fa.dests(s as int, v).len() > 0,
    ensures
        r == first_dest(fa, s as int, v as int),
        r < fa.q,
{
    let dests = fa.d[s].get(&v).unwrap();
    dests[0]
}

/// A copy of a digit list.
fn copy_digits(v: &Vec<i32>) -> (r: Vec<i32>)
    ensures
        r@ == v@,
{
    let mut r: Vec<i32> = Vec::new();
    let n = v.len();
    let mut i: usize = 0;
    while i < n
        invariant
            n == v@.len(),
            i <= n,
            r@ == v@.take(i as int),
        decreases n - i,
    {
        r.push(v[i]);
        proof {
            assert(v@.take(i + 1) =~= v@.take(i as int).push(v@[i as int]));
        }
        i = i + 1;
    }
    proof {
        assert(v@.take(n as int) =~= v@);
    }
    r
}

/// The pair at `k` is the step on the digit `di` from the earlier pair at `j`.
pub open spec fn lsd_reached_from(f0: &Fa, rt: int, e: int, pairs: Seq<(int, Seq<i32>)>, k: int, j: int, di: int) -> bool {
    0 <= j < k && 0 <= di < rt && pairs[k] == lsd_pair_step(f0, rt, e, pairs[j].0, pairs[j].1, di)
}

/// The pair at `k` is a step from an earlier pair.
pub open spec fn lsd_reached(f0: &Fa, rt: int, e: int, pairs: Seq<(int, Seq<i32>)>, k: int) -> bool {
    exists|j: int, di: int| #[trigger] lsd_reached_from(f0, rt, e, pairs, k, j, di)
}

/// The structural facts of the pair search: the pairs are the states' views, the first
/// is the start state with nothing pending, they are valid and pairwise different,
/// `empty` indexes exactly the pairs with nothing pending, and every later pair is a
/// step from an earlier one.
#[verifier::opaque]
pub open spec fn lsd_search_core(
    f0: &Fa,
    rt: int,
    e: int,
    pairs: Seq<(int, Seq<i32>)>,
    states: Seq<(usize, Vec<i32>)>,
    empty: Seq<Option<usize>>,
) -> bool {
    &&& pairs.len() == states.len()
    &&& pairs.len() >= 1
    &&& forall|k: int| 0 <= k < pairs.len() ==> #[trigger] pairs[k] == (states[k].0 as int, states[k].1@)
    &&& pairs[0] == (f0.q0 as int, Seq::<i32>::empty())
    &&& empty.len() == f0.q
    &&& forall|t: int|
        0 <= t < f0.q && (#[trigger] empty[t]) is Some ==> empty[t]->0 < pairs.len() && pairs[empty[t]->0 as int] == (
            t,
            Seq::<i32>::empty(),
        )
    &&& forall|k: int|
        0 <= k < pairs.len() && (#[trigger] pairs[k]).1.len() == 0 ==> empty[pairs[k].0] == Some(k as usize)
    &&& forall|k1: int, k2: int| 0 <= k1 < k2 < pairs.len() ==> #[trigger] pairs[k1] != #[trigger] pairs[k2]
    &&& forall|k: int| 0 <= k < pairs.len() ==> #[trigger] lsd_pair_valid(f0.q as int, rt, e, pairs[k])
    &&& forall|k: int| 1 <= k < pairs.len() ==> #[trigger] lsd_reached(f0, rt, e, pairs, k)
}

/// The finished table: `f1` is the automaton of the pairs `pairs`, whose first pair is
/// the start state of `f0` with nothing pending, each pair appearing once, each reached
/// by a step from an earlier one, with one transition per digit below `root` to the
/// stepped pair and the output of `lsd_pair_output`.
pub open spec fn lsd_pair_table(f0: &Fa, f1: &Fa, rt: int, e: int, pairs: Seq<(int, Seq<i32>)>) -> bool {
    &&& pairs.len() == f1.q
    &&& f1.wf()
    &&& pairs.len() >= 1
    &&& pairs[0] == (f0.q0 as int, Seq::<i32>::empty())
    &&& forall|k1: int, k2: int| 0 <= k1 < k2 < pairs.len() ==> #[trigger] pairs[k1] != #[trigger] pairs[k2]
    &&& forall|k: int| 0 <= k < pairs.len() ==> #[trigger] lsd_pair_valid(f0.q as int, rt, e, pairs[k])
    &&& forall|k: int| 1 <= k < pairs.len() ==> #[trigger] lsd_reached(f0, rt, e, pairs, k)
    &&& forall|k: int, sym: i32| 0 <= k < pairs.len() ==> (#[trigger] f1.row(k).contains_key(sym) <==> 0 <= sym < rt)
    &&& forall|k: int, di: int|
        0 <= k < pairs.len() && 0 <= di < rt ==> #[trigger] f1.dests(k, di as i32).len() == 1 && pairs[f1.dests(k, di as i32)[0] as int]
            == lsd_pair_step(f0, rt, e, pairs[k].0, pairs[k].1, di)
    &&& forall|k: int| 0 <= k < pairs.len() ==> #[trigger] f1.o@[k] == lsd_pair_output(f0, rt, pairs[k].0, pairs[k].1)
}

/// The pair `pr` with its last pending digit dropped.
pub open spec fn lsd_parent(pr: (int, Seq<i32>)) -> (int, Seq<i32>) {
    (pr.0, pr.1.drop_last())
}

/// Every pair with pending digits was added by a pair before `idx`, or by the pair at
/// `idx` on a digit below `di`.
#[verifier::opaque]
pub open spec fn lsd_parents_seen(pairs: Seq<(int, Seq<i32>)>, idx: int, di: int) -> bool {
    forall|k: int|
        0 <= k < pairs.len() && (#[trigger] pairs[k]).1.len() > 0 ==> (exists|p: int|
            0 <= p < idx && pairs[p] == lsd_parent(pairs[k])) || (lsd_parent(pairs[k]) == pairs[idx] && pairs[k].1.last()
            < di)
}

/// The measure of the pair search: the weights of the pairs from `from` on, and the
/// weight of a fresh start for every state not yet reached with nothing pending.
pub open spec fn lsd_measure(pairs: Seq<(int, Seq<i32>)>, rn: nat, e: int, from: int, empty: Seq<Option<usize>>) -> int {
    (lsd_weight_sum(pairs, rn, e, from, pairs.len() as int) + count_none(empty) * lsd_pair_weight(rn, e, 0)) as int
}

/// The rows and outputs of the pairs before `idx` are done.
#[verifier::opaque]
pub open spec fn lsd_rows_done(
    f0: &Fa,
    rt: int,
    e: int,
    pairs: Seq<(int, Seq<i32>)>,
    new_d: Seq<BTreeMap<i32, Vec<usize>>>,
    new_o: Seq<i32>,
    idx: int,
) -> bool {
    &&& new_d.len() == idx
    &&& new_o.len() == idx
    &&& forall|j: int, sym: i32| 0 <= j < idx ==> (#[trigger] new_d[j]@.contains_key(sym) <==> 0 <= sym < rt)
    &&& forall|j: int, di: int|
        0 <= j < idx && 0 <= di < rt ==> #[trigger] new_d[j]@[di as i32]@.len() == 1 && new_d[j]@[di as i32]@[0]
            < pairs.len() && pairs[new_d[j]@[di as i32]@[0] as int] == lsd_pair_step(f0, rt, e, pairs[j].0, pairs[j].1, di)
    &&& forall|j: int| 0 <= j < idx ==> #[trigger] new_o[j] == lsd_pair_output(f0, rt, pairs[j].0, pairs[j].1)
}

/// What the search's structure says of one pair and of the pair count.
proof fn lemma_core_facts(
    f0: &Fa,
    rt: int,
    e: int,
    pairs: Seq<(int, Seq<i32>)>,
    states: Seq<(usize, Vec<i32>)>,
    empty: Seq<Option<usize>>,
    idx: int,
)
    requires
        lsd_search_core(f0, rt, e, pairs, states, empty),
        0 <= idx < pairs.len(),
    ensures
        pairs.len() == states.len(),
        empty.len() == f0.q,
        pairs[idx] == (states[idx].0 as int, states[idx].1@),
        lsd_pair_valid(f0.q as int, rt, e, pairs[idx]),
{
    reveal(lsd_search_core);
}

/// The pair count is the number of states of the search.
proof fn lemma_core_len(
    f0: &Fa,
    rt: int,
    e: int,
    pairs: Seq<(int, Seq<i32>)>,
    states: Seq<(usize, Vec<i32>)>,
    empty: Seq<Option<usize>>,
)
    requires
        lsd_search_core(f0, rt, e, pairs, states, empty),
    ensures
        pairs.len() == states.len(),
        pairs.len() >= 1,
{
    reveal(lsd_search_core);
}

/// Adding the row and output of the pair at `idx`.
#[verifier::spinoff_prover]
#[verifier::rlimit(40)]
proof fn lemma_rows_done_push(
    f0: &Fa,
    rt: int,
    e: int,
    pairs: Seq<(int, Seq<i32>)>,
    nd: Seq<BTreeMap<i32, Vec<usize>>>,
    no: Seq<i32>,
    idx: int,
    row: BTreeMap<i32, Vec<usize>>,
    out: i32,
)
    requires
        lsd_rows_done(f0, rt, e, pairs, nd, no, idx),
        0 <= idx < pairs.len(),
        forall|sym: i32| #[trigger] row@.contains_key(sym) <==> 0 <= sym < rt,
        forall|d: int|
            0 <= d < rt ==> #[trigger] row@[d as i32]@.len() == 1 && row@[d as i32]@[0] < pairs.len() && pairs[row@[d
                as i32]@[0] as int] == lsd_pair_step(f0, rt, e, pairs[idx].0, pairs[idx].1, d),
        out == lsd_pair_output(f0, rt, pairs[idx].0, pairs[idx].1),
    ensures
        lsd_rows_done(f0, rt, e, pairs, nd.push(row), no.push(out), idx + 1),
{
    reveal(lsd_rows_done);
    let nd1 = nd.push(row);
    let no1 = no.push(out);
    assert forall|j: int, sym: i32| 0 <= j < idx + 1 implies (#[trigger] nd1[j]@.contains_key(sym) <==> 0 <= sym < rt) by {
        if j < idx {
            assert(nd1[j] == nd[j]);
        }
    }
    assert forall|j: int, d: int|
        0 <= j < idx + 1 && 0 <= d < rt implies #[trigger] nd1[j]@[d as i32]@.len() == 1 && nd1[j]@[d as i32]@[0]
        < pairs.len() && pairs[nd1[j]@[d as i32]@[0] as int] == lsd_pair_step(f0, rt, e, pairs[j].0, pairs[j].1, d) by {
        if j < idx {
            assert(nd1[j] == nd[j]);
            assert(nd[j]@[d as i32]@.len() == 1);
        } else {
            assert(nd1[j] == row);
            assert(row@[d as i32]@.len() == 1);
        }
    }
    assert forall|j: int| 0 <= j < idx + 1 implies #[trigger] no1[j] == lsd_pair_output(f0, rt, pairs[j].0, pairs[j].1) by {
        if j < idx {
            assert(no1[j] == no[j]);
        }
    }
}

/// The finished search is the table of its pairs.
#[verifier::rlimit(60)]
proof fn lemma_search_table(
    f0: &Fa,
    f1: &Fa,
    rt: int,
    e: int,
    pairs: Seq<(int, Seq<i32>)>,
    states: Seq<(usize, Vec<i32>)>,
    empty: Seq<Option<usize>>,
)
    requires
        lsd_search_core(f0, rt, e, pairs, states, empty),
        lsd_rows_done(f0, rt, e, pairs, f1.d@, f1.o@, pairs.len() as int),
        f1.q == pairs.len(),
        rt <= i32::MAX + 1,
    ensures
        lsd_pair_table(f0, f1, rt, e, pairs),
{
    reveal(lsd_search_core);
    reveal(lsd_rows_done);
    assert forall|k: int, sym: i32| 0 <= k < pairs.len() implies (#[trigger] f1.row(k).contains_key(sym) <==> 0 <= sym < rt) by {
        assert(f1.d@[k]@.contains_key(sym) <==> 0 <= sym < rt);
    }
    assert forall|k: int, di: int|
        0 <= k < pairs.len() && 0 <= di < rt implies #[trigger] f1.dests(k, di as i32).len() == 1 && pairs[f1.dests(
        k,
        di as i32,
    )[0] as int] == lsd_pair_step(f0, rt, e, pairs[k].0, pairs[k].1, di) by {
        assert(f1.d@[k]@[di as i32]@.len() == 1);
    }
    assert forall|p: int, sym: i32, t2: int|
        0 <= p < f1.q && f1.row(p).contains_key(sym) && 0 <= t2 < f1.dests(p, sym).len() implies #[trigger] f1.dests(
        p,
        sym,
    )[t2] < f1.q by {
        assert(0 <= sym < rt);
        assert(f1.d@[p]@[(sym as int) as i32]@.len() == 1);
    }
    assert forall|k: int| 0 <= k < pairs.len() implies #[trigger] f1.o@[k] == lsd_pair_output(f0, rt, pairs[k].0, pairs[k].1) by {}
}

/// The row being built has the transitions of the digits below `di`.
#[verifier::opaque]
pub open spec fn lsd_row_upto(
    f0: &Fa,
    rt: int,
    e: int,
    pairs: Seq<(int, Seq<i32>)>,
    s: int,
    w: Seq<i32>,
    row: Map<i32, Vec<usize>>,
    di: int,
) -> bool {
    &&& forall|sym: i32| #[trigger] row.contains_key(sym) <==> 0 <= sym < di
    &&& forall|d: int|
        0 <= d < di ==> #[trigger] row[d as i32]@.len() == 1 && row[d as i32]@[0] < pairs.len() && pairs[row[d
            as i32]@[0] as int] == lsd_pair_step(f0, rt, e, s, w, d)
}

/// Adding the transition of the digit `di` to the pair numbered `k`.
proof fn lemma_row_upto_insert(
    f0: &Fa,
    rt: int,
    e: int,
    p1: Seq<(int, Seq<i32>)>,
    p2: Seq<(int, Seq<i32>)>,
    s: int,
    w: Seq<i32>,
    row0: Map<i32, Vec<usize>>,
    row1: Map<i32, Vec<usize>>,
    di: int,
    k: usize,
)
    requires
        lsd_row_upto(f0, rt, e, p1, s, w, row0, di),
        0 <= di <= i32::MAX,
        p1.len() <= p2.len(),
        forall|j: int| 0 <= j < p1.len() ==> #[trigger] p2[j] == p1[j],
        k < p2.len(),
        p2[k as int] == lsd_pair_step(f0, rt, e, s, w, di),
        row1 == row0.insert(di as i32, row1[di as i32]),
        row1[di as i32]@ == seq![k],
    ensures
        lsd_row_upto(f0, rt, e, p2, s, w, row1, di + 1),
{
    reveal(lsd_row_upto);
    assert forall|d: int| 0 <= d < di + 1 implies #[trigger] row1[d as i32]@.len() == 1 && row1[d as i32]@[0] < p2.len()
        && p2[row1[d as i32]@[0] as int] == lsd_pair_step(f0, rt, e, s, w, d) by {
        if d < di {
            assert(row1[d as i32] == row0[d as i32]);
            assert(row0[d as i32]@.len() == 1);
            assert(row0[d as i32]@[0] < p1.len());
            assert(p2[row0[d as i32]@[0] as int] == p1[row0[d as i32]@[0] as int]);
        }
    }
}

/// Finished rows stay finished when pairs are appended.
proof fn lemma_rows_done_grow(
    f0: &Fa,
    rt: int,
    e: int,
    p1: Seq<(int, Seq<i32>)>,
    p2: Seq<(int, Seq<i32>)>,
    new_d: Seq<BTreeMap<i32, Vec<usize>>>,
    new_o: Seq<i32>,
    idx: int,
)
    requires
        lsd_rows_done(f0, rt, e, p1, new_d, new_o, idx),
        idx <= p1.len() <= p2.len(),
        forall|k: int| 0 <= k < p1.len() ==> #[trigger] p2[k] == p1[k],
    ensures
        lsd_rows_done(f0, rt, e, p2, new_d, new_o, idx),
{
    reveal(lsd_rows_done);
    assert forall|j: int, di: int| 0 <= j < idx && 0 <= di < rt implies #[trigger] new_d[j]@[di as i32]@.len() == 1
        && new_d[j]@[di as i32]@[0] < p2.len() && p2[new_d[j]@[di as i32]@[0] as int] == lsd_pair_step(
        f0,
        rt,
        e,
        p2[j].0,
        p2[j].1,
        di,
    ) by {
        assert(p2[j] == p1[j]);
        assert(new_d[j]@[di as i32]@.len() == 1);
        assert(new_d[j]@[di as i32]@[0] < p1.len());
        assert(p2[new_d[j]@[di as i32]@[0] as int] == p1[new_d[j]@[di as i32]@[0] as int]);
    }
    assert forall|j: int| 0 <= j < idx implies #[trigger] new_o[j] == lsd_pair_output(f0, rt, p2[j].0, p2[j].1) by {
        assert(p2[j] == p1[j]);
    }
}

/// After appending `c`, `em_new` still indexes exactly the pairs with nothing pending.
#[verifier::rlimit(40)]
proof fn lemma_core_push_empty(
    f0: &Fa,
    rt: int,
    e: int,
    pairs: Seq<(int, Seq<i32>)>,
    st_old: Seq<(usize, Vec<i32>)>,
    em_old: Seq<Option<usize>>,
    em_new: Seq<Option<usize>>,
    c: (int, Seq<i32>),
)
    requires
        lsd_search_core(f0, rt, e, pairs, st_old, em_old),
        lsd_pair_valid(f0.q as int, rt, e, c),
        c.1.len() == 0 ==> em_old[c.0] is None && em_new == em_old.update(c.0, Some(pairs.len() as usize)),
        c.1.len() != 0 ==> em_new == em_old,
        pairs.len() < usize::MAX,
    ensures
        forall|k: int|
            0 <= k < pairs.push(c).len() && (#[trigger] pairs.push(c)[k]).1.len() == 0 ==> em_new[pairs.push(c)[k].0]
                == Some(k as usize),
{
    reveal(lsd_search_core);
    let np = pairs.push(c);
    let n = pairs.len() as int;
    assert forall|k: int| 0 <= k < np.len() && (#[trigger] np[k]).1.len() == 0 implies em_new[np[k].0] == Some(
        k as usize,
    ) by {
        if k < n {
            assert(np[k] == pairs[k]);
            assert(em_old[pairs[k].0] == Some(k as usize));
            if c.1.len() == 0 {
                assert(lsd_pair_valid(f0.q as int, rt, e, pairs[k]));
                if pairs[k].0 == c.0 {
                    assert(em_old[c.0] is None);
                } else {
                    assert(em_new[pairs[k].0] == em_old[pairs[k].0]);
                }
            }
        } else {
            assert(np[k] == c);
            assert(em_new[c.0] == Some(n as usize));
        }
    }
}

/// Appending a new valid pair reached by a step keeps the search's structure.
#[verifier::rlimit(60)]
#[verifier::spinoff_prover]
proof fn lemma_core_push(
    f0: &Fa,
    rt: int,
    e: int,
    pairs: Seq<(int, Seq<i32>)>,
    st_old: Seq<(usize, Vec<i32>)>,
    st_new: Seq<(usize, Vec<i32>)>,
    em_old: Seq<Option<usize>>,
    em_new: Seq<Option<usize>>,
    c: (int, Seq<i32>),
    j: int,
    di: int,
)
    requires
        lsd_search_core(f0, rt, e, pairs, st_old, em_old),
        st_new.len() == st_old.len() + 1,
        forall|k: int| 0 <= k < st_old.len() ==> #[trigger] st_new[k] == st_old[k],
        (st_new[st_old.len() as int].0 as int, st_new[st_old.len() as int].1@) == c,
        forall|k: int| 0 <= k < pairs.len() ==> #[trigger] pairs[k] != c,
        lsd_pair_valid(f0.q as int, rt, e, c),
        0 <= j < pairs.len(),
        0 <= di < rt,
        c == lsd_pair_step(f0, rt, e, pairs[j].0, pairs[j].1, di),
        c.1.len() == 0 ==> em_old[c.0] is None && em_new == em_old.update(c.0, Some(pairs.len() as usize)),
        c.1.len() != 0 ==> em_new == em_old,
        pairs.len() < usize::MAX,
    ensures
        lsd_search_core(f0, rt, e, pairs.push(c), st_new, em_new),
{
    reveal(lsd_search_core);
    let np = pairs.push(c);
    let n = pairs.len() as int;
    assert forall|k: int| 0 <= k < np.len() implies #[trigger] np[k] == (st_new[k].0 as int, st_new[k].1@) by {
        if k < n {
            assert(st_new[k] == st_old[k]);
        }
    }
    assert forall|t: int|
        0 <= t < f0.q && (#[trigger] em_new[t]) is Some implies em_new[t]->0 < np.len() && np[em_new[t]->0 as int] == (
        t,
        Seq::<i32>::empty(),
    ) by {
        if c.1.len() == 0 && t == c.0 {
        } else {
            assert(em_new[t] == em_old[t]);
        }
    }
    lemma_core_push_empty(f0, rt, e, pairs, st_old, em_old, em_new, c);
    assert forall|k1: int, k2: int| 0 <= k1 < k2 < np.len() implies #[trigger] np[k1] != #[trigger] np[k2] by {
        if k2 < n {
            assert(np[k1] == pairs[k1] && np[k2] == pairs[k2]);
        } else {
            assert(np[k1] == pairs[k1]);
        }
    }
    assert forall|k: int| 0 <= k < np.len() implies #[trigger] lsd_pair_valid(f0.q as int, rt, e, np[k]) by {
        if k < n {
            assert(np[k] == pairs[k]);
        }
    }
    assert forall|k: int| 1 <= k < np.len() implies #[trigger] lsd_reached(f0, rt, e, np, k) by {
        if k < n {
            assert(np[k] == pairs[k]);
            assert(lsd_reached(f0, rt, e, pairs, k));
            let (jj, dd) = choose|jj: int, dd: int| #[trigger] lsd_reached_from(f0, rt, e, pairs, k, jj, dd);
            assert(np[jj] == pairs[jj]);
            assert(lsd_reached_from(f0, rt, e, np, k, jj, dd));
        } else {
            assert(np[j] == pairs[j]);
            assert(lsd_reached_from(f0, rt, e, np, k, j, di));
        }
    }
}

/// Moving on to the next pair: the pairs added by the current one have it as parent.
proof fn lemma_parents_next(pairs: Seq<(int, Seq<i32>)>, idx: int, rt: int)
    requires
        0 <= idx < pairs.len(),
        lsd_parents_seen(pairs, idx, rt),
    ensures
        lsd_parents_seen(pairs, idx + 1, 0),
{
    reveal(lsd_parents_seen);
    assert forall|k: int| 0 <= k < pairs.len() && (#[trigger] pairs[k]).1.len() > 0 implies (exists|p: int|
        0 <= p < idx + 1 && pairs[p] == lsd_parent(pairs[k])) || (lsd_parent(pairs[k]) == pairs[idx + 1]
        && pairs[k].1.last() < 0) by {
        if !(exists|p: int| 0 <= p < idx && pairs[p] == lsd_parent(pairs[k])) {
            assert(pairs[idx] == lsd_parent(pairs[k]));
        } else {
            let p = choose|p: int| 0 <= p < idx && pairs[p] == lsd_parent(pairs[k]);
            assert(0 <= p < idx + 1 && pairs[p] == lsd_parent(pairs[k]));
        }
    }
}

/// The output of the pair `(s, w)`.
fn lsd_output_of(fa: &Fa, s: usize, w: &Vec<i32>, root: i32, exponent: i32) -> (r: i32)
    requires
        fa.wf(),
        root >= 0,
        exponent >= 0,
        lsd_pair_valid(fa.q as int, root as int, exponent as int, (s as int, w@)),
        pow(root as int, group_length(exponent)) <= i32::MAX,
        covers_symbols(fa, pow(root as int, group_length(exponent))),
    ensures
        r == lsd_pair_output(fa, root as int, s as int, w@),
{
    if w.len() == 0 {
        fa.o[s]
    } else {
        let ghost g = group_length(exponent);
        proof {
            assert(0 <= w@[0] < root);
            lemma_lsd_value_fits(w@, root as int, g as int);
        }
        let ws = w.as_slice();
        let v = compute_string_value(ws, root);
        let dest = jump(fa, s, v);
        fa.o[dest]
    }
}

/// What one step of the pair search ensures about the pairs `np` it leaves behind.
#[verifier::opaque]
pub open spec fn lsd_step_done(
    fa: &Fa,
    rt: int,
    e: int,
    pairs: Seq<(int, Seq<i32>)>,
    np: Seq<(int, Seq<i32>)>,
    st_new: Seq<(usize, Vec<i32>)>,
    em_old: Seq<Option<usize>>,
    em_new: Seq<Option<usize>>,
    idx: int,
    w: Seq<i32>,
    di: int,
    k: int,
) -> bool {
    let rn = rt as nat;
    &&& lsd_search_core(fa, rt, e, np, st_new, em_new)
    &&& pairs.len() <= np.len() <= pairs.len() + 1
    &&& forall|j: int| 0 <= j < pairs.len() ==> #[trigger] np[j] == pairs[j]
    &&& 0 <= k < np.len()
    &&& np[k] == lsd_pair_step(fa, rt, e, pairs[idx].0, w, di)
    &&& lsd_parents_seen(np, idx, di + 1)
    &&& lsd_measure(np, rn, e, idx + 1, em_new) == lsd_measure(pairs, rn, e, idx + 1, em_old) + if w.len() < e - 1 {
        lsd_pair_weight(rn, e, w.len() as int + 1) as int
    } else {
        0
    }
}

/// Appending `c`, which has nothing pending or whose parent is the pair at `idx` and
/// whose last digit is `di`, keeps the parents seen up to the digit `di + 1`.
proof fn lemma_parents_after_push(pairs: Seq<(int, Seq<i32>)>, c: (int, Seq<i32>), idx: int, di: int)
    requires
        0 <= idx < pairs.len(),
        lsd_parents_seen(pairs, idx, di),
        c.1.len() == 0 || (lsd_parent(c) == pairs[idx] && c.1.last() as int == di),
    ensures
        lsd_parents_seen(pairs.push(c), idx, di + 1),
{
    reveal(lsd_parents_seen);
    let np = pairs.push(c);
    assert forall|kk: int| 0 <= kk < np.len() && (#[trigger] np[kk]).1.len() > 0 implies (exists|p: int|
        0 <= p < idx && np[p] == lsd_parent(np[kk])) || (lsd_parent(np[kk]) == np[idx] && np[kk].1.last() < di + 1) by {
        if kk < pairs.len() {
            assert(np[kk] == pairs[kk]);
            assert(np[idx] == pairs[idx]);
            if exists|p: int| 0 <= p < idx && pairs[p] == lsd_parent(pairs[kk]) {
                let p = choose|p: int| 0 <= p < idx && pairs[p] == lsd_parent(pairs[kk]);
                assert(np[p] == pairs[p]);
            }
        } else {
            assert(np[kk] == c);
            assert(np[idx] == pairs[idx]);
        }
    }
}

/// Appending a pair adds its weight to the measure; a pair with nothing pending that
/// fills an empty slot of `em0` leaves the measure as it was.
proof fn lemma_measure_after_push(
    pairs: Seq<(int, Seq<i32>)>,
    c: (int, Seq<i32>),
    rn: nat,
    e: int,
    from: int,
    em0: Seq<Option<usize>>,
    em1: Seq<Option<usize>>,
    slot: int,
)
    requires
        0 <= from <= pairs.len(),
        c.1.len() == 0 ==> 0 <= slot < em0.len() && em0[slot] is None && em1 == em0.update(slot, Some(pairs.len() as usize)),
        c.1.len() != 0 ==> em1 == em0,
    ensures
        lsd_measure(pairs.push(c), rn, e, from, em1) == lsd_measure(pairs, rn, e, from, em0) + if c.1.len() == 0 {
            0
        } else {
            lsd_pair_weight(rn, e, c.1.len() as int) as int
        },
{
    let np = pairs.push(c);
    lemma_weight_sum_frame(pairs, np, rn, e, from, pairs.len() as int);
    assert(lsd_weight_sum(np, rn, e, from, np.len() as int) == lsd_weight_sum(np, rn, e, from, pairs.len() as int)
        + lsd_pair_weight(rn, e, np[pairs.len() as int].1.len() as int));
    if c.1.len() == 0 {
        lemma_count_none_set(em0, slot, pairs.len() as usize);
        let p0 = lsd_pair_weight(rn, e, 0);
        let c1 = count_none(em1);
        assert(c1 * p0 + p0 == (c1 + 1) * p0) by (nonlinear_arith);
    }
}

/// A step that appends a pair with one more pending digit.
#[verifier::rlimit(80)]
#[verifier::spinoff_prover]
proof fn lemma_step_child(
    fa: &Fa,
    rt: int,
    e: int,
    pairs: Seq<(int, Seq<i32>)>,
    st0: Seq<(usize, Vec<i32>)>,
    st1: Seq<(usize, Vec<i32>)>,
    em0: Seq<Option<usize>>,
    idx: int,
    w: Seq<i32>,
    di: int,
)
    requires
        0 <= rt <= i32::MAX,
        lsd_search_core(fa, rt, e, pairs, st0, em0),
        0 <= idx < pairs.len(),
        pairs[idx].1 == w,
        0 <= di < rt,
        lsd_parents_seen(pairs, idx, di),
        pairs.len() < usize::MAX,
        w.len() < e - 1,
        st1.len() == st0.len() + 1,
        forall|k: int| 0 <= k < st0.len() ==> #[trigger] st1[k] == st0[k],
        (st1[st0.len() as int].0 as int, st1[st0.len() as int].1@) == (pairs[idx].0, w.push(di as i32)),
    ensures
        lsd_step_done(fa, rt, e, pairs, pairs.push((pairs[idx].0, w.push(di as i32))), st1, em0, em0, idx, w, di, pairs.len() as int),
{
    reveal(lsd_search_core);
    reveal(lsd_parents_seen);
    reveal(lsd_step_done);
    let rn = rt as nat;
    let s = pairs[idx].0;
    let c = (s, w.push(di as i32));
    assert(c == lsd_pair_step(fa, rt, e, s, w, di));
    assert(lsd_pair_valid(fa.q as int, rt, e, pairs[idx]));
    assert(c.1.drop_last() =~= w);
    assert(lsd_parent(c) == pairs[idx]);
    assert forall|k2: int| 0 <= k2 < pairs.len() implies #[trigger] pairs[k2] != c by {
        if pairs[k2] == c {
            assert(pairs[k2].1.len() > 0);
            assert(pairs[k2].1.last() == di as i32);
            assert(!(pairs[k2].1.last() < di));
            assert(exists|p: int| 0 <= p < idx && pairs[p] == lsd_parent(pairs[k2]));
            let p = choose|p: int| 0 <= p < idx && pairs[p] == lsd_parent(pairs[k2]);
            assert(pairs[p] == pairs[idx]);
        }
    }
    assert(lsd_pair_valid(fa.q as int, rt, e, c)) by {
        assert forall|t: int| 0 <= t < c.1.len() implies 0 <= #[trigger] c.1[t] < rt by {
            if t < w.len() {
                assert(c.1[t] == w[t]);
                assert(pairs[idx].1[t] == w[t]);
            } else {
                assert(c.1[t] == di as i32);
            }
        }
    }
    lemma_core_push(fa, rt, e, pairs, st0, st1, em0, em0, c, idx, di);
    lemma_parents_after_push(pairs, c, idx, di);
    lemma_measure_after_push(pairs, c, rn, e, idx + 1, em0, em0, 0);
}

/// A step that appends a new pair with nothing pending.
#[verifier::rlimit(80)]
#[verifier::spinoff_prover]
proof fn lemma_step_new_empty(
    fa: &Fa,
    rt: int,
    e: int,
    pairs: Seq<(int, Seq<i32>)>,
    st0: Seq<(usize, Vec<i32>)>,
    st1: Seq<(usize, Vec<i32>)>,
    em0: Seq<Option<usize>>,
    em1: Seq<Option<usize>>,
    idx: int,
    w: Seq<i32>,
    di: int,
    tgt: int,
)
    requires
        0 <= rt <= i32::MAX,
        lsd_search_core(fa, rt, e, pairs, st0, em0),
        0 <= idx < pairs.len(),
        pairs[idx].1 == w,
        0 <= di < rt,
        lsd_parents_seen(pairs, idx, di),
        pairs.len() < usize::MAX,
        !(w.len() < e - 1),
        0 <= tgt < fa.q,
        tgt == lsd_pair_step(fa, rt, e, pairs[idx].0, w, di).0,
        em0[tgt] is None,
        em1 == em0.update(tgt, Some(pairs.len() as usize)),
        st1.len() == st0.len() + 1,
        forall|k: int| 0 <= k < st0.len() ==> #[trigger] st1[k] == st0[k],
        (st1[st0.len() as int].0 as int, st1[st0.len() as int].1@) == (tgt, Seq::<i32>::empty()),
    ensures
        lsd_step_done(fa, rt, e, pairs, pairs.push((tgt, Seq::<i32>::empty())), st1, em0, em1, idx, w, di, pairs.len() as int),
{
    reveal(lsd_search_core);
    reveal(lsd_step_done);
    let rn = rt as nat;
    let c = (tgt, Seq::<i32>::empty());
    assert(c == lsd_pair_step(fa, rt, e, pairs[idx].0, w, di));
    assert forall|k2: int| 0 <= k2 < pairs.len() implies #[trigger] pairs[k2] != c by {
        if pairs[k2] == c {
            assert(em0[tgt] == Some(k2 as usize));
        }
    }
    assert(lsd_pair_valid(fa.q as int, rt, e, c));
    lemma_core_push(fa, rt, e, pairs, st0, st1, em0, em1, c, idx, di);
    lemma_parents_after_push(pairs, c, idx, di);
    lemma_measure_after_push(pairs, c, rn, e, idx + 1, em0, em1, tgt);
}

/// A step that reaches a pair with nothing pending that is already there.
#[verifier::rlimit(80)]
#[verifier::spinoff_prover]
proof fn lemma_step_existing(
    fa: &Fa,
    rt: int,
    e: int,
    pairs: Seq<(int, Seq<i32>)>,
    st0: Seq<(usize, Vec<i32>)>,
    em0: Seq<Option<usize>>,
    idx: int,
    w: Seq<i32>,
    di: int,
    tgt: int,
    k: usize,
)
    requires
        lsd_search_core(fa, rt, e, pairs, st0, em0),
        0 <= idx < pairs.len(),
        pairs[idx].1 == w,
        lsd_parents_seen(pairs, idx, di),
        !(w.len() < e - 1),
        0 <= tgt < fa.q,
        tgt == lsd_pair_step(fa, rt, e, pairs[idx].0, w, di).0,
        em0[tgt] == Some(k),
    ensures
        lsd_step_done(fa, rt, e, pairs, pairs, st0, em0, em0, idx, w, di, k as int),
{
    reveal(lsd_search_core);
    reveal(lsd_parents_seen);
    reveal(lsd_step_done);
    assert(em0[tgt] is Some);
    assert(pairs[k as int] == (tgt, Seq::<i32>::empty()));
    assert forall|kk: int| 0 <= kk < pairs.len() && (#[trigger] pairs[kk]).1.len() > 0 implies (exists|p: int|
        0 <= p < idx && pairs[p] == lsd_parent(pairs[kk])) || (lsd_parent(pairs[kk]) == pairs[idx] && pairs[kk].1.last()
        < di + 1) by {}
}

/// The state a completed group of digits `ds` (least significant first) leads to from
/// `s`.
fn lsd_group_target(fa: &Fa, s: usize, ds: &Vec<i32>, root: i32, exponent: i32) -> (r: usize)
    requires
        fa.wf(),
        s < fa.q,
        root >= 1,
        exponent >= 0,
        ds@.len() <= group_length(exponent),
        forall|x: int| 0 <= x < ds@.len() ==> 0 <= #[trigger] ds@[x] < root,
        pow(root as int, group_length(exponent)) <= i32::MAX,
        covers_symbols(fa, pow(root as int, group_length(exponent))),
    ensures
        r as int == first_dest(fa, s as int, lsd_value(ds@, root as int, ds@.len())),
        r < fa.q,
{
    let ghost g = group_length(exponent);
    proof {
        lemma_lsd_value_fits(ds@, root as int, g as int);
    }
    let dss = ds.as_slice();
    let v = compute_string_value(dss, root);
    proof {
        assert(0 <= v < pow(root as int, g));
        assert(fa.row(s as int).contains_key(v) && fa.dests(s as int, v).len() > 0);
    }
    jump(fa, s, v)
}

/// Adds, when it is new, the pair reached from the pair `(s, w)` at `idx` on the digit
/// `di`, and returns its number.
#[verifier::rlimit(100)]
#[verifier::spinoff_prover]
fn lsd_step(
    fa: &Fa,
    states: &mut Vec<(usize, Vec<i32>)>,
    empty_index: &mut Vec<Option<usize>>,
    s: usize,
    w: &Vec<i32>,
    di: i32,
    root: i32,
    exponent: i32,
    Ghost(pairs): Ghost<Seq<(int, Seq<i32>)>>,
    Ghost(idx): Ghost<int>,
) -> (res: (usize, Ghost<Seq<(int, Seq<i32>)>>))
    requires
        fa.wf(),
        root >= 0,
        exponent >= 0,
        pow(root as int, group_length(exponent)) <= i32::MAX,
        covers_symbols(fa, pow(root as int, group_length(exponent))),
        lsd_search_core(fa, root as int, exponent as int, pairs, old(states)@, old(empty_index)@),
        0 <= idx < pairs.len(),
        pairs[idx] == (s as int, w@),
        0 <= di < root,
        lsd_parents_seen(pairs, idx, di as int),
    ensures
        lsd_step_done(
            fa,
            root as int,
            exponent as int,
            pairs,
            res.1@,
            final(states)@,
            old(empty_index)@,
            final(empty_index)@,
            idx,
            w@,
            di as int,
            res.0 as int,
        ),
{
    let ghost rt = root as int;
    let ghost e = exponent as int;
    let ghost g = group_length(exponent);
    let ghost st0 = states@;
    let ghost em0 = empty_index@;
    let wl = w.len();
    proof {
        lemma_core_facts(fa, rt, e, pairs, st0, em0, idx);
    }
    let mut next_string = copy_digits(w);
    next_string.push(di);
    proof {
        assert(next_string@ == w@.push(di));
        assert forall|x: int| 0 <= x < next_string@.len() implies 0 <= #[trigger] next_string@[x] < rt by {
            if x < wl {
                assert(next_string@[x] == w@[x]);
            }
        }
    }
    if (wl as i32) < exponent - 1 {
        let k = states.len();
        states.push((s, next_string));
        let _grown = states.len();
        proof {
            lemma_step_child(fa, rt, e, pairs, st0, states@, em0, idx, w@, di as int);
        }
        (k, Ghost(pairs.push((s as int, w@.push(di)))))
    } else {
        let tgt = lsd_group_target(fa, s, &next_string, root, exponent);
        proof {
            assert(tgt as int == lsd_pair_step(fa, rt, e, s as int, w@, di as int).0);
        }
        match empty_index[tgt] {
            Some(k) => {
                proof {
                    lemma_step_existing(fa, rt, e, pairs, st0, em0, idx, w@, di as int, tgt as int, k);
                }
                (k, Ghost(pairs))
            },
            None => {
                let k = states.len();
                states.push((tgt, Vec::new()));
                let _grown = states.len();
                empty_index.set(tgt, Some(k));
                proof {
                    assert(states@[k as int].1@ =~= Seq::<i32>::empty());
                    lemma_step_new_empty(fa, rt, e, pairs, st0, states@, em0, empty_index@, idx, w@, di as int, tgt as int);
                }
                (k, Ghost(pairs.push((tgt as int, Seq::<i32>::empty()))))
            },
        }
    }
}

/// Splits every base-`root^exponent` digit into `exponent` base-`root` digits read
/// least significant digit first, refusing unless `base` is `root^exponent`.
///
/// The new states are the pairs (old state, pending digits) reached from the start
/// state with nothing pending, numbered in breadth-first order: a digit is added to the
/// pending ones until a group of `exponent` is complete, and then the group is read
/// from the old state. The start state's number is left as it is, the alphabet becomes
/// `0..root` read least significant digit first, and the numbering is no longer fixed.
#[verifier::rlimit(100)]
#[verifier::spinoff_prover]
pub fn convert_lsd_base_to_root(a: &mut Automaton, base: i32, root: i32, exponent: i32) -> (r: Result<
    (),
    ConvertNsError,
>)
    requires
        old(a).fa.wf(),
        root >= 0,
        exponent >= 0,
        base == sat_pow(root as int, exponent as nat) ==> {
            &&& pow(root as int, group_length(exponent)) <= i32::MAX
            &&& old(a).fa.q0 < old(a).fa.q
            &&& covers_symbols(&old(a).fa, pow(root as int, group_length(exponent)))
        },
    ensures
        base != sat_pow(root as int, exponent as nat) ==> r == Err::<(), ConvertNsError>(
            ConvertNsError::BaseMismatch { expected: sat_pow(root as int, exponent as nat) as i32, found: base },
        ) && *final(a) == *old(a),
        base == sat_pow(root as int, exponent as nat) ==> {
            &&& r is Ok
            &&& exists|pairs: Seq<(int, Seq<i32>)>| #[trigger]
                lsd_pair_table(&old(a).fa, &final(a).fa, root as int, exponent as int, pairs)
            &&& final(a).fa.q0 == old(a).fa.q0
            &&& final(a).fa.true_false == old(a).fa.true_false
            &&& final(a).fa.alphabet_size == root
            &&& final(a).msd@ == seq![Some(false)]
            &&& final(a).alphabet@.len() == 1
            &&& final(a).alphabet@[0]@ == digit_range(root as int)
            &&& final(a).label == old(a).label
            &&& !final(a).canonized
            &&& old(a).fa.q0 == 0 && root >= 1 ==> forall|w: Seq<i32>|
                over_alphabet(w, root as int) ==> #[trigger] output_on(&final(a).fa, w) == output_on(
                    &old(a).fa,
                    lsd_grouped(w, root as int, group_length(exponent) as int),
                )
        },
{
    let expected = int_pow(root, exponent);
    if base != expected {
        return Err(ConvertNsError::BaseMismatch { expected, found: base });
    }
    let ghost f0 = a.fa;
    let ghost rt = root as int;
    let ghost rn = root as nat;
    let ghost e = exponent as int;
    let ghost g = group_length(exponent);
    let q = a.fa.q;
    let q0 = a.fa.q0;
    let mut states: Vec<(usize, Vec<i32>)> = Vec::new();
    states.push((q0, Vec::new()));
    let mut empty_index: Vec<Option<usize>> = Vec::new();
    let mut t: usize = 0;
    while t < q
        invariant
            t <= q,
            empty_index@.len() == t,
            forall|x: int| 0 <= x < t ==> #[trigger] empty_index@[x] is None,
        decreases q - t,
    {
        empty_index.push(None);
        t = t + 1;
    }
    empty_index.set(q0, Some(0));
    let ghost mut pairs: Seq<(int, Seq<i32>)> = seq![(q0 as int, Seq::<i32>::empty())];
    proof {
        reveal(lsd_search_core);
        reveal(lsd_parents_seen);
        reveal(lsd_rows_done);
        assert(states@[0].1@ =~= Seq::<i32>::empty());
        assert forall|x: int| 0 <= x < pairs.len() implies #[trigger] lsd_pair_valid(q as int, rt, e, pairs[x]) by {}
        assert(lsd_search_core(&f0, rt, e, pairs, states@, empty_index@));
        assert(lsd_parents_seen(pairs, 0, 0));
    }
    let mut new_d: Vec<BTreeMap<i32, Vec<usize>>> = Vec::new();
    let mut new_o: Vec<i32> = Vec::new();
    proof {
        reveal(lsd_rows_done);
        assert(lsd_rows_done(&f0, rt, e, pairs, new_d@, new_o@, 0));
    }
    let mut idx: usize = 0;
    while idx < states.len()
        invariant
            a.fa == f0,
            f0.wf(),
            q == f0.q,
            q0 == f0.q0,
            q0 < q,
            rt == root,
            rn == root,
            e == exponent,
            g == group_length(exponent),
            root >= 0,
            exponent >= 0,
            pow(rt, g) <= i32::MAX,
            covers_symbols(&f0, pow(rt, g)),
            lsd_search_core(&f0, rt, e, pairs, states@, empty_index@),
            idx <= pairs.len(),
            lsd_parents_seen(pairs, idx as int, 0),
            lsd_rows_done(&f0, rt, e, pairs, new_d@, new_o@, idx as int),
        decreases lsd_measure(pairs, rn, e, idx as int, empty_index@),
    {
        proof {
            lemma_core_len(&f0, rt, e, pairs, states@, empty_index@);
        }
        let s = states[idx].0;
        let w = copy_digits(&states[idx].1);
        let wl = w.len();
        proof {
            lemma_core_facts(&f0, rt, e, pairs, states@, empty_index@, idx as int);
        }
        let out = lsd_output_of(&a.fa, s, &w, root, exponent);
        let ghost pairs0 = pairs;
        let ghost m_start = lsd_measure(pairs0, rn, e, idx as int, empty_index@);
        let ghost pc = lsd_pair_weight(rn, e, wl as int + 1);
        proof {
            lemma_weight_sum_front(pairs0, rn, e, idx as int, pairs0.len() as int);
            if (wl as int) < e - 1 {
                assert(lsd_pair_weight(rn, e, wl as int) == 1 + rn * pc);
            } else {
                assert(lsd_pair_weight(rn, e, wl as int) == 1);
            }
        }
        let mut row: BTreeMap<i32, Vec<usize>> = BTreeMap::new();
        let mut di: i32 = 0;
        proof {
            reveal(lsd_row_upto);
            assert(lsd_row_upto(&f0, rt, e, pairs, s as int, w@, row@, 0));
        }
        while di < root
            invariant
                a.fa == f0,
                f0.wf(),
                q == f0.q,
                rt == root,
                rn == root,
                e == exponent,
                g == group_length(exponent),
                root >= 0,
                exponent >= 0,
                pow(rt, g) <= i32::MAX,
                covers_symbols(&f0, pow(rt, g)),
                lsd_search_core(&f0, rt, e, pairs, states@, empty_index@),
                idx < pairs0.len(),
                pairs0.len() <= pairs.len(),
                forall|k: int| 0 <= k < pairs0.len() ==> #[trigger] pairs[k] == pairs0[k],
                pairs[idx as int] == (s as int, w@),
                wl == w@.len(),
                lsd_parents_seen(pairs, idx as int, di as int),
                0 <= di <= root,
                lsd_row_upto(&f0, rt, e, pairs, s as int, w@, row@, di as int),
                pc == lsd_pair_weight(rn, e, wl as int + 1),
                lsd_measure(pairs, rn, e, idx + 1, empty_index@) + (if (wl as int) < e - 1 {
                    (rt - di) * pc
                } else {
                    0
                }) == m_start - 1,
            decreases root - di,
        {
            let ghost pairs1 = pairs;
            let ghost em1 = empty_index@;
            proof {
                lemma_core_len(&f0, rt, e, pairs, states@, empty_index@);
            }
            let (k, Ghost(np)) = lsd_step(
                &a.fa,
                &mut states,
                &mut empty_index,
                s,
                &w,
                di,
                root,
                exponent,
                Ghost(pairs),
                Ghost(idx as int),
            );
            proof {
                reveal(lsd_step_done);
                assert(lsd_search_core(&f0, rt, e, np, states@, empty_index@));
                assert(pairs1.len() <= np.len());
                assert(forall|j: int| 0 <= j < pairs1.len() ==> #[trigger] np[j] == pairs1[j]);
                assert(k < np.len());
                assert(np[k as int] == lsd_pair_step(&f0, rt, e, pairs1[idx as int].0, w@, di as int));
                assert(lsd_parents_seen(np, idx as int, di + 1));
                assert(lsd_measure(np, rn, e, idx + 1, empty_index@) == lsd_measure(pairs1, rn, e, idx + 1, em1) + if w@.len() < e - 1 {
                    lsd_pair_weight(rn, e, w@.len() as int + 1) as int
                } else {
                    0
                });
                pairs = np;
                if (wl as int) < e - 1 {
                    assert((rt - di) * pc == pc + (rt - (di + 1)) * pc) by (nonlinear_arith);
                }
            }
            let mut dv: Vec<usize> = Vec::new();
            dv.push(k);
            let ghost row0 = row@;
            row.insert(di, dv);
            proof {
                lemma_row_upto_insert(&f0, rt, e, pairs1, pairs, s as int, w@, row0, row@, di as int, k);
            }
            di = di + 1;
        }
        proof {
            reveal(lsd_row_upto);
            lemma_parents_next(pairs, idx as int, rt);
            lemma_rows_done_grow(&f0, rt, e, pairs0, pairs, new_d@, new_o@, idx as int);
        }
        let ghost nd0 = new_d@;
        let ghost no0 = new_o@;
        proof {
            assert(pairs[idx as int] == (s as int, w@));
            assert(out == lsd_pair_output(&f0, rt, pairs[idx as int].0, pairs[idx as int].1));
            lemma_rows_done_push(&f0, rt, e, pairs, nd0, no0, idx as int, row, out);
        }
        new_d.push(row);
        new_o.push(out);
        idx = idx + 1;
    }
    let n_states = states.len();
    a.fa.set_fields(n_states, new_o, new_d);
    a.set_canonized(false);
    let ghost f1 = a.fa;
    proof {
        lemma_search_table(&f0, &f1, rt, e, pairs, states@, empty_index@);
    }
    set_number_system_and_alphabet(a, false, root);
    proof {
        let f2 = a.fa;
        assert forall|p: int| 0 <= p < f2.q implies #[trigger] f2.row(p) == f1.row(p) by {
            assert(f2.d@[p] == f1.d@[p]);
        }
        assert forall|p: int, sym: i32| 0 <= p < f2.q implies #[trigger] f2.dests(p, sym) == f1.dests(p, sym) by {
            assert(f2.d@[p] == f1.d@[p]);
        }
        assert(lsd_pair_table(&f0, &f2, rt, e, pairs)) by {
            assert forall|p: int, sym: i32, t2: int|
                0 <= p < f2.q && f2.row(p).contains_key(sym) && 0 <= t2 < f2.dests(p, sym).len() implies #[trigger] f2.dests(
                p,
                sym,
            )[t2] < f2.q by {
                assert(f1.row(p).contains_key(sym));
                assert(f1.dests(p, sym)[t2] < f1.q);
            }
            assert forall|k: int, sym: i32| 0 <= k < pairs.len() implies (#[trigger] f2.row(k).contains_key(sym) <==> 0 <= sym
                < rt) by {
                assert(f1.row(k).contains_key(sym) <==> 0 <= sym < rt);
            }
            assert forall|k: int, d: int|
                0 <= k < pairs.len() && 0 <= d < rt implies #[trigger] f2.dests(k, d as i32).len() == 1 && pairs[f2.dests(
                k,
                d as i32,
            )[0] as int] == lsd_pair_step(&f0, rt, e, pairs[k].0, pairs[k].1, d) by {
                assert(f1.dests(k, d as i32).len() == 1);
            }
        }
    }
    proof {
        if f0.q0 == 0 && root >= 1 {
            assert forall|w: Seq<i32>| over_alphabet(w, root as int) implies #[trigger] output_on(&a.fa, w) == output_on(
                &f0,
                lsd_grouped(w, root as int, group_length(exponent) as int),
            ) by {
                law_lsd_conversion_regroups(&f0, &a.fa, rt, e, pairs, w);
            }
        }
    }
    Ok(())
}

/// `path` follows `adj`: every node is one of its nodes and every step goes to a
/// listed successor.
pub open spec fn adj_path(adj: Seq<Vec<usize>>, path: Seq<int>) -> bool {
    &&& path.len() >= 1
    &&& forall|i: int| 0 <= i < path.len() ==> 0 <= #[trigger] path[i] < adj.len()
    &&& forall|i: int| 0 <= i < path.len() - 1 ==> #[trigger] adj[path[i]]@.contains(path[i + 1] as usize)
}

/// `x` can be reached along `adj` from one of the `seeds`.
pub open spec fn in_closure(adj: Seq<Vec<usize>>, seeds: Seq<usize>, x: int) -> bool {
    exists|path: Seq<int>| #[trigger] adj_path(adj, path) && seeds.contains(path[0] as usize) && path.last() == x
}

/// The number of `false` entries.
pub open spec fn count_false(s: Seq<bool>) -> nat
    decreases s.len(),
{
    if s.len() == 0 {
        0
    } else {
        count_false(s.drop_last()) + if s.last() {
            0nat
        } else {
            1nat
        }
    }
}

proof fn lemma_count_false_set(s: Seq<bool>, i: int)
    requires
        0 <= i < s.len(),
        !s[i],
    ensures
        count_false(s.update(i, true)) < count_false(s),
    decreases s.len(),
{
    let t = s.update(i, true);
    if i == s.len() - 1 {
        assert(t.drop_last() =~= s.drop_last());
    } else {
        assert(t.drop_last() =~= s.drop_last().update(i, true));
        lemma_count_false_set(s.drop_last(), i);
    }
}

proof fn lemma_closure_step(adj: Seq<Vec<usize>>, seeds: Seq<usize>, q: int, p: int)
    requires
        in_closure(adj, seeds, q),
        0 <= q < adj.len(),
        0 <= p < adj.len(),
        adj[q]@.contains(p as usize),
    ensures
        in_closure(adj, seeds, p),
{
    let path = choose|path: Seq<int>| #[trigger] adj_path(adj, path) && seeds.contains(path[0] as usize) && path.last() == q;
    let np = path.push(p);
    assert forall|i: int| 0 <= i < np.len() - 1 implies #[trigger] adj[np[i]]@.contains(np[i + 1] as usize) by {
        if i < path.len() - 1 {
            assert(np[i] == path[i]);
            assert(np[i + 1] == path[i + 1]);
            assert(adj[path[i]]@.contains(path[i + 1] as usize));
        } else {
            assert(np[i] == q);
        }
    }
    assert forall|i: int| 0 <= i < np.len() implies 0 <= #[trigger] np[i] < adj.len() by {
        if i < path.len() {
            assert(np[i] == path[i]);
        }
    }
    assert(adj_path(adj, np));
    assert(np[0] == path[0]);
}

proof fn lemma_seed_in_closure(adj: Seq<Vec<usize>>, seeds: Seq<usize>, i: int)
    requires
        0 <= i < seeds.len(),
        seeds[i] < adj.len(),
    ensures
        in_closure(adj, seeds, seeds[i] as int),
{
    let path = seq![seeds[i] as int];
    assert(adj_path(adj, path));
    assert(seeds.contains(path[0] as usize));
}

proof fn lemma_closed_contains(adj: Seq<Vec<usize>>, seeds: Seq<usize>, vis: Seq<bool>, path: Seq<int>)
    requires
        adj.len() <= usize::MAX,
        adj_path(adj, path),
        seeds.contains(path[0] as usize),
        vis.len() == adj.len(),
        forall|i: int| 0 <= i < seeds.len() ==> #[trigger] vis[seeds[i] as int],
        forall|x: int, j: int|
            0 <= x < adj.len() && vis[x] && 0 <= j < adj[x]@.len() ==> #[trigger] vis[adj[x]@[j] as int],
    ensures
        vis[path.last()],
    decreases path.len(),
{
    if path.len() == 1 {
        let i = choose|i: int| 0 <= i < seeds.len() && seeds[i] == path[0] as usize;
        assert(0 <= path[0] < adj.len());
        assert(seeds[i] as int == path[0]);
        assert(vis[seeds[i] as int]);
    } else {
        let pre = path.drop_last();
        assert forall|i: int| 0 <= i < pre.len() - 1 implies #[trigger] adj[pre[i]]@.contains(pre[i + 1] as usize) by {
            assert(adj[path[i]]@.contains(path[i + 1] as usize));
        }
        assert forall|i: int| 0 <= i < pre.len() implies 0 <= #[trigger] pre[i] < adj.len() by {
            assert(0 <= path[i] < adj.len());
        }
        lemma_closed_contains(adj, seeds, vis, pre);
        let x = pre.last();
        assert(pre[pre.len() - 1] == path[pre.len() - 1]);
        let k = path.len() - 2;
        assert(x == path[k]);
        assert(adj[path[k]]@.contains(path[k + 1] as usize));
        assert(path[k + 1] == path.last());
        let j = choose|j: int| 0 <= j < adj[x]@.len() && adj[x]@[j] == path.last() as usize;
        assert(0 <= path.last() < adj.len());
        assert(vis[adj[x]@[j] as int]);
    }
}

/// Which nodes can be reached along `adj` from the `seeds`.
fn closure(adj: &Vec<Vec<usize>>, seeds: &Vec<usize>) -> (vis: Vec<bool>)
    requires
        forall|p: int, j: int| 0 <= p < adj@.len() && 0 <= j < adj@[p]@.len() ==> #[trigger] adj@[p]@[j] < adj@.len(),
        forall|i: int| 0 <= i < seeds@.len() ==> #[trigger] seeds@[i] < adj@.len(),
    ensures
        vis@.len() == adj@.len(),
        forall|x: int| 0 <= x < adj@.len() ==> (#[trigger] vis@[x] <==> in_closure(adj@, seeds@, x)),
{
    let n = adj.len();
    let mut vis: Vec<bool> = vec![false; n];
    let mut queue: Vec<usize> = Vec::new();
    let mut i: usize = 0;
    while i < seeds.len()
        invariant
            forall|k: int| 0 <= k < seeds@.len() ==> #[trigger] seeds@[k] < adj@.len(),
            n == adj@.len(),
            i <= seeds@.len(),
            queue@ == seeds@.take(i as int),
        decreases seeds@.len() - i,
    {
        queue.push(seeds[i]);
        proof {
            assert(seeds@.take(i + 1) =~= seeds@.take(i as int).push(seeds@[i as int]));
        }
        i = i + 1;
    }
    proof {
        assert(seeds@.take(seeds@.len() as int) =~= seeds@);
        assert forall|k: int| 0 <= k < queue@.len() implies in_closure(adj@, seeds@, #[trigger] queue@[k] as int) by {
            lemma_seed_in_closure(adj@, seeds@, k);
        }
        assert forall|k: int| 0 <= k < seeds@.len() implies #[trigger] vis@[seeds@[k] as int] || queue@.contains(seeds@[k]) by {
            assert(queue@[k] == seeds@[k]);
        }
    }
    while queue.len() > 0
        invariant
            n == adj@.len(),
            forall|p: int, j: int| 0 <= p < n && 0 <= j < adj@[p]@.len() ==> #[trigger] adj@[p]@[j] < n,
            forall|k: int| 0 <= k < seeds@.len() ==> #[trigger] seeds@[k] < n,
            vis@.len() == n,
            forall|k: int| 0 <= k < queue@.len() ==> #[trigger] queue@[k] < n,
            forall|x: int| 0 <= x < n && #[trigger] vis@[x] ==> in_closure(adj@, seeds@, x),
            forall|k: int| 0 <= k < queue@.len() ==> in_closure(adj@, seeds@, #[trigger] queue@[k] as int),
            forall|x: int, j: int|
                0 <= x < n && vis@[x] && 0 <= j < adj@[x]@.len() ==> #[trigger] vis@[adj@[x]@[j] as int]
                    || queue@.contains(adj@[x]@[j]),
            forall|k: int| 0 <= k < seeds@.len() ==> #[trigger] vis@[seeds@[k] as int] || queue@.contains(seeds@[k]),
        decreases count_false(vis@), queue@.len(),
    {
        let ghost q0 = queue@;
        let q = queue.pop().unwrap();
        proof {
            assert(q0 == queue@.push(q));
            assert(q0[q0.len() - 1] == q);
        }
        if !vis[q] {
            let ghost v0 = vis@;
            vis.set(q, true);
            proof {
                lemma_count_false_set(v0, q as int);
            }
            let succ = &adj[q];
            let m = succ.len();
            let mut j: usize = 0;
            while j < m
                invariant
                    n == adj@.len(),
                    q < n,
                    *succ == adj@[q as int],
                    m == succ@.len(),
                    j <= m,
                    forall|p: int, j2: int| 0 <= p < n && 0 <= j2 < adj@[p]@.len() ==> #[trigger] adj@[p]@[j2] < n,
                    in_closure(adj@, seeds@, q as int),
                    vis@.len() == n,
                    forall|k: int| 0 <= k < queue@.len() ==> #[trigger] queue@[k] < n,
                    forall|k: int| 0 <= k < queue@.len() ==> in_closure(adj@, seeds@, #[trigger] queue@[k] as int),
                    forall|k: int| 0 <= k < q0.len() - 1 ==> queue@.contains(#[trigger] q0[k]),
                    forall|j2: int| 0 <= j2 < j ==> #[trigger] vis@[succ@[j2] as int] || queue@.contains(succ@[j2]),
                decreases m - j,
            {
                let p = succ[j];
                let ghost qb = queue@;
                if !vis[p] {
                    proof {
                        lemma_closure_step(adj@, seeds@, q as int, p as int);
                    }
                    queue.push(p);
                }
                proof {
                    assert forall|k: int| 0 <= k < q0.len() - 1 implies queue@.contains(#[trigger] q0[k]) by {
                        let w = choose|w: int| 0 <= w < qb.len() && qb[w] == q0[k];
                        assert(queue@[w] == q0[k]);
                    }
                    assert forall|j2: int| 0 <= j2 < j + 1 implies #[trigger] vis@[succ@[j2] as int] || queue@.contains(succ@[j2]) by {
                        if j2 < j {
                            if !vis@[succ@[j2] as int] {
                                let w = choose|w: int| 0 <= w < qb.len() && qb[w] == succ@[j2];
                                assert(queue@[w] == succ@[j2]);
                            }
                        } else if !vis@[p as int] {
                            assert(queue@[queue@.len() - 1] == p);
                        }
                    }
                }
                j = j + 1;
            }
            proof {
                assert forall|x: int, j2: int|
                    0 <= x < n && vis@[x] && 0 <= j2 < adj@[x]@.len() implies #[trigger] vis@[adj@[x]@[j2] as int]
                        || queue@.contains(adj@[x]@[j2]) by {
                    if x != q as int {
                        assert(v0[x]);
                        let y = adj@[x]@[j2];
                        if !vis@[y as int] {
                            assert(q0.contains(y));
                            let w = choose|w: int| 0 <= w < q0.len() && q0[w] == y;
                            if w < q0.len() - 1 {
                                assert(queue@.contains(q0[w]));
                            } else {
                                assert(y == q);
                            }
                        }
                    }
                }
                assert forall|k: int| 0 <= k < seeds@.len() implies #[trigger] vis@[seeds@[k] as int] || queue@.contains(seeds@[k]) by {
                    let y = seeds@[k];
                    if !vis@[y as int] {
                        assert(!v0[y as int]);
                        assert(q0.contains(y));
                        let w = choose|w: int| 0 <= w < q0.len() && q0[w] == y;
                        if w < q0.len() - 1 {
                            assert(queue@.contains(q0[w]));
                        } else {
                            assert(y == q);
                        }
                    }
                }
                assert forall|x: int| 0 <= x < n && #[trigger] vis@[x] implies in_closure(adj@, seeds@, x) by {
                    if x != q as int {
                        assert(v0[x]);
                    }
                }
            }
        } else {
            proof {
                assert forall|x: int, j2: int|
                    0 <= x < n && vis@[x] && 0 <= j2 < adj@[x]@.len() implies #[trigger] vis@[adj@[x]@[j2] as int]
                        || queue@.contains(adj@[x]@[j2]) by {
                    let y = adj@[x]@[j2];
                    if !vis@[y as int] {
                        let w = choose|w: int| 0 <= w < q0.len() && q0[w] == y;
                        if w < q0.len() - 1 {
                            assert(queue@[w] == y);
                        } else {
                            assert(y == q);
                        }
                    }
                }
                assert forall|k: int| 0 <= k < seeds@.len() implies #[trigger] vis@[seeds@[k] as int] || queue@.contains(seeds@[k]) by {
                    let y = seeds@[k];
                    if !vis@[y as int] {
                        let w = choose|w: int| 0 <= w < q0.len() && q0[w] == y;
                        if w < q0.len() - 1 {
                            assert(queue@[w] == y);
                        } else {
                            assert(y == q);
                        }
                    }
                }
                assert forall|k: int| 0 <= k < queue@.len() implies in_closure(adj@, seeds@, #[trigger] queue@[k] as int) by {
                    assert(queue@[k] == q0[k]);
                }
            }
        }
    }
    proof {
        assert forall|x: int| 0 <= x < n implies (#[trigger] vis@[x] <==> in_closure(adj@, seeds@, x)) by {
            if in_closure(adj@, seeds@, x) {
                let path = choose|path: Seq<int>| #[trigger] adj_path(adj@, path) && seeds@.contains(path[0] as usize) && path.last() == x;
                assert forall|k: int| 0 <= k < seeds@.len() implies #[trigger] vis@[seeds@[k] as int] by {
                    assert(!queue@.contains(seeds@[k]));
                }
                assert forall|y: int, j: int|
                    0 <= y < n && vis@[y] && 0 <= j < adj@[y]@.len() implies #[trigger] vis@[adj@[y]@[j] as int] by {
                    assert(!queue@.contains(adj@[y]@[j]));
                }
                lemma_closed_contains(adj@, seeds@, vis@, path);
            }
        }
    }
    vis
}

/// State `p` has a transition to `r` on the symbol `zero`.
pub open spec fn zero_step(fa: &Fa, zero: i32, p: int, r: int) -> bool {
    fa.row(p).contains_key(zero) && fa.dests(p, zero).contains(r as usize)
}

/// `path` is a walk through the states on the symbol `zero` alone.
pub open spec fn zero_path(fa: &Fa, zero: i32, path: Seq<int>) -> bool {
    &&& path.len() >= 1
    &&& forall|i: int| 0 <= i < path.len() ==> 0 <= #[trigger] path[i] < fa.q
    &&& forall|i: int| 0 <= i < path.len() - 1 ==> #[trigger] zero_step(fa, zero, path[i], path[i + 1])
}

/// State `x` is reached from the start state by reading `zero` some number of times.
pub open spec fn zero_reachable(fa: &Fa, zero: i32, x: int) -> bool {
    exists|path: Seq<int>| #[trigger] zero_path(fa, zero, path) && path[0] == fa.q0 && path.last() == x
}

/// An accepting state is reached from `x` by reading `zero` some number of times.
pub open spec fn reaches_acceptance_by_zeros(fa: &Fa, zero: i32, x: int) -> bool {
    exists|path: Seq<int>| #[trigger] zero_path(fa, zero, path) && path[0] == x && fa.accepting(path.last())
}

/// The successors of each state on the symbol `zero`.
fn zero_successors(fa: &Fa, zero: i32) -> (adj: Vec<Vec<usize>>)
    requires
        fa.wf(),
    ensures
        adj@.len() == fa.q,
        forall|p: int, r: int| 0 <= p < fa.q && 0 <= r < fa.q ==> (#[trigger] adj@[p]@.contains(r as usize) <==> zero_step(fa, zero, p, r)),
        forall|p: int, j: int| 0 <= p < fa.q && 0 <= j < adj@[p]@.len() ==> #[trigger] adj@[p]@[j] < fa.q,
{
    let n = fa.q;
    let mut adj: Vec<Vec<usize>> = Vec::new();
    let mut p: usize = 0;
    while p < n
        invariant
            n == fa.q,
            fa.wf(),
            p <= n,
            adj@.len() == p,
            forall|x: int, r: int| 0 <= x < p && 0 <= r < n ==> (#[trigger] adj@[x]@.contains(r as usize) <==> zero_step(fa, zero, x, r)),
            forall|x: int, j: int| 0 <= x < p && 0 <= j < adj@[x]@.len() ==> #[trigger] adj@[x]@[j] < n,
        decreases n - p,
    {
        let list = match fa.d[p].get(&zero) {
            Some(v) => copy_dests(v),
            None => Vec::new(),
        };
        proof {
            assert forall|r: int| 0 <= r < n implies (#[trigger] list@.contains(r as usize) <==> zero_step(fa, zero, p as int, r)) by {
            }
            assert forall|j: int| 0 <= j < list@.len() implies #[trigger] list@[j] < n by {
                assert(fa.dests(p as int, zero)[j] < fa.q);
            }
        }
        let ghost a0 = adj@;
        adj.push(list);
        proof {
            assert forall|x: int, r: int| 0 <= x < p + 1 && 0 <= r < n implies (#[trigger] adj@[x]@.contains(r as usize) <==> zero_step(fa, zero, x, r)) by {
                if x < p {
                    assert(adj@[x] == a0[x]);
                }
            }
            assert forall|x: int, j: int| 0 <= x < p + 1 && 0 <= j < adj@[x]@.len() implies #[trigger] adj@[x]@[j] < n by {
                if x < p {
                    assert(adj@[x] == a0[x]);
                }
            }
        }
        p = p + 1;
    }
    adj
}

/// Appends `x` to the list at position `i`.
fn push_at(v: &mut Vec<Vec<usize>>, i: usize, x: usize)
    requires
        i < old(v)@.len(),
    ensures
        final(v)@.len() == old(v)@.len(),
        final(v)@[i as int]@ == old(v)@[i as int]@.push(x),
        forall|j: int| 0 <= j < old(v)@.len() && j != i ==> #[trigger] final(v)@[j] == old(v)@[j],
{
    let mut tmp: Vec<usize> = Vec::new();
    v.set_and_swap(i, &mut tmp);
    tmp.push(x);
    v.set_and_swap(i, &mut tmp);
}

/// The predecessors of each state on the symbol `zero`.
fn zero_predecessors(fa: &Fa, zero: i32) -> (adj: Vec<Vec<usize>>)
    requires
        fa.wf(),
    ensures
        adj@.len() == fa.q,
        forall|p: int, r: int| 0 <= p < fa.q && 0 <= r < fa.q ==> (#[trigger] adj@[p]@.contains(r as usize) <==> zero_step(fa, zero, r, p)),
        forall|p: int, j: int| 0 <= p < fa.q && 0 <= j < adj@[p]@.len() ==> #[trigger] adj@[p]@[j] < fa.q,
{
    let n = fa.q;
    let mut adj: Vec<Vec<usize>> = Vec::new();
    let mut p: usize = 0;
    while p < n
        invariant
            p <= n,
            adj@.len() == p,
            forall|x: int| 0 <= x < p ==> #[trigger] adj@[x]@.len() == 0,
        decreases n - p,
    {
        adj.push(Vec::new());
        p = p + 1;
    }
    let mut q: usize = 0;
    while q < n
        invariant
            n == fa.q,
            fa.wf(),
            q <= n,
            adj@.len() == n,
            forall|x: int, r: int| 0 <= x < n && 0 <= r < n ==> (#[trigger] adj@[x]@.contains(r as usize) <==> (r < q && zero_step(fa, zero, r, x))),
            forall|x: int, j: int| 0 <= x < n && 0 <= j < adj@[x]@.len() ==> #[trigger] adj@[x]@[j] < q,
        decreases n - q,
    {
        match fa.d[q].get(&zero) {
            Some(v) => {
                let m = v.len();
                let mut j: usize = 0;
                while j < m
                    invariant
                        n == fa.q,
                        fa.wf(),
                        q < n,
                        fa.row(q as int).contains_key(zero),
                        *v == fa.row(q as int)[zero],
                        m == v@.len(),
                        j <= m,
                        adj@.len() == n,
                        forall|x: int, r: int| 0 <= x < n && 0 <= r < n ==> (#[trigger] adj@[x]@.contains(r as usize) <==> (r < q && zero_step(fa, zero, r, x)) || (r == q && v@.take(j as int).contains(x as usize))),
                        forall|x: int, k: int| 0 <= x < n && 0 <= k < adj@[x]@.len() ==> #[trigger] adj@[x]@[k] <= q,
                    decreases m - j,
                {
                    let dest = v[j];
                    proof {
                        assert(fa.dests(q as int, zero)[j as int] < fa.q);
                    }
                    let ghost a0 = adj@;
                    push_at(&mut adj, dest, q);
                    proof {
                        assert(v@.take(j + 1) =~= v@.take(j as int).push(dest));
                        assert forall|x: int, r: int| 0 <= x < n && 0 <= r < n implies (#[trigger] adj@[x]@.contains(r as usize) <==> (r < q && zero_step(fa, zero, r, x)) || (r == q && v@.take(j + 1).contains(x as usize))) by {
                            if x == dest as int {
                                if adj@[x]@.contains(r as usize) && !a0[x]@.contains(r as usize) {
                                    assert(r == q);
                                    assert(v@.take(j + 1)[j as int] == dest);
                                }
                                if r == q && v@.take(j + 1).contains(x as usize) && !v@.take(j as int).contains(x as usize) {
                                    assert(adj@[x]@[a0[x]@.len() as int] == q);
                                }
                                if a0[x]@.contains(r as usize) {
                                    let k = choose|k: int| 0 <= k < a0[x]@.len() && a0[x]@[k] == r as usize;
                                    assert(adj@[x]@[k] == r as usize);
                                }
                            } else {
                                assert(adj@[x] == a0[x]);
                                if r == q && v@.take(j + 1).contains(x as usize) {
                                    let t1 = v@.take(j + 1);
                                    let k = choose|k: int| 0 <= k < t1.len() && t1[k] == x as usize;
                                    assert(k != j);
                                    assert(v@.take(j as int)[k] == x as usize);
                                }
                            }
                        }
                        assert forall|x: int, k: int| 0 <= x < n && 0 <= k < adj@[x]@.len() implies #[trigger] adj@[x]@[k] <= q by {
                            if x == dest as int {
                                if k < a0[x]@.len() {
                                    assert(adj@[x]@[k] == a0[x]@[k]);
                                }
                            } else {
                                assert(adj@[x] == a0[x]);
                            }
                        }
                    }
                    j = j + 1;
                }
                proof {
                    assert(v@.take(m as int) =~= v@);
                }
            },
            None => {},
        }
        proof {
            assert forall|x: int, r: int| 0 <= x < n && 0 <= r < n implies (#[trigger] adj@[x]@.contains(r as usize) <==> (r < q + 1 && zero_step(fa, zero, r, x))) by {
                if r == q {
                    if !fa.row(q as int).contains_key(zero) {
                        assert(!zero_step(fa, zero, r, x));
                    }
                }
            }
            assert forall|x: int, k: int| 0 <= x < n && 0 <= k < adj@[x]@.len() implies #[trigger] adj@[x]@[k] < q + 1 by {
            }
        }
        q = q + 1;
    }
    adj
}

proof fn lemma_forward_closure(fa: &Fa, zero: i32, adj: Seq<Vec<usize>>, x: int)
    requires
        adj.len() == fa.q,
        fa.q <= usize::MAX,
        0 <= fa.q0 < fa.q,
        forall|p: int, r: int| 0 <= p < fa.q && 0 <= r < fa.q ==> (#[trigger] adj[p]@.contains(r as usize) <==> zero_step(fa, zero, p, r)),
        forall|p: int, j: int| 0 <= p < fa.q && 0 <= j < adj[p]@.len() ==> #[trigger] adj[p]@[j] < fa.q,
        0 <= x < fa.q,
    ensures
        in_closure(adj, seq![fa.q0], x) <==> zero_reachable(fa, zero, x),
{
    let seeds = seq![fa.q0];
    if in_closure(adj, seeds, x) {
        let path = choose|path: Seq<int>| #[trigger] adj_path(adj, path) && seeds.contains(path[0] as usize) && path.last() == x;
        assert forall|i: int| 0 <= i < path.len() - 1 implies #[trigger] zero_step(fa, zero, path[i], path[i + 1]) by {
            assert(adj[path[i]]@.contains(path[i + 1] as usize));
            assert(0 <= path[i + 1] < fa.q);
        }
        assert forall|i: int| 0 <= i < path.len() implies 0 <= #[trigger] path[i] < fa.q by {
        }
        assert(zero_path(fa, zero, path));
        assert(path[0] == fa.q0);
    }
    if zero_reachable(fa, zero, x) {
        let path = choose|path: Seq<int>| #[trigger] zero_path(fa, zero, path) && path[0] == fa.q0 && path.last() == x;
        assert forall|i: int| 0 <= i < path.len() - 1 implies #[trigger] adj[path[i]]@.contains(path[i + 1] as usize) by {
            assert(zero_step(fa, zero, path[i], path[i + 1]));
            assert(0 <= path[i + 1] < fa.q);
        }
        assert forall|i: int| 0 <= i < path.len() implies 0 <= #[trigger] path[i] < adj.len() by {
        }
        assert(adj_path(adj, path));
        assert(seeds[0] == path[0] as usize);
        assert(seeds.contains(path[0] as usize));
    }
}

proof fn lemma_backward_closure(fa: &Fa, zero: i32, adj: Seq<Vec<usize>>, seeds: Seq<usize>, x: int)
    requires
        adj.len() == fa.q,
        fa.q <= usize::MAX,
        fa.o@.len() == fa.q,
        forall|p: int, r: int| 0 <= p < fa.q && 0 <= r < fa.q ==> (#[trigger] adj[p]@.contains(r as usize) <==> zero_step(fa, zero, r, p)),
        forall|p: int, j: int| 0 <= p < fa.q && 0 <= j < adj[p]@.len() ==> #[trigger] adj[p]@[j] < fa.q,
        forall|s: usize| #[trigger] seeds.contains(s) <==> s < fa.q && fa.accepting(s as int),
        0 <= x < fa.q,
    ensures
        in_closure(adj, seeds, x) <==> reaches_acceptance_by_zeros(fa, zero, x),
{
    if in_closure(adj, seeds, x) {
        let path = choose|path: Seq<int>| #[trigger] adj_path(adj, path) && seeds.contains(path[0] as usize) && path.last() == x;
        let rp = path.reverse();
        assert forall|i: int| 0 <= i < rp.len() - 1 implies #[trigger] zero_step(fa, zero, rp[i], rp[i + 1]) by {
            let k = path.len() - 2 - i;
            assert(rp[i] == path[k + 1]);
            assert(rp[i + 1] == path[k]);
            assert(adj[path[k]]@.contains(path[k + 1] as usize));
            assert(0 <= path[k + 1] < fa.q);
        }
        assert forall|i: int| 0 <= i < rp.len() implies 0 <= #[trigger] rp[i] < fa.q by {
            assert(rp[i] == path[path.len() - 1 - i]);
        }
        assert(zero_path(fa, zero, rp));
        assert(rp[0] == x);
        assert(rp.last() == path[0]);
        assert(0 <= path[0] < fa.q);
        assert(seeds.contains(path[0] as usize));
        assert(fa.accepting(rp.last()));
    }
    if reaches_acceptance_by_zeros(fa, zero, x) {
        let path = choose|path: Seq<int>| #[trigger] zero_path(fa, zero, path) && path[0] == x && fa.accepting(path.last());
        let rp = path.reverse();
        assert forall|i: int| 0 <= i < rp.len() - 1 implies #[trigger] adj[rp[i]]@.contains(rp[i + 1] as usize) by {
            let k = path.len() - 2 - i;
            assert(rp[i] == path[k + 1]);
            assert(rp[i + 1] == path[k]);
            assert(zero_step(fa, zero, path[k], path[k + 1]));
            assert(0 <= path[k] < fa.q);
            assert(0 <= path[k + 1] < fa.q);
        }
        assert forall|i: int| 0 <= i < rp.len() implies 0 <= #[trigger] rp[i] < adj.len() by {
            assert(rp[i] == path[path.len() - 1 - i]);
        }
        assert(adj_path(adj, rp));
        assert(rp[0] == path.last());
        assert(0 <= path.last() < fa.q);
        assert(seeds.contains(rp[0] as usize));
        assert(rp.last() == path[0]);
    }
}

/// The states reached from the start state by reading `zero` some number of times.
///
/// Before the search, a loop `start --zero--> start` is added to the start state's
/// transitions when it is not there yet; it stays in the automaton.
pub fn zero_reachable_states(fa: &mut Fa, zero: i32) -> (r: BTreeSet<usize>)
    requires
        old(fa).wf(),
        old(fa).q0 < old(fa).q,
    ensures
        final(fa).wf(),
        final(fa).q == old(fa).q,
        final(fa).q0 == old(fa).q0,
        final(fa).alphabet_size == old(fa).alphabet_size,
        final(fa).true_false == old(fa).true_false,
        final(fa).o == old(fa).o,
        final(fa).d@.len() == old(fa).d@.len(),
        forall|p: int| 0 <= p < old(fa).q && p != old(fa).q0 ==> #[trigger] final(fa).d@[p] == old(fa).d@[p],
        forall|sym: i32|
            sym != zero ==> #[trigger] final(fa).row(old(fa).q0 as int).contains_key(sym) == old(fa).row(
                old(fa).q0 as int,
            ).contains_key(sym),
        forall|sym: i32|
            sym != zero && #[trigger] old(fa).row(old(fa).q0 as int).contains_key(sym) ==> final(fa).row(
                old(fa).q0 as int,
            )[sym] == old(fa).row(old(fa).q0 as int)[sym],
        final(fa).row(old(fa).q0 as int).contains_key(zero),
        final(fa).dests(old(fa).q0 as int, zero) == if !old(fa).row(old(fa).q0 as int).contains_key(zero) {
            seq![old(fa).q0]
        } else if old(fa).dests(old(fa).q0 as int, zero).contains(old(fa).q0) {
            old(fa).dests(old(fa).q0 as int, zero)
        } else {
            old(fa).dests(old(fa).q0 as int, zero).push(old(fa).q0)
        },
        forall|x: usize| #[trigger] r@.contains(x) <==> x < old(fa).q && zero_reachable(final(fa), zero, x as int),
{
    let ghost pre = *fa;
    let n = fa.q;
    let q0 = fa.q0;
    let dlen = fa.d.len();
    let (changed, newlist) = match fa.d[q0].get(&zero) {
        Some(v) => {
            if contains_state(v, q0) {
                (false, Vec::new())
            } else {
                let mut c = copy_dests(v);
                c.push(q0);
                (true, c)
            }
        },
        None => {
            let mut c: Vec<usize> = Vec::new();
            c.push(q0);
            (true, c)
        },
    };
    if changed {
        let mut row = fa.d[q0].clone();
        row.insert(zero, newlist);
        fa.d.set(q0, row);
    }
    proof {
        assert forall|p: int, sym: i32, k: int|
            #![trigger fa.dests(p, sym)[k]]
            0 <= p < fa.q && fa.row(p).contains_key(sym) && 0 <= k < fa.dests(p, sym).len() implies fa.dests(p, sym)[k]
                < fa.q by {
            if p != q0 as int || sym != zero {
                assert(pre.dests(p, sym)[k] < pre.q);
            } else if changed {
                if pre.row(p).contains_key(zero) && k < pre.dests(p, zero).len() {
                    assert(pre.dests(p, sym)[k] < pre.q);
                }
            } else {
                assert(pre.dests(p, sym)[k] < pre.q);
            }
        }
        assert(fa.wf());
    }
    let adj = zero_successors(fa, zero);
    let mut seeds: Vec<usize> = Vec::new();
    seeds.push(q0);
    let vis = closure(&adj, &seeds);
    let mut result: BTreeSet<usize> = BTreeSet::new();
    let mut x: usize = 0;
    while x < n
        invariant
            n == fa.q,
            x <= n,
            vis@.len() == n,
            forall|y: usize| #[trigger] result@.contains(y) <==> y < x && vis@[y as int],
        decreases n - x,
    {
        if vis[x] {
            result.insert(x);
        }
        x = x + 1;
    }
    proof {
        assert(seeds@ =~= seq![fa.q0]);
        assert forall|y: usize| #[trigger] result@.contains(y) <==> y < pre.q && zero_reachable(fa, zero, y as int) by {
            if y < n {
                lemma_forward_closure(fa, zero, adj@, y as int);
            }
        }
    }
    result
}

/// `v` holds the state `x`.
fn contains_state(v: &Vec<usize>, x: usize) -> (r: bool)
    ensures
        r == v@.contains(x),
{
    let n = v.len();
    let mut i: usize = 0;
    while i < n
        invariant
            n == v@.len(),
            i <= n,
            forall|j: int| 0 <= j < i ==> v@[j] != x,
        decreases n - i,
    {
        if v[i] == x {
            return true;
        }
        i = i + 1;
    }
    false
}

/// Some state from which an accepting state is reached by zeros does not output `1`.
pub open spec fn trailing_zero_closure_changes(fa: &Fa, zero: i32) -> bool {
    exists|p: int| 0 <= p < fa.q && #[trigger] reaches_acceptance_by_zeros(fa, zero, p) && fa.o@[p] != 1
}

/// Makes every state from which an accepting state is reached by reading `zero` some
/// number of times output `1`; returns whether some output changed.
pub fn set_states_reachable_to_final_states_by_zeros(fa: &mut Fa, zero: i32) -> (r: bool)
    requires
        old(fa).wf(),
    ensures
        final(fa).q == old(fa).q,
        final(fa).q0 == old(fa).q0,
        final(fa).alphabet_size == old(fa).alphabet_size,
        final(fa).true_false == old(fa).true_false,
        final(fa).d == old(fa).d,
        final(fa).o@.len() == old(fa).o@.len(),
        forall|p: int| 0 <= p < old(fa).q ==> #[trigger] final(fa).o@[p] == if reaches_acceptance_by_zeros(old(fa), zero, p) {
            1i32
        } else {
            old(fa).o@[p]
        },
        r == trailing_zero_closure_changes(old(fa), zero),
{
    let ghost pre = *fa;
    let n = fa.q;
    let dl = fa.d.len();
    let adj = zero_predecessors(fa, zero);
    let mut seeds: Vec<usize> = Vec::new();
    let mut p: usize = 0;
    while p < n
        invariant
            n == fa.q,
            fa.wf(),
            p <= n,
            forall|k: int| 0 <= k < seeds@.len() ==> #[trigger] seeds@[k] < n,
            forall|s: usize| #[trigger] seeds@.contains(s) <==> s < p && fa.accepting(s as int),
        decreases n - p,
    {
        if fa.is_accepting(p) {
            let ghost s0 = seeds@;
            seeds.push(p);
            proof {
                assert forall|s: usize| #[trigger] seeds@.contains(s) <==> s < p + 1 && fa.accepting(s as int) by {
                    if s == p {
                        assert(seeds@[seeds@.len() - 1] == p);
                    }
                    if seeds@.contains(s) && s != p {
                        let k = choose|k: int| 0 <= k < seeds@.len() && seeds@[k] == s;
                        assert(s0[k] == s);
                    }
                    if s0.contains(s) {
                        let k = choose|k: int| 0 <= k < s0.len() && s0[k] == s;
                        assert(seeds@[k] == s);
                    }
                }
            }
        }
        p = p + 1;
    }
    let vis = closure(&adj, &seeds);
    proof {
        assert forall|x: int| 0 <= x < n implies (#[trigger] vis@[x] <==> reaches_acceptance_by_zeros(fa, zero, x)) by {
            lemma_backward_closure(fa, zero, adj@, seeds@, x);
        }
    }
    let mut altered = false;
    let mut x: usize = 0;
    while x < n
        invariant
            n == pre.q,
            fa.q == pre.q,
            fa.q0 == pre.q0,
            fa.alphabet_size == pre.alphabet_size,
            fa.true_false == pre.true_false,
            fa.d == pre.d,
            fa.o@.len() == n,
            vis@.len() == n,
            forall|y: int| 0 <= y < n ==> (#[trigger] vis@[y] <==> reaches_acceptance_by_zeros(&pre, zero, y)),
            x <= n,
            forall|y: int| x <= y < n ==> #[trigger] fa.o@[y] == pre.o@[y],
            forall|y: int| 0 <= y < x ==> #[trigger] fa.o@[y] == if vis@[y] {
                1i32
            } else {
                pre.o@[y]
            },
            altered == exists|y: int| 0 <= y < x && #[trigger] vis@[y] && pre.o@[y] != 1,
        decreases n - x,
    {
        if vis[x] {
            let ghost a0 = altered;
            altered = altered || fa.o[x] != 1;
            fa.o.set(x, 1);
            proof {
                if pre.o@[x as int] != 1 {
                    assert(vis@[x as int] && pre.o@[x as int] != 1);
                }
                if a0 {
                    let y = choose|y: int| 0 <= y < x && #[trigger] vis@[y] && pre.o@[y] != 1;
                    assert(0 <= y < x + 1);
                }
            }
        }
        x = x + 1;
    }
    proof {
        if altered {
            let y = choose|y: int| 0 <= y < n && #[trigger] vis@[y] && pre.o@[y] != 1;
            assert(reaches_acceptance_by_zeros(&pre, zero, y));
        }
        if trailing_zero_closure_changes(&pre, zero) {
            let y = choose|y: int| 0 <= y < pre.q && #[trigger] reaches_acceptance_by_zeros(&pre, zero, y) && pre.o@[y] != 1;
            assert(vis@[y]);
        }
    }
    altered
}

/// The symbol that reads a zero on every track of `a`.
pub open spec fn zero_symbol(a: &Automaton) -> int {
    crate::automaton::encoding_from(
        crate::automaton::alphabet_view(a.alphabet@),
        crate::automaton::zero_tuple(a.alphabet@.len()),
        0,
    )
}

/// Walks on `zero` depend only on the state count and the transitions.
proof fn lemma_zero_path_same(f0: &Fa, f1: &Fa, zero: i32, path: Seq<int>)
    requires
        f1.q == f0.q,
        f1.d == f0.d,
    ensures
        zero_path(f1, zero, path) == zero_path(f0, zero, path),
{
    assert forall|p: int, r: int| #[trigger] zero_step(f1, zero, p, r) == zero_step(f0, zero, p, r) by {
        assert(f1.row(p) == f0.row(p));
    }
    if zero_path(f0, zero, path) {
        assert forall|i: int| 0 <= i < path.len() - 1 implies #[trigger] zero_step(f1, zero, path[i], path[i + 1]) by {
            assert(zero_step(f0, zero, path[i], path[i + 1]));
        }
    }
    if zero_path(f1, zero, path) {
        assert forall|i: int| 0 <= i < path.len() - 1 implies #[trigger] zero_step(f0, zero, path[i], path[i + 1]) by {
            assert(zero_step(f1, zero, path[i], path[i + 1]));
        }
    }
}

/// Two walks on `zero`, the second starting where the first ends, make one walk.
proof fn lemma_zero_path_concat(fa: &Fa, zero: i32, a: Seq<int>, b: Seq<int>)
    requires
        zero_path(fa, zero, a),
        zero_path(fa, zero, b),
        a.last() == b[0],
    ensures
        zero_path(fa, zero, a + b.drop_first()),
        (a + b.drop_first())[0] == a[0],
        (a + b.drop_first()).last() == b.last(),
{
    let c = a + b.drop_first();
    let n = a.len();
    assert forall|i: int| 0 <= i < c.len() implies 0 <= #[trigger] c[i] < fa.q by {
        if i < n {
            assert(c[i] == a[i]);
        } else {
            assert(c[i] == b[i - n + 1]);
        }
    }
    assert forall|i: int| 0 <= i < c.len() - 1 implies #[trigger] zero_step(fa, zero, c[i], c[i + 1]) by {
        if i < n - 1 {
            assert(c[i] == a[i]);
            assert(c[i + 1] == a[i + 1]);
        } else if i == n - 1 {
            assert(c[i] == b[0]);
            assert(c[i + 1] == b[1]);
        } else {
            assert(c[i] == b[i - n + 1]);
            assert(c[i + 1] == b[i - n + 2]);
        }
    }
    if b.len() == 1 {
        assert(c =~= a);
    } else {
        assert(c.last() == b[b.len() - 1]);
    }
}

/// Closing the accepting set under trailing zeros is idempotent: once every state from
/// which an accepting state is reached by reading zeros accepts, doing it again changes
/// nothing.
pub proof fn law_trailing_zero_closure_is_idempotent(f0: &Fa, f1: &Fa, zero: i32)
    requires
        f0.wf(),
        f1.q == f0.q,
        f1.d == f0.d,
        f1.o@.len() == f0.o@.len(),
        forall|p: int| 0 <= p < f0.q ==> #[trigger] f1.o@[p] == if reaches_acceptance_by_zeros(f0, zero, p) {
            1i32
        } else {
            f0.o@[p]
        },
    ensures
        !trailing_zero_closure_changes(f1, zero),
{
    assert forall|p: int| 0 <= p < f1.q && #[trigger] reaches_acceptance_by_zeros(f1, zero, p) implies f1.o@[p] == 1 by {
        let path = choose|path: Seq<int>| #[trigger] zero_path(f1, zero, path) && path[0] == p && f1.accepting(path.last());
        lemma_zero_path_same(f0, f1, zero, path);
        let a = path.last();
        assert(0 <= a < f0.q) by {
            assert(path[path.len() - 1] == a);
        }
        if reaches_acceptance_by_zeros(f0, zero, a) {
            let tail = choose|t: Seq<int>| #[trigger] zero_path(f0, zero, t) && t[0] == a && f0.accepting(t.last());
            lemma_zero_path_concat(f0, zero, path, tail);
            let whole = path + tail.drop_first();
            assert(zero_path(f0, zero, whole) && whole[0] == p && f0.accepting(whole.last()));
            assert(reaches_acceptance_by_zeros(f0, zero, p));
        } else {
            assert(f1.o@[a] == f0.o@[a]);
            assert(f0.accepting(a));
            assert(zero_path(f0, zero, path) && path[0] == p && f0.accepting(path.last()));
            assert(reaches_acceptance_by_zeros(f0, zero, p));
        }
    }
}

/// The complement: a trivial automaton becomes the other trivial automaton; otherwise
/// missing transitions are routed to a rejecting sink, the outputs are flipped, and the
/// result is minimized (so it is a partial deterministic automaton again), with the
/// tracks kept and the numbering no longer fixed.
pub fn not(a: Automaton) -> (r: Automaton)
    requires
        a.fa.true_false is None ==> {
            &&& a.fa.wf()
            &&& a.fa.spec_deterministic()
            &&& a.fa.alphabet_size <= i32::MAX
            &&& a.fa.q > 0 ==> a.fa.q0 < a.fa.q
        },
    ensures
        a.fa.true_false matches Some(t) ==> {
            &&& r.fa.true_false == Some(!t)
            &&& r.fa.q == 0
            &&& r.alphabet@.len() == 0
            &&& r.msd@.len() == 0
        },
        a.fa.true_false is None ==> {
            &&& r.fa.true_false is None
            &&& r.fa.alphabet_size == a.fa.alphabet_size
            &&& r.alphabet == a.alphabet
            &&& r.label == a.label
            &&& r.msd == a.msd
            &&& !r.canonized
            &&& a.fa.q == 0 ==> r.fa.q == 0
            &&& a.fa.q > 0 ==> is_partial_dfa(&r.fa) && is_minimal(&r.fa) && 1 <= r.fa.q <= a.fa.q + 1
            &&& a.fa.q > 0 && has_destinations(&a.fa) ==> forall|w: Seq<i32>|
                over_alphabet(w, a.fa.alphabet_size as int) ==> (#[trigger] accepts(&r.fa, w) <==> !accepts(&a.fa, w))
        },
{
    let mut m = a;
    if m.fa.is_true_false_automaton() {
        let t = match m.fa.true_false {
            Some(t) => t,
            None => false,
        };
        return Automaton::true_false(!t);
    }
    let ghost f0 = m.fa;
    totalize(&mut m.fa);
    let ghost f1 = m.fa;
    proof {
        assert(f1.wf()) by {
            if is_total(&f0) {
            } else {
                assert forall|p: int, sym: i32, k: int|
                    0 <= p < f1.q && f1.row(p).contains_key(sym) && 0 <= k < f1.dests(p, sym).len()
                    implies #[trigger] f1.dests(p, sym)[k] < f1.q by {
                    if p < f0.q {
                        if f0.row(p).contains_key(sym) {
                            assert(f1.row(p)[sym] == f0.row(p)[sym]);
                            assert(f0.dests(p, sym)[k] < f0.q);
                        } else {
                            assert(f1.dests(p, sym) == seq![f0.q as usize]);
                        }
                    } else {
                        assert(f1.dests(p, sym) == seq![f0.q as usize]);
                    }
                }
            }
        }
        assert(f1.spec_deterministic()) by {
            if !is_total(&f0) {
                assert forall|p: int, sym: i32|
                    0 <= p < f1.d@.len() && #[trigger] f1.row(p).contains_key(sym) implies f1.dests(p, sym).len() <= 1 by {
                    if p < f0.q {
                        if f0.row(p).contains_key(sym) {
                            assert(f1.row(p)[sym] == f0.row(p)[sym]);
                        } else {
                            assert(f1.dests(p, sym) == seq![f0.q as usize]);
                        }
                    } else {
                        assert(f1.dests(p, sym) == seq![f0.q as usize]);
                    }
                }
            }
        }
    }
    flip_output(&mut m.fa);
    let ghost f2 = m.fa;
    proof {
        assert forall|p: int, sym: i32, k: int|
            0 <= p < f2.q && f2.row(p).contains_key(sym) && 0 <= k < f2.dests(p, sym).len()
            implies #[trigger] f2.dests(p, sym)[k] < f2.q by {
            assert(f1.row(p).contains_key(sym));
            assert(f1.dests(p, sym)[k] < f1.q);
        }
        assert forall|p: int, sym: i32|
            0 <= p < f2.d@.len() && #[trigger] f2.row(p).contains_key(sym) implies f2.dests(p, sym).len() <= 1 by {
            assert(f1.row(p).contains_key(sym));
        }
    }
    if m.fa.q > 0 {
        m.fa = just_minimize(&m.fa);
        proof {
            if has_destinations(&f0) {
                assert(has_destinations(&f1)) by {
                    if !is_total(&f0) {
                        assert forall|p: int, sym: i32|
                            0 <= p < f1.q && #[trigger] f1.row(p).contains_key(sym) implies f1.dests(p, sym).len() > 0 by {
                            if p < f0.q {
                                if f0.row(p).contains_key(sym) {
                                    assert(f1.row(p)[sym] == f0.row(p)[sym]);
                                } else {
                                    assert(f1.dests(p, sym) == seq![f0.q as usize]);
                                }
                            } else {
                                assert(f1.dests(p, sym) == seq![f0.q as usize]);
                            }
                        }
                    }
                }
                assert forall|w: Seq<i32>|
                    over_alphabet(w, f0.alphabet_size as int) implies (#[trigger] accepts(&m.fa, w) <==> !accepts(&f0, w)) by {
                    if !is_total(&f0) {
                        lemma_totalized_accepts(&f0, &f1, w);
                    }
                    lemma_total_run(&f1, f1.q0 as int, w);
                    lemma_run_in_range(&f1, f1.q0 as int, w);
                    lemma_run_same(&f2, &f1, f2.q0 as int, w);
                }
            }
        }
    }
    m.set_canonized(false);
    m
}

/// The complement is again an automaton that `not` complements exactly (it is a
/// partial deterministic automaton, so each present transition has its one
/// destination), and complementing twice gives back the language over the alphabet.
pub proof fn law_not_twice_restores_the_language(a: &Fa, b: &Fa, c: &Fa, k: int)
    requires
        is_partial_dfa(b),
        forall|w: Seq<i32>| over_alphabet(w, k) ==> (#[trigger] accepts(b, w) <==> !accepts(a, w)),
        forall|w: Seq<i32>| over_alphabet(w, k) ==> (#[trigger] accepts(c, w) <==> !accepts(b, w)),
    ensures
        b.wf(),
        b.spec_deterministic(),
        has_destinations(b),
        forall|w: Seq<i32>| over_alphabet(w, k) ==> (#[trigger] accepts(c, w) <==> accepts(a, w)),
{
    assert forall|w: Seq<i32>| over_alphabet(w, k) implies (#[trigger] accepts(c, w) <==> accepts(a, w)) by {
        assert(accepts(b, w) <==> !accepts(a, w));
    }
}


/// The accepting states of `fa` as a bit string.
fn accepting_bits(fa: &Fa) -> (r: Vec<bool>)
    requires
        fa.wf(),
    ensures
        r@.len() == fa.q,
        marked(r@) == accepting_set(fa),
{
    let n = fa.q;
    let mut r: Vec<bool> = Vec::new();
    let mut p: usize = 0;
    while p < n
        invariant
            fa.wf(),
            n == fa.q,
            p <= n,
            r@.len() == p,
            forall|j: int| 0 <= j < p ==> #[trigger] r@[j] == fa.accepting(j),
        decreases n - p,
    {
        r.push(fa.is_accepting(p));
        p = p + 1;
    }
    assert(marked(r@) =~= accepting_set(fa));
    r
}

/// The recorded number-system name of track `i`, if there is one.
pub open spec fn track_name(names: Seq<Option<String>>, i: int) -> Option<Seq<char>> {
    if 0 <= i < names.len() && names[i] is Some {
        Some(names[i]->Some_0@)
    } else {
        None
    }
}

/// Every track with a number system whose name is recorded has a name with a `_`.
pub open spec fn names_flippable(a: &Automaton) -> bool {
    forall|i: int|
        0 <= i < a.msd@.len() && a.msd@[i] is Some && #[trigger] track_name(a.ns_name@, i) is Some ==> first_underscore(
            track_name(a.ns_name@, i)->Some_0,
        ) >= 0
}

/// The reading directions `m1` and recorded names `n1` after switching every track with
/// a number system (`m0`, `n0`) to the other direction: a recorded name is replaced by the
/// name of the other direction, which then decides the track's direction; a track
/// without a recorded name just has its direction flipped; a track without a number
/// system is left alone.
pub open spec fn tracks_flipped(
    m0: Seq<Option<bool>>,
    n0: Seq<Option<String>>,
    m1: Seq<Option<bool>>,
    n1: Seq<Option<String>>,
) -> bool {
    &&& m1.len() == m0.len()
    &&& n1.len() == n0.len()
    &&& forall|i: int|
        0 <= i < m0.len() ==> #[trigger] m1[i] == match m0[i] {
            None => None,
            Some(b) => match track_name(n0, i) {
                None => Some(!b),
                Some(nm) => Some(crate::numsys::starts_with(flipped_name(nm), "msd_"@)),
            },
        }
    &&& forall|i: int|
        0 <= i < n0.len() ==> #[trigger] track_name(n1, i) == if i < m0.len() && m0[i] is Some && track_name(n0, i) is Some {
            Some(flipped_name(track_name(n0, i)->Some_0))
        } else {
            track_name(n0, i)
        }
}

/// Switches every track with a number system to the other reading direction, renaming
/// recorded number systems (`msd_fib` becomes `lsd_fib`).
pub fn flip_ns(a: &mut Automaton)
    requires
        names_flippable(old(a)),
    ensures
        tracks_flipped(old(a).msd@, old(a).ns_name@, final(a).msd@, final(a).ns_name@),
        final(a).fa == old(a).fa,
        final(a).alphabet == old(a).alphabet,
        final(a).label == old(a).label,
        final(a).canonized == old(a).canonized,
{
    let ghost m0 = a.msd@;
    let ghost n0 = a.ns_name@;
    let mut i: usize = 0;
    while i < a.msd.len()
        invariant
            a.msd@.len() == m0.len(),
            a.ns_name@.len() == n0.len(),
            a.fa == old(a).fa,
            a.alphabet == old(a).alphabet,
            a.label == old(a).label,
            a.canonized == old(a).canonized,
            m0 == old(a).msd@,
            n0 == old(a).ns_name@,
            names_flippable(old(a)),
            i <= a.msd@.len(),
            forall|j: int| 0 <= j < i ==> #[trigger] a.msd@[j] == match m0[j] {
                None => None,
                Some(b) => match track_name(n0, j) {
                    None => Some(!b),
                    Some(nm) => Some(crate::numsys::starts_with(flipped_name(nm), "msd_"@)),
                },
            },
            forall|j: int| i <= j < m0.len() ==> #[trigger] a.msd@[j] == m0[j],
            forall|j: int| i <= j < n0.len() ==> #[trigger] a.ns_name@[j] == n0[j],
            forall|j: int| 0 <= j < n0.len() ==> #[trigger] track_name(a.ns_name@, j) == if j < i && m0[j] is Some
                && track_name(n0, j) is Some {
                Some(flipped_name(track_name(n0, j)->Some_0))
            } else {
                track_name(n0, j)
            },
        decreases a.msd@.len() - i,
    {
        match a.msd[i] {
            None => {},
            Some(b) => {
                let renamed: Option<String> = if i < a.ns_name.len() {
                    match &a.ns_name[i] {
                        Some(x) => {
                            proof {
                                assert(track_name(n0, i as int) == Some(x@));
                            }
                            Some(flipped_ns_name(x.as_str()))
                        },
                        None => None,
                    }
                } else {
                    None
                };
                match renamed {
                    Some(nm) => {
                        let m = crate::numsys::has_prefix(nm.as_str(), "msd_");
                        a.msd.set(i, Some(m));
                        let ghost names0 = a.ns_name@;
                        a.ns_name.set(i, Some(nm));
                        proof {
                            assert forall|j: int| i + 1 <= j < n0.len() implies #[trigger] a.ns_name@[j] == n0[j] by {
                                assert(a.ns_name@[j] == names0[j]);
                            }
                            assert forall|j: int| 0 <= j < n0.len() implies #[trigger] track_name(a.ns_name@, j) == if j < i + 1
                                && m0[j] is Some && track_name(n0, j) is Some {
                                Some(flipped_name(track_name(n0, j)->Some_0))
                            } else {
                                track_name(n0, j)
                            } by {
                                if j != i as int {
                                    assert(track_name(a.ns_name@, j) == track_name(names0, j));
                                }
                            }
                        }
                    },
                    None => {
                        proof {
                            assert(track_name(n0, i as int) is None);
                        }
                        a.msd.set(i, Some(!b));
                    },
                }
            },
        }
        i = i + 1;
    }
}

/// What reversing `old` gives: a trivial automaton stays as it is; otherwise the
/// result is a partial deterministic automaton over the same tracks (with the reading
/// directions switched when `reverse_msd`) that accepts a word over the alphabet
/// exactly when `old` could read the word backwards from its start state into an
/// accepting state (for a deterministic `old`: when `old` accepts the reversed word).
pub open spec fn reversal_of(old: &Automaton, new: &Automaton, reverse_msd: bool) -> bool {
    &&& old.fa.true_false is Some ==> *new == *old
    &&& old.fa.true_false is None ==> {
        &&& new.fa.true_false is None
        &&& is_partial_dfa(&new.fa)
        &&& is_minimal(&new.fa)
        &&& new.fa.q <= pow(2, old.fa.q as nat)
        &&& new.fa.alphabet_size == old.fa.alphabet_size
        &&& new.alphabet == old.alphabet
        &&& new.label == old.label
        &&& new.canonized == old.canonized
        &&& (if reverse_msd {
            tracks_flipped(old.msd@, old.ns_name@, new.msd@, new.ns_name@)
        } else {
            new.msd@ == old.msd@ && new.ns_name@ == old.ns_name@
        })
        &&& forall|w: Seq<i32>|
            over_alphabet(w, old.fa.alphabet_size as int) ==> (#[trigger] accepts(&new.fa, w) <==> nfa_accepts(
                &old.fa,
                set![old.fa.q0 as int],
                w.reverse(),
            ))
        &&& old.fa.spec_deterministic() ==> forall|w: Seq<i32>|
            over_alphabet(w, old.fa.alphabet_size as int) ==> (#[trigger] accepts(&new.fa, w) <==> accepts(
                &old.fa,
                w.reverse(),
            ))
    }
}

/// What `reverse` asks of the automaton: unless it is trivial, it is well formed, its
/// start state is a state, and its symbols fit in an `i32`.
pub open spec fn reversible(a: &Automaton) -> bool {
    a.fa.true_false is None ==> {
        &&& a.fa.wf()
        &&& a.fa.q0 < a.fa.q
        &&& a.fa.alphabet_size <= i32::MAX
    }
}

/// Reverses the language: afterwards the automaton accepts a word over its alphabet
/// exactly when it could before read the word backwards from its start state into an
/// accepting state (for a deterministic automaton: when it accepted the reversed
/// word). The result is minimized, so it is a partial deterministic automaton. With
/// `reverse_msd` every track with a number system also switches its reading direction.
/// A trivial automaton is left as it is.
pub fn reverse(a: &mut Automaton, reverse_msd: bool)
    requires
        reversible(old(a)),
        reverse_msd ==> names_flippable(old(a)),
    ensures
        reversal_of(old(a), final(a), reverse_msd),
{
    if a.fa.is_true_false_automaton() {
        return;
    }
    let ghost f0 = a.fa;
    let rev = reversed_fa(&a.fa);
    let init = accepting_bits(&a.fa);
    let det = determinize_from(&rev, init);
    let m = just_minimize(&det);
    a.fa = m;
    if reverse_msd {
        flip_ns(a);
    }
    proof {
        assert forall|w: Seq<i32>|
            over_alphabet(w, f0.alphabet_size as int) implies (#[trigger] accepts(&a.fa, w) <==> nfa_accepts(
                &f0,
                set![f0.q0 as int],
                w.reverse(),
            )) by {
            lemma_reversed_accepts(&f0, &rev, w);
        }
        if f0.spec_deterministic() {
            assert forall|w: Seq<i32>|
                over_alphabet(w, f0.alphabet_size as int) implies (#[trigger] accepts(&a.fa, w) <==> accepts(&f0, w.reverse())) by {
                lemma_nfa_accepts_deterministic(&f0, w.reverse());
            }
        }
    }
}

/// The word of `n` copies of the symbol `z`.
pub open spec fn zeros(z: i32, n: nat) -> Seq<i32> {
    Seq::new(n, |i: int| z)
}

/// In a deterministic automaton a walk on the symbol `z` is the run on as many `z`s.
proof fn lemma_zero_path_run(fa: &Fa, z: i32, path: Seq<int>)
    requires
        fa.wf(),
        fa.spec_deterministic(),
        zero_path(fa, z, path),
    ensures
        run_from(fa, path[0], zeros(z, (path.len() - 1) as nat)) == Some(path.last()),
    decreases path.len(),
{
    if path.len() > 1 {
        let pre = path.drop_last();
        assert(zero_path(fa, z, pre)) by {
            assert forall|i: int| 0 <= i < pre.len() implies 0 <= #[trigger] pre[i] < fa.q by {
                assert(pre[i] == path[i]);
            }
            assert forall|i: int| 0 <= i < pre.len() - 1 implies #[trigger] zero_step(fa, z, pre[i], pre[i + 1]) by {
                assert(zero_step(fa, z, path[i], path[i + 1]));
            }
        }
        lemma_zero_path_run(fa, z, pre);
        let k = (path.len() - 1) as nat;
        assert(zeros(z, k).drop_last() =~= zeros(z, (k - 1) as nat));
        let r = path[path.len() - 2];
        assert(zero_step(fa, z, r, path[path.len() - 2 + 1]));
        assert(0 <= r < fa.q);
        assert(fa.dests(r, z).len() <= 1);
        assert(fa.dests(r, z)[0] == path.last() as usize);
    } else {
        assert(zeros(z, 0) =~= Seq::<i32>::empty());
    }
}

/// A run on `n` copies of `z` is a walk on the symbol `z`.
proof fn lemma_run_zero_path(fa: &Fa, z: i32, s: int, n: nat) -> (path: Seq<int>)
    requires
        fa.wf(),
        0 <= s < fa.q,
        run_from(fa, s, zeros(z, n)) is Some,
    ensures
        zero_path(fa, z, path),
        path[0] == s,
        path.last() == run_from(fa, s, zeros(z, n))->Some_0,
    decreases n,
{
    if n == 0 {
        assert(zeros(z, 0) =~= Seq::<i32>::empty());
        seq![s]
    } else {
        assert(zeros(z, n).drop_last() =~= zeros(z, (n - 1) as nat));
        let pre = lemma_run_zero_path(fa, z, s, (n - 1) as nat);
        lemma_run_in_range(fa, s, zeros(z, (n - 1) as nat));
        let r = pre.last();
        let t = fa.dests(r, z)[0] as int;
        assert(zeros(z, n).last() == z);
        assert(fa.dests(r, z).contains(t as usize));
        let path = pre.push(t);
        assert forall|i: int| 0 <= i < path.len() implies 0 <= #[trigger] path[i] < fa.q by {
            if i < pre.len() {
                assert(path[i] == pre[i]);
            }
        }
        assert forall|i: int| 0 <= i < path.len() - 1 implies #[trigger] zero_step(fa, z, path[i], path[i + 1]) by {
            if i < pre.len() - 1 {
                assert(zero_step(fa, z, pre[i], pre[i + 1]));
            } else {
                assert(path[i] == r);
            }
        }
        path
    }
}

/// Making every state that reaches acceptance on zeros accept makes a deterministic
/// automaton accept exactly the words that some number of trailing zeros extends into
/// a word it accepted before.
proof fn lemma_zero_closure_accepts(f0: &Fa, f1: &Fa, z: i32, w: Seq<i32>)
    requires
        f0.wf(),
        f0.spec_deterministic(),
        f0.q > 0 ==> f0.q0 < f0.q,
        f1.q == f0.q,
        f1.q0 == f0.q0,
        f1.d == f0.d,
        f1.o@.len() == f0.o@.len(),
        forall|p: int| 0 <= p < f0.q ==> #[trigger] f1.o@[p] == if reaches_acceptance_by_zeros(f0, z, p) {
            1i32
        } else {
            f0.o@[p]
        },
    ensures
        accepts(f1, w) <==> exists|n: nat| #[trigger] accepts(f0, w + zeros(z, n)),
{
    lemma_run_same(f1, f0, f0.q0 as int, w);
    if accepts(f1, w) {
        let s = run_from(f0, f0.q0 as int, w)->Some_0;
        assert(0 <= s < f0.q);
        if !reaches_acceptance_by_zeros(f0, z, s) {
            assert(zero_path(f0, z, seq![s]));
        }
        let path = choose|path: Seq<int>| #[trigger] zero_path(f0, z, path) && path[0] == s && f0.accepting(path.last());
        lemma_zero_path_run(f0, z, path);
        let n = (path.len() - 1) as nat;
        lemma_run_concat(f0, f0.q0 as int, w, zeros(z, n));
        assert(accepts(f0, w + zeros(z, n)));
    }
    if exists|n: nat| #[trigger] accepts(f0, w + zeros(z, n)) {
        let n = choose|n: nat| #[trigger] accepts(f0, w + zeros(z, n));
        lemma_run_concat(f0, f0.q0 as int, w, zeros(z, n));
        let s = run_from(f0, f0.q0 as int, w)->Some_0;
        lemma_run_in_range(f0, f0.q0 as int, w);
        let path = lemma_run_zero_path(f0, z, s, n);
        assert(reaches_acceptance_by_zeros(f0, z, s));
    }
}

/// Makes the automaton accept `x0*` whenever it accepted `x`: every state from which an
/// accepting state is reached by reading zeros on every track becomes accepting, and when
/// that changed anything the automaton is minimized (without determinizing).
pub fn fix_trailing_zeros_problem(a: &mut Automaton)
    requires
        old(a).fa.wf(),
        forall|i: int| 0 <= i < old(a).alphabet@.len() ==> #[trigger] old(a).alphabet@[i]@.contains(0),
        crate::automaton::symbol_count_from(crate::automaton::alphabet_view(old(a).alphabet@), 0) <= i32::MAX,
        old(a).fa.q > 0 ==> old(a).fa.q0 < old(a).fa.q,
        trailing_zero_closure_changes(&old(a).fa, zero_symbol(old(a)) as i32) ==> old(a).fa.spec_deterministic(),
    ensures
        final(a).alphabet == old(a).alphabet,
        final(a).label == old(a).label,
        final(a).msd == old(a).msd,
        !trailing_zero_closure_changes(&old(a).fa, zero_symbol(old(a)) as i32) ==> {
            &&& final(a).canonized == old(a).canonized
            &&& final(a).fa.q == old(a).fa.q
            &&& final(a).fa.q0 == old(a).fa.q0
            &&& final(a).fa.alphabet_size == old(a).fa.alphabet_size
            &&& final(a).fa.true_false == old(a).fa.true_false
            &&& final(a).fa.d == old(a).fa.d
            &&& final(a).fa.o@ == old(a).fa.o@
        },
        trailing_zero_closure_changes(&old(a).fa, zero_symbol(old(a)) as i32) ==> {
            &&& !final(a).canonized
            &&& is_partial_dfa(&final(a).fa)
            &&& is_minimal(&final(a).fa)
            &&& 1 <= final(a).fa.q <= old(a).fa.q
            &&& final(a).fa.alphabet_size == old(a).fa.alphabet_size
        },
        old(a).fa.spec_deterministic() ==> forall|w: Seq<i32>|
            #[trigger] accepts(&final(a).fa, w) <==> exists|n: nat|
                #[trigger] accepts(&old(a).fa, w + zeros(zero_symbol(old(a)) as i32, n)),
{
    let zero = a.determine_zero();
    let ghost f0 = a.fa;
    proof {
        assert(zero_symbol(old(a)) == zero as int);
        assert((zero_symbol(old(a)) as i32) == zero);
    }
    let changed = set_states_reachable_to_final_states_by_zeros(&mut a.fa, zero);
    let ghost f1 = a.fa;
    if changed {
        proof {
            let p = choose|p: int| 0 <= p < f0.q && #[trigger] reaches_acceptance_by_zeros(&f0, zero, p) && f0.o@[p] != 1;
            assert(f0.q > 0);
            assert(f0.spec_deterministic());
            assert(a.fa.d == f0.d);
            assert forall|p: int, sym: i32|
                0 <= p < a.fa.d@.len() && #[trigger] a.fa.row(p).contains_key(sym) implies a.fa.dests(p, sym).len() <= 1 by {
                assert(f0.row(p).contains_key(sym));
            }
            assert forall|p: int, sym: i32, k: int|
                0 <= p < a.fa.q && a.fa.row(p).contains_key(sym) && 0 <= k < a.fa.dests(p, sym).len()
                implies #[trigger] a.fa.dests(p, sym)[k] < a.fa.q by {
                assert(f0.row(p).contains_key(sym));
                assert(f0.dests(p, sym)[k] < f0.q);
            }
            assert(a.fa.wf());
            assert(a.fa.spec_deterministic());
        }
        a.set_canonized(false);
        let m = just_minimize(&a.fa);
        a.fa = m;
        proof {
            assert forall|w: Seq<i32>| #[trigger] accepts(&a.fa, w) <==> exists|n: nat|
                #[trigger] accepts(&f0, w + zeros(zero, n)) by {
                lemma_zero_closure_accepts(&f0, &f1, zero, w);
            }
        }
    } else {
        proof {
            assert forall|p: int| 0 <= p < f0.q implies #[trigger] a.fa.o@[p] == f0.o@[p] by {
                if reaches_acceptance_by_zeros(&f0, zero, p) {
                    assert(f0.o@[p] == 1);
                }
            }
            assert(a.fa.o@ =~= f0.o@);
            if f0.spec_deterministic() {
                assert forall|w: Seq<i32>| #[trigger] accepts(&a.fa, w) <==> exists|n: nat|
                    #[trigger] accepts(&f0, w + zeros(zero, n)) by {
                    lemma_zero_closure_accepts(&f0, &f1, zero, w);
                }
            }
        }
    }
}

/// `f1` is `f0` with a transition from the start state to itself on `zero` (as
/// `zero_reachable_states` leaves it).
pub open spec fn with_zero_loop(f0: &Fa, f1: &Fa, zero: i32) -> bool {
    let q0 = f0.q0 as int;
    &&& f1.wf()
    &&& f1.q == f0.q
    &&& f1.q0 == f0.q0
    &&& f1.alphabet_size == f0.alphabet_size
    &&& f1.true_false == f0.true_false
    &&& f1.o == f0.o
    &&& f1.d@.len() == f0.d@.len()
    &&& forall|p: int| 0 <= p < f0.q && p != q0 ==> #[trigger] f1.d@[p] == f0.d@[p]
    &&& forall|sym: i32| sym != zero ==> #[trigger] f1.row(q0).contains_key(sym) == f0.row(q0).contains_key(sym)
    &&& forall|sym: i32| sym != zero && #[trigger] f0.row(q0).contains_key(sym) ==> f1.row(q0)[sym] == f0.row(q0)[sym]
    &&& f1.row(q0).contains_key(zero)
    &&& f1.dests(q0, zero) == if !f0.row(q0).contains_key(zero) {
        seq![f0.q0]
    } else if f0.dests(q0, zero).contains(f0.q0) {
        f0.dests(q0, zero)
    } else {
        f0.dests(q0, zero).push(f0.q0)
    }
}

/// The states reached from the start state by reading `zero` some number of times.
pub open spec fn zero_reach_set(fa: &Fa, zero: i32) -> Set<int> {
    Set::new(|x: int| 0 <= x < fa.q && zero_reachable(fa, zero, x))
}

/// Adding the loop keeps every transition.
proof fn lemma_loop_keeps_edge(f0: &Fa, f1: &Fa, zero: i32, p: int, sym: i32, r: int)
    requires
        f0.wf(),
        f0.q0 < f0.q,
        with_zero_loop(f0, f1, zero),
        0 <= p < f0.q,
        f0.row(p).contains_key(sym),
        f0.dests(p, sym).contains(r as usize),
    ensures
        f1.row(p).contains_key(sym),
        f1.dests(p, sym).contains(r as usize),
{
    let q0 = f0.q0 as int;
    if p != q0 {
        assert(f1.d@[p] == f0.d@[p]);
    } else if sym != zero {
        assert(f1.row(q0)[sym] == f0.row(q0)[sym]);
    } else if !f0.dests(q0, zero).contains(f0.q0) {
        let k = choose|k: int| 0 <= k < f0.dests(q0, zero).len() && f0.dests(q0, zero)[k] == r as usize;
        assert(f1.dests(q0, zero)[k] == r as usize);
    }
}

/// A run of `f0` is a way of reading for `f1`.
proof fn lemma_loop_keeps_run(f0: &Fa, f1: &Fa, zero: i32, p: int, w: Seq<i32>)
    requires
        f0.wf(),
        f0.q0 < f0.q,
        with_zero_loop(f0, f1, zero),
        0 <= p < f0.q,
        run_from(f0, p, w) is Some,
    ensures
        nfa_reach(f1, set![p], w).contains(run_from(f0, p, w)->Some_0),
    decreases w.len(),
{
    if w.len() == 0 {
        assert(set![p].contains(p));
    } else {
        let w0 = w.drop_last();
        let a = w.last();
        lemma_loop_keeps_run(f0, f1, zero, p, w0);
        lemma_run_in_range(f0, p, w0);
        let r = run_from(f0, p, w0)->Some_0;
        let t = run_from(f0, p, w)->Some_0;
        assert(f0.dests(r, a)[0] == t as usize);
        assert(f0.dests(r, a).contains(t as usize));
        assert(t < f0.q);
        lemma_loop_keeps_edge(f0, f1, zero, r, a, t);
        assert(nfa_edge(f1, r, a, t));
    }
}

/// A walk on `zero` in `f0` is one in `f1`.
proof fn lemma_loop_keeps_zero_path(f0: &Fa, f1: &Fa, zero: i32, path: Seq<int>)
    requires
        f0.wf(),
        f0.q0 < f0.q,
        with_zero_loop(f0, f1, zero),
        zero_path(f0, zero, path),
    ensures
        zero_path(f1, zero, path),
{
    assert forall|i: int| 0 <= i < path.len() - 1 implies #[trigger] zero_step(f1, zero, path[i], path[i + 1]) by {
        assert(zero_step(f0, zero, path[i], path[i + 1]));
        lemma_loop_keeps_edge(f0, f1, zero, path[i], zero, path[i + 1]);
    }
}

/// A bit string marking the states of `set`.
fn set_bits(set: &BTreeSet<usize>, n: usize) -> (r: Vec<bool>)
    ensures
        r@.len() == n,
        marked(r@) == Set::new(|x: int| 0 <= x < n && set@.contains(x as usize)),
{
    let mut r: Vec<bool> = Vec::new();
    let mut x: usize = 0;
    while x < n
        invariant
            x <= n,
            r@.len() == x,
            forall|j: int| 0 <= j < x ==> #[trigger] r@[j] == set@.contains(j as usize),
        decreases n - x,
    {
        r.push(set.contains(&x));
        x = x + 1;
    }
    assert(marked(r@) =~= Set::new(|x: int| 0 <= x < n && set@.contains(x as usize)));
    r
}

/// Makes the automaton accept `x` whenever it accepted `0*x`: the start state gets a
/// loop on the all-zero symbol, the automaton is determinized from the set of states
/// that zeros lead to from the start state, and the result is minimized (so it is a
/// partial deterministic automaton, with the numbering no longer fixed). A trivial
/// automaton, and one without states, is left as it is.
pub fn fix_leading_zeros_problem(a: &mut Automaton)
    requires
        old(a).fa.wf(),
        old(a).fa.q > 0 ==> old(a).fa.q0 < old(a).fa.q,
        old(a).fa.alphabet_size <= i32::MAX,
        forall|i: int| 0 <= i < old(a).alphabet@.len() ==> #[trigger] old(a).alphabet@[i]@.contains(0),
        crate::automaton::symbol_count_from(crate::automaton::alphabet_view(old(a).alphabet@), 0) <= i32::MAX,
    ensures
        old(a).fa.true_false is Some || old(a).fa.q == 0 ==> *final(a) == *old(a),
        old(a).fa.true_false is None && old(a).fa.q > 0 ==> {
            &&& !final(a).canonized
            &&& final(a).fa.true_false is None
            &&& is_partial_dfa(&final(a).fa)
            &&& is_minimal(&final(a).fa)
            &&& final(a).fa.alphabet_size == old(a).fa.alphabet_size
            &&& final(a).alphabet == old(a).alphabet
            &&& final(a).label == old(a).label
            &&& final(a).msd == old(a).msd
            &&& exists|f1: Fa|
                #![trigger with_zero_loop(&old(a).fa, &f1, zero_symbol(old(a)) as i32)]
                with_zero_loop(&old(a).fa, &f1, zero_symbol(old(a)) as i32) && forall|w: Seq<i32>|
                    over_alphabet(w, old(a).fa.alphabet_size as int) ==> (#[trigger] accepts(&final(a).fa, w)
                        <==> nfa_accepts(&f1, zero_reach_set(&f1, zero_symbol(old(a)) as i32), w))
            &&& old(a).fa.spec_deterministic() ==> forall|w: Seq<i32>, n: nat|
                over_alphabet(w, old(a).fa.alphabet_size as int) && #[trigger] accepts(
                    &old(a).fa,
                    zeros(zero_symbol(old(a)) as i32, n) + w,
                ) ==> accepts(&final(a).fa, w)
        },
{
    if a.fa.is_true_false_automaton() {
        return;
    }
    if a.fa.q == 0 {
        return;
    }
    a.set_canonized(false);
    let zero = a.determine_zero();
    let ghost f0 = a.fa;
    proof {
        assert(zero_symbol(old(a)) == zero as int);
        assert((zero_symbol(old(a)) as i32) == zero);
    }
    let set = zero_reachable_states(&mut a.fa, zero);
    let ghost f1 = a.fa;
    let init = set_bits(&set, a.fa.q);
    proof {
        assert(marked(init@) =~= zero_reach_set(&f1, zero));
    }
    let det = determinize_from(&a.fa, init);
    a.fa = just_minimize(&det);
    proof {
        assert(with_zero_loop(&f0, &f1, zero));
        if f0.spec_deterministic() {
            assert forall|w: Seq<i32>, n: nat|
                over_alphabet(w, f0.alphabet_size as int) && #[trigger] accepts(&f0, zeros(zero, n) + w) implies accepts(&a.fa, w) by {
                lemma_run_concat(&f0, f0.q0 as int, zeros(zero, n), w);
                let s = run_from(&f0, f0.q0 as int, zeros(zero, n))->Some_0;
                let t = run_from(&f0, f0.q0 as int, zeros(zero, n) + w)->Some_0;
                let path = lemma_run_zero_path(&f0, zero, f0.q0 as int, n);
                lemma_loop_keeps_zero_path(&f0, &f1, zero, path);
                lemma_run_in_range(&f0, f0.q0 as int, zeros(zero, n));
                assert(zero_reachable(&f1, zero, s));
                assert(zero_reach_set(&f1, zero).contains(s));
                lemma_loop_keeps_run(&f0, &f1, zero, s, w);
                crate::determinize::lemma_reach_from_one(&f1, zero_reach_set(&f1, zero), w, t);
                assert(nfa_reach(&f1, zero_reach_set(&f1, zero), w).contains(t));
                assert(f1.accepting(t));
            }
        }
    }
}

/// The old symbol that the digits `c`, least significant first in base `root`, stand
/// for.
pub open spec fn digit_group_value(c: Seq<i32>, root: int) -> i32 {
    lsd_value(c, root, c.len()) as i32
}

/// The digits `w` cut into groups of `g` from the start, each group standing for one
/// symbol of the grouped alphabet; a last, shorter group counts as padded with zeros
/// above.
pub open spec fn lsd_grouped(w: Seq<i32>, root: int, g: int) -> Seq<i32>
    decreases w.len(),
{
    let m = (w.len() - 1) % g;
    if w.len() == 0 || g <= 0 || m < 0 || m >= w.len() {
        Seq::<i32>::empty()
    } else {
        lsd_grouped(w.subrange(0, w.len() - 1 - m), root, g).push(
            digit_group_value(w.subrange(w.len() - 1 - m, w.len() as int), root),
        )
    }
}

/// The output of `fa` on `w`: that of the state its run ends in, `0` where there is no
/// run.
pub open spec fn output_on(fa: &Fa, w: Seq<i32>) -> i32 {
    match run_from(fa, fa.q0 as int, w) {
        Some(s) => fa.o@[s],
        None => 0i32,
    }
}

/// A state of an automaton that covers the symbols `0..n` has a transition on each.
proof fn lemma_covers_at(f: &Fa, n: int, s: int, sym: i32)
    requires
        covers_symbols(f, n),
        0 <= s < f.q,
        0 <= sym < n,
    ensures
        f.row(s).contains_key(sym) && f.dests(s, sym).len() > 0,
{
}

/// Where the length `l` of a digit word stands in its groups of `g`.
proof fn lemma_group_step(l: int, g: int)
    requires
        l >= 0,
        g >= 1,
    ensures
        l % g < g - 1 ==> (l + 1) % g == l % g + 1,
        l % g == g - 1 ==> (l + 1) % g == 0,
        0 <= l % g < g,
        l - l % g >= 0,
        (l + 1) >= 1 ==> l % g == (l + 1 - 1) % g,
{
    vstd::arithmetic::div_mod::lemma_fundamental_div_mod(l, g);
    vstd::arithmetic::div_mod::lemma_mod_bound(l, g);
    vstd::arithmetic::div_mod::lemma_fundamental_div_mod(l + 1, g);
    vstd::arithmetic::div_mod::lemma_mod_bound(l + 1, g);
    let q = l / g;
    let r = l % g;
    if r < g - 1 {
        assert(l + 1 == q * g + (r + 1)) by (nonlinear_arith)
            requires
                l == g * q + r,
        ;
        vstd::arithmetic::div_mod::lemma_fundamental_div_mod_converse(l + 1, g, q, r + 1);
    } else {
        assert(l + 1 == (q + 1) * g + 0) by (nonlinear_arith)
            requires
                l == g * q + r,
                r == g - 1,
        ;
        vstd::arithmetic::div_mod::lemma_fundamental_div_mod_converse(l + 1, g, q + 1, 0);
    }
}

/// Reading the digits `w` in the regrouped automaton leads to the pair of the state the
/// complete groups lead to and the digits of the incomplete last group.
#[verifier::spinoff_prover]
proof fn lemma_lsd_run(f0: &Fa, f1: &Fa, rt: int, e: int, pairs: Seq<(int, Seq<i32>)>, w: Seq<i32>)
    requires
        lsd_pair_table(f0, f1, rt, e, pairs),
        f0.wf(),
        f0.q0 < f0.q,
        rt >= 1,
        pow(rt, group_length(e as i32)) <= i32::MAX,
        covers_symbols(f0, pow(rt, group_length(e as i32))),
        over_alphabet(w, rt),
        0 <= e <= i32::MAX,
    ensures
        ({
            let g = group_length(e as i32) as int;
            let l = w.len() as int;
            &&& run_from(f1, 0, w) is Some
            &&& 0 <= run_from(f1, 0, w)->Some_0 < f1.q
            &&& pairs[run_from(f1, 0, w)->Some_0].1 == w.subrange(l - l % g, l)
            &&& run_from(f0, f0.q0 as int, lsd_grouped(w.subrange(0, l - l % g), rt, g)) == Some(
                pairs[run_from(f1, 0, w)->Some_0].0,
            )
        }),
    decreases w.len(),
{
    let g = group_length(e as i32) as int;
    let l = w.len() as int;
    if l == 0 {
        assert(w.subrange(0, 0) =~= Seq::<i32>::empty());
        assert(w.subrange(0, 0) =~= w);
        lemma_group_step(0, g);
        assert(0int % g == 0) by {
            vstd::arithmetic::div_mod::lemma_small_mod(0, g as nat);
        }
        assert(lsd_grouped(w.subrange(0, 0), rt, g) =~= Seq::<i32>::empty());
        assert(run_from(f1, 0, w) == Some(0int));
        assert(pairs[0].1 == w.subrange(0, 0));
    } else {
        let v = w.drop_last();
        let d = w.last();
        let lv = v.len() as int;
        assert(over_alphabet(v, rt)) by {
            assert forall|i: int| 0 <= i < v.len() implies 0 <= #[trigger] v[i] < rt by {
                assert(v[i] == w[i]);
            }
        }
        lemma_lsd_run(f0, f1, rt, e, pairs, v);
        lemma_group_step(lv, g);
        let k = run_from(f1, 0, v)->Some_0;
        let s = pairs[k].0;
        let pend = pairs[k].1;
        assert(0 <= w[l - 1] < rt);
        assert(f1.row(k).contains_key(d));
        let k2 = f1.dests(k, d)[0] as int;
        assert(pairs[f1.dests(k, d as i32)[0] as int] == lsd_pair_step(f0, rt, e, s, pend, d as int));
        assert(lsd_pair_valid(f0.q as int, rt, e, pairs[k]));
        assert(lsd_pair_valid(f0.q as int, rt, e, pairs[k2]));
        assert(pend.len() == lv % g);
        if lv % g < g - 1 {
            assert(pend.len() < e - 1);
            assert(pairs[k2].1 =~= w.subrange(l - l % g, l)) by {
                assert(pairs[k2].1 == pend.push(d));
            }
            assert(l - l % g == lv - lv % g);
            assert(w.subrange(0, l - l % g) =~= v.subrange(0, lv - lv % g));
            assert(run_from(f1, 0, w) == Some(k2));
            assert(k2 < f1.q);
            assert(pairs[k2].0 == s);
        } else {
            assert(!(pend.len() < e - 1));
            let c = pend.push(d);
            assert(c =~= w.subrange(lv - lv % g, l));
            assert(l % g == 0);
            assert(w.subrange(l - l % g, l) =~= Seq::<i32>::empty());
            assert(w.subrange(0, l) =~= w);
            // the last group of w is c
            assert((l - 1) % g == g - 1);
            assert(lsd_grouped(w, rt, g) == lsd_grouped(w.subrange(0, l - 1 - (g - 1)), rt, g).push(
                digit_group_value(w.subrange(l - 1 - (g - 1), l), rt),
            ));
            assert(w.subrange(0, lv - lv % g) =~= v.subrange(0, lv - lv % g));
            let full = lsd_grouped(v.subrange(0, lv - lv % g), rt, g);
            let sym = digit_group_value(c, rt);
            assert forall|t: int| 0 <= t < c.len() implies 0 <= #[trigger] c[t] < rt by {
                assert(c[t] == w[lv - lv % g + t]);
            }
            lemma_lsd_value_fits(c, rt, g);
            assert(0 <= sym < pow(rt, group_length(e as i32)));
            assert(0 <= s < f0.q);
            lemma_covers_at(f0, pow(rt, group_length(e as i32)), s, sym);
            assert(lsd_grouped(w, rt, g).drop_last() =~= full);
            assert(lsd_grouped(w, rt, g).last() == sym);
            assert(pairs[k2].0 == first_dest(f0, s, lsd_value(c, rt, c.len())));
            assert(run_from(f1, 0, w) == Some(k2));
            assert(k2 < f1.q);
            lemma_run_in_range(f0, f0.q0 as int, full);
            assert(run_from(f0, f0.q0 as int, full) == Some(s));
            assert(run_from(f0, f0.q0 as int, lsd_grouped(w, rt, g)) == Some(pairs[k2].0));
        }
    }
}

/// The regrouped automaton reads digits of the root, least significant first: when the
/// automaton started from state `0`, it gives a word the output that the automaton with
/// the grouped alphabet gives the word's groups, a last incomplete group padded with
/// zeros above.
pub proof fn law_lsd_conversion_regroups(f0: &Fa, f1: &Fa, rt: int, e: int, pairs: Seq<(int, Seq<i32>)>, w: Seq<i32>)
    requires
        lsd_pair_table(f0, f1, rt, e, pairs),
        f0.wf(),
        f0.q0 == 0,
        f1.q0 == f0.q0,
        f0.q0 < f0.q,
        rt >= 1,
        pow(rt, group_length(e as i32)) <= i32::MAX,
        covers_symbols(f0, pow(rt, group_length(e as i32))),
        over_alphabet(w, rt),
        0 <= e <= i32::MAX,
    ensures
        output_on(f1, w) == output_on(f0, lsd_grouped(w, rt, group_length(e as i32) as int)),
{
    let g = group_length(e as i32) as int;
    let l = w.len() as int;
    lemma_lsd_run(f0, f1, rt, e, pairs, w);
    lemma_group_step(l, g);
    let k = run_from(f1, 0, w)->Some_0;
    let s = pairs[k].0;
    let pend = pairs[k].1;
    assert(lsd_pair_valid(f0.q as int, rt, e, pairs[k]));
    assert(f1.o@[k] == lsd_pair_output(f0, rt, s, pend));
    if l % g == 0 {
        assert(w.subrange(0, l) =~= w);
        assert(pend.len() == 0);
    } else {
        assert(l >= 1);
        lemma_group_step(l - 1, g);
        assert((l - 1) % g == l % g - 1) by {
            vstd::arithmetic::div_mod::lemma_fundamental_div_mod(l, g);
            vstd::arithmetic::div_mod::lemma_fundamental_div_mod_converse(l - 1, g, l / g, l % g - 1);
        }
        assert(l - 1 - (l - 1) % g == l - l % g);
        assert forall|t: int| 0 <= t < pend.len() implies 0 <= #[trigger] pend[t] < rt by {
            assert(pend[t] == w[l - l % g + t]);
        }
        lemma_lsd_value_fits(pend, rt, g);
        let sym = digit_group_value(pend, rt);
        lemma_covers_at(f0, pow(rt, group_length(e as i32)), s, sym);
        let gw = lsd_grouped(w, rt, g);
        assert(gw.drop_last() =~= lsd_grouped(w.subrange(0, l - l % g), rt, g));
        assert(gw.last() == sym);
        lemma_run_in_range(f0, f0.q0 as int, gw.drop_last());
    }
}

/// The `e` digits, most significant first in base `k`, of the grouped symbol `idx`.
pub open spec fn msd_group_digits(idx: int, k: int, e: nat) -> Seq<i32>
    decreases e,
{
    if e <= 1 {
        seq![idx as i32]
    } else {
        msd_group_digits(idx / k, k, (e - 1) as nat).push((idx % k) as i32)
    }
}

/// The word `w` over grouped symbols, each written as its `e` digits.
pub open spec fn msd_expanded(w: Seq<i32>, k: int, e: nat) -> Seq<i32>
    decreases w.len(),
{
    if w.len() == 0 {
        Seq::<i32>::empty()
    } else {
        msd_expanded(w.drop_last(), k, e) + msd_group_digits(w.last() as int, k, e)
    }
}

/// A state of an automaton with every symbol has a transition on `sym`.
proof fn lemma_every_symbol_at(f: &Fa, s: int, sym: i32)
    requires
        has_every_symbol(f),
        0 <= s < f.q,
        0 <= sym < f.alphabet_size,
    ensures
        f.row(s).contains_key(sym) && f.dests(s, sym).len() > 0,
{
}

/// Reading the digits of a grouped symbol leads where the grouped transition does.
proof fn lemma_grouped_run(fa: &Fa, p: int, e: nat, idx: int)
    requires
        fa.wf(),
        has_every_symbol(fa),
        fa.alphabet_size >= 1,
        fa.alphabet_size <= i32::MAX,
        pow(fa.alphabet_size as int, e) <= i32::MAX,
        e >= 1,
        0 <= p < fa.q,
        0 <= idx < pow(fa.alphabet_size as int, e),
    ensures
        run_from(fa, p, msd_group_digits(idx, fa.alphabet_size as int, e)) == Some(grouped_dest(fa, p, e, idx)),
        0 <= grouped_dest(fa, p, e, idx) < fa.q,
    decreases e,
{
    let k = fa.alphabet_size as int;
    if e <= 1 {
        vstd::arithmetic::power::lemma_pow1(k);
        assert(e == 1);
        assert(pow(k, e) == k);
        assert(0 <= idx < k);
        assert(0 <= (idx as i32) < fa.alphabet_size);
        let w = msd_group_digits(idx, k, e);
        assert(w =~= seq![idx as i32]);
        assert(w.drop_last() =~= Seq::<i32>::empty());
        lemma_every_symbol_at(fa, p, idx as i32);
        assert(run_from(fa, p, w.drop_last()) == Some(p));
        assert(w.last() == idx as i32);
        assert(grouped_dest(fa, p, e, idx) == first_dest(fa, p, idx));
        assert(fa.dests(p, idx as i32)[0] < fa.q);
    } else {
        let e1 = (e - 1) as nat;
        reveal(pow);
        assert(pow(k, e) == k * pow(k, e1));
        vstd::arithmetic::power::lemma_pow_positive(k, e1);
        vstd::arithmetic::div_mod::lemma_fundamental_div_mod(idx, k);
        vstd::arithmetic::div_mod::lemma_mod_bound(idx, k);
        vstd::arithmetic::div_mod::lemma_div_pos_is_pos(idx, k);
        assert(idx / k < pow(k, e1)) by (nonlinear_arith)
            requires
                idx == k * (idx / k) + idx % k,
                0 <= idx % k < k,
                idx < k * pow(k, e1),
                k >= 1,
        ;
        assert(pow(k, e1) <= pow(k, e)) by (nonlinear_arith)
            requires
                pow(k, e) == k * pow(k, e1),
                k >= 1,
                pow(k, e1) > 0,
        ;
        lemma_grouped_run(fa, p, e1, idx / k);
        let w = msd_group_digits(idx, k, e);
        let g = grouped_dest(fa, p, e1, idx / k);
        assert(w.drop_last() =~= msd_group_digits(idx / k, k, e1));
        lemma_every_symbol_at(fa, g, (idx % k) as i32);
        assert(w.last() == (idx % k) as i32);
        assert(run_from(fa, p, w.drop_last()) == Some(g));
        assert(grouped_dest(fa, p, e, idx) == first_dest(fa, g, idx % k));
        assert(fa.dests(g, (idx % k) as i32)[0] < fa.q);
    }
}

/// `f1` reads grouped symbols as `f0` reads their digits.
pub open spec fn grouped_rows(f0: &Fa, f1: &Fa, e: nat) -> bool {
    let k = f0.alphabet_size as int;
    &&& f1.q == f0.q
    &&& f1.d@.len() == f0.q
    &&& forall|p: int, sym: i32| 0 <= p < f0.q ==> (#[trigger] f1.row(p).contains_key(sym) <==> 0 <= sym < pow(k, e))
    &&& forall|p: int, sym: i32|
        0 <= p < f0.q && 0 <= sym < pow(k, e) ==> #[trigger] f1.dests(p, sym) == seq![grouped_dest(f0, p, e, sym as int) as usize]
}

/// Reading a word of grouped symbols in the regrouped automaton follows the run of its
/// digits in the original.
proof fn lemma_grouped_word_run(f0: &Fa, f1: &Fa, e: nat, p: int, w: Seq<i32>)
    requires
        f0.wf(),
        has_every_symbol(f0),
        f0.alphabet_size >= 1,
        f0.alphabet_size <= i32::MAX,
        pow(f0.alphabet_size as int, e) <= i32::MAX,
        e >= 1,
        grouped_rows(f0, f1, e),
        0 <= p < f0.q,
        over_alphabet(w, pow(f0.alphabet_size as int, e)),
    ensures
        run_from(f1, p, w) == run_from(f0, p, msd_expanded(w, f0.alphabet_size as int, e)),
        run_from(f1, p, w) is Some,
        0 <= run_from(f1, p, w)->Some_0 < f0.q,
    decreases w.len(),
{
    let k = f0.alphabet_size as int;
    if w.len() > 0 {
        let u = w.drop_last();
        assert(over_alphabet(u, pow(k, e))) by {
            assert forall|i: int| 0 <= i < u.len() implies 0 <= #[trigger] u[i] < pow(k, e) by {
                assert(u[i] == w[i]);
            }
        }
        lemma_grouped_word_run(f0, f1, e, p, u);
        let r = run_from(f1, p, u)->Some_0;
        let s = w.last();
        assert(0 <= w[w.len() - 1] < pow(k, e));
        lemma_grouped_run(f0, r, e, s as int);
        lemma_run_concat(f0, p, msd_expanded(u, k, e), msd_group_digits(s as int, k, e));
        assert(f1.row(r).contains_key(s));
        assert(f1.dests(r, s) == seq![grouped_dest(f0, r, e, s as int) as usize]);
    } else {
        assert(msd_expanded(w, k, e) =~= Seq::<i32>::empty());
    }
}

/// The regrouped automaton gives a word of grouped symbols the output that the original
/// gives the word's digits, most significant first.
pub proof fn law_msd_grouping_expands(f0: &Fa, f1: &Fa, e: nat, w: Seq<i32>)
    requires
        f0.wf(),
        has_every_symbol(f0),
        f0.alphabet_size >= 1,
        f0.alphabet_size <= i32::MAX,
        pow(f0.alphabet_size as int, e) <= i32::MAX,
        e >= 1,
        grouped_rows(f0, f1, e),
        f1.q0 == f0.q0,
        f0.q0 < f0.q,
        f1.o == f0.o,
        over_alphabet(w, pow(f0.alphabet_size as int, e)),
    ensures
        output_on(f1, w) == output_on(f0, msd_expanded(w, f0.alphabet_size as int, e)),
{
    lemma_grouped_word_run(f0, f1, e, f0.q0 as int, w);
}

} // verus!
