//! Subset construction: the deterministic automaton whose states are the sets of
//! states that a (possibly nondeterministic) automaton can be in.

use crate::fa::{accepts, run_from, Fa};
use crate::logicalops::over_alphabet;
use crate::minimize::lemma_pigeonhole;
use std::collections::BTreeMap;
use vstd::arithmetic::power::pow;
use vstd::prelude::*;

verus! {

broadcast use {vstd::std_specs::btree::group_btree_axioms, vstd::laws_cmp::group_laws_cmp};

/// The states marked in `bits`.
pub open spec fn marked(bits: Seq<bool>) -> Set<int> {
    Set::new(|i: int| 0 <= i < bits.len() && bits[i])
}

/// State `p` of `fa` moves to `r` on `sym`.
pub open spec fn nfa_edge(fa: &Fa, p: int, sym: i32, r: int) -> bool {
    0 <= p < fa.q && 0 <= r < fa.q && fa.row(p).contains_key(sym) && fa.dests(p, sym).contains(r as usize)
}

/// The states that some state of `s` moves to on `sym`.
pub open spec fn nfa_step(fa: &Fa, s: Set<int>, sym: i32) -> Set<int> {
    Set::new(|r: int| exists|p: int| #[trigger] s.contains(p) && nfa_edge(fa, p, sym, r))
}

/// The states that `fa` can be in after reading `w` from some state of `s`.
pub open spec fn nfa_reach(fa: &Fa, s: Set<int>, w: Seq<i32>) -> Set<int>
    decreases w.len(),
{
    if w.len() == 0 {
        s
    } else {
        nfa_step(fa, nfa_reach(fa, s, w.drop_last()), w.last())
    }
}

/// Reading `w` from some state of `s`, `fa` can end in an accepting state.
pub open spec fn nfa_accepts(fa: &Fa, s: Set<int>, w: Seq<i32>) -> bool {
    exists|x: int| #[trigger] nfa_reach(fa, s, w).contains(x) && fa.accepting(x)
}

/// The number whose binary digits, least significant first, are `bits`.
spec fn bits_value(bits: Seq<bool>) -> int
    decreases bits.len(),
{
    if bits.len() == 0 {
        0
    } else {
        (if bits[0] {
            1int
        } else {
            0int
        }) + 2 * bits_value(bits.drop_first())
    }
}

/// `n` bits have a value below `2^n`, and two bit strings of one length with the same
/// value are equal.
proof fn lemma_bits_value(a: Seq<bool>, b: Seq<bool>)
    ensures
        0 <= bits_value(a) < pow(2, a.len()),
        a.len() == b.len() && bits_value(a) == bits_value(b) ==> a == b,
    decreases a.len(),
{
    reveal(pow);
    if a.len() > 0 {
        lemma_bits_value(a.drop_first(), if b.len() > 0 {
            b.drop_first()
        } else {
            b
        });
        assert(pow(2, a.len()) == 2 * pow(2, (a.len() - 1) as nat));
        if a.len() == b.len() && bits_value(a) == bits_value(b) {
            assert(a[0] == b[0]);
            assert(a.drop_first() == b.drop_first());
            assert(a =~= seq![a[0]] + a.drop_first());
            assert(b =~= seq![b[0]] + b.drop_first());
        }
    }
}

/// Distinct bit strings of length `n` number at most `2^n`.
proof fn lemma_distinct_bits_bound(subs: Seq<Seq<bool>>, n: nat)
    requires
        forall|j: int| 0 <= j < subs.len() ==> #[trigger] subs[j].len() == n,
        forall|j1: int, j2: int| 0 <= j1 < subs.len() && 0 <= j2 < subs.len() && j1 != j2 ==> #[trigger] subs[j1] != #[trigger] subs[j2],
    ensures
        subs.len() <= pow(2, n),
{
    let f = |j: int| bits_value(subs[j]);
    assert forall|j: int| 0 <= j < subs.len() implies 0 <= #[trigger] f(j) < pow(2, n) by {
        lemma_bits_value(subs[j], subs[j]);
    }
    assert forall|j1: int, j2: int| 0 <= j1 < subs.len() && 0 <= j2 < subs.len() && j1 != j2 implies #[trigger] f(j1) != #[trigger] f(j2) by {
        lemma_bits_value(subs[j1], subs[j2]);
    }
    vstd::arithmetic::power::lemma_pow_positive(2, n);
    lemma_pigeonhole(subs.len() as int, pow(2, n) as int, f);
}

/// Whether two bit strings are equal.
fn bits_equal(a: &Vec<bool>, b: &Vec<bool>) -> (r: bool)
    ensures
        r == (a@ == b@),
{
    if a.len() != b.len() {
        return false;
    }
    let mut i: usize = 0;
    while i < a.len()
        invariant
            a@.len() == b@.len(),
            i <= a@.len(),
            forall|j: int| 0 <= j < i ==> a@[j] == b@[j],
        decreases a@.len() - i,
    {
        if a[i] != b[i] {
            return false;
        }
        i = i + 1;
    }
    assert(a@ =~= b@);
    true
}

/// The position of `s` in `subs`, if it occurs.
fn find_bits(subs: &Vec<Vec<bool>>, s: &Vec<bool>) -> (r: Option<usize>)
    ensures
        r matches Some(j) ==> j < subs@.len() && subs@[j as int]@ == s@,
        r is None ==> forall|j: int| 0 <= j < subs@.len() ==> #[trigger] subs@[j]@ != s@,
{
    let mut j: usize = 0;
    while j < subs.len()
        invariant
            j <= subs@.len(),
            forall|k: int| 0 <= k < j ==> #[trigger] subs@[k]@ != s@,
        decreases subs@.len() - j,
    {
        if bits_equal(&subs[j], s) {
            return Some(j);
        }
        j = j + 1;
    }
    None
}

/// Whether no bit is set.
fn no_bits(s: &Vec<bool>) -> (r: bool)
    ensures
        r == (marked(s@) == Set::<int>::empty()),
{
    let mut i: usize = 0;
    while i < s.len()
        invariant
            i <= s@.len(),
            forall|j: int| 0 <= j < i ==> !s@[j],
        decreases s@.len() - i,
    {
        if s[i] {
            assert(marked(s@).contains(i as int));
            return false;
        }
        i = i + 1;
    }
    assert(marked(s@) =~= Set::<int>::empty());
    true
}

/// Whether a marked state accepts.
fn any_accepting(fa: &Fa, s: &Vec<bool>) -> (r: bool)
    requires
        fa.wf(),
        s@.len() == fa.q,
    ensures
        r == exists|x: int| #[trigger] marked(s@).contains(x) && fa.accepting(x),
{
    let mut i: usize = 0;
    while i < s.len()
        invariant
            fa.wf(),
            s@.len() == fa.q,
            i <= s@.len(),
            forall|j: int| 0 <= j < i && s@[j] ==> !fa.accepting(j),
        decreases s@.len() - i,
    {
        if s[i] && fa.is_accepting(i) {
            assert(marked(s@).contains(i as int));
            return true;
        }
        i = i + 1;
    }
    false
}

/// Some state among the first `p` marked in `s` moves to `x` on `sym`.
spec fn step_upto(fa: &Fa, s: Seq<bool>, sym: i32, p: int, x: int) -> bool {
    exists|p2: int| 0 <= p2 < p && s[p2] && #[trigger] nfa_edge(fa, p2, sym, x)
}

/// The states that the marked states move to on `sym`.
fn step_bits(fa: &Fa, s: &Vec<bool>, sym: i32) -> (r: Vec<bool>)
    requires
        fa.wf(),
        s@.len() == fa.q,
    ensures
        r@.len() == fa.q,
        marked(r@) == nfa_step(fa, marked(s@), sym),
{
    let n = fa.q;
    let mut r: Vec<bool> = vec![false; n];
    let mut p: usize = 0;
    while p < n
        invariant
            fa.wf(),
            n == fa.q,
            s@.len() == n,
            r@.len() == n,
            p <= n,
            forall|x: int| 0 <= x < n ==> #[trigger] r@[x] == step_upto(fa, s@, sym, p as int, x),
        decreases n - p,
    {
        let ghost r0 = r@;
        if s[p] {
            match fa.d[p].get(&sym) {
                Some(ds) => {
                    let mut k: usize = 0;
                    while k < ds.len()
                        invariant
                            fa.wf(),
                            n == fa.q,
                            p < n,
                            r@.len() == n,
                            fa.row(p as int).contains_key(sym),
                            *ds == fa.row(p as int)[sym],
                            k <= ds@.len(),
                            forall|x: int|
                                0 <= x < n ==> #[trigger] r@[x] == (r0[x] || exists|k2: int| 0 <= k2 < k && ds@[k2] == x),
                        decreases ds@.len() - k,
                    {
                        let x = ds[k];
                        proof {
                            assert(fa.dests(p as int, sym)[k as int] == x);
                        }
                        r.set(x, true);
                        proof {
                            assert forall|y: int| 0 <= y < n implies #[trigger] r@[y] == (r0[y] || exists|k2: int|
                                0 <= k2 < k + 1 && ds@[k2] == y) by {
                                if y == x as int {
                                    assert(ds@[k as int] == y);
                                }
                            }
                        }
                        k = k + 1;
                    }
                    proof {
                        assert forall|x: int| 0 <= x < n implies #[trigger] r@[x] == step_upto(fa, s@, sym, p + 1, x) by {
                            if r@[x] && !r0[x] {
                                let k2 = choose|k2: int| 0 <= k2 < ds@.len() && ds@[k2] == x;
                                assert(fa.dests(p as int, sym)[k2] == x as usize);
                                assert(nfa_edge(fa, p as int, sym, x));
                            }
                            if step_upto(fa, s@, sym, p + 1, x) && !step_upto(fa, s@, sym, p as int, x) {
                                let p2 = choose|p2: int| 0 <= p2 < p + 1 && s@[p2] && #[trigger] nfa_edge(fa, p2, sym, x);
                                assert(p2 == p);
                                let k2 = choose|k2: int| 0 <= k2 < fa.dests(p as int, sym).len() && fa.dests(p as int, sym)[k2] == x as usize;
                                assert(ds@[k2] == x);
                            }
                            if step_upto(fa, s@, sym, p as int, x) {
                                let p2 = choose|p2: int| 0 <= p2 < p && s@[p2] && #[trigger] nfa_edge(fa, p2, sym, x);
                                assert(0 <= p2 < p + 1);
                            }
                        }
                    }
                },
                None => {
                    proof {
                        assert forall|x: int| 0 <= x < n implies #[trigger] r@[x] == step_upto(fa, s@, sym, p + 1, x) by {
                            if step_upto(fa, s@, sym, p + 1, x) {
                                let p2 = choose|p2: int| 0 <= p2 < p + 1 && s@[p2] && #[trigger] nfa_edge(fa, p2, sym, x);
                                assert(p2 != p);
                                assert(0 <= p2 < p);
                            }
                            if step_upto(fa, s@, sym, p as int, x) {
                                let p2 = choose|p2: int| 0 <= p2 < p && s@[p2] && #[trigger] nfa_edge(fa, p2, sym, x);
                                assert(0 <= p2 < p + 1);
                            }
                        }
                    }
                },
            }
        } else {
            proof {
                assert forall|x: int| 0 <= x < n implies #[trigger] r@[x] == step_upto(fa, s@, sym, p + 1, x) by {
                    if step_upto(fa, s@, sym, p + 1, x) {
                        let p2 = choose|p2: int| 0 <= p2 < p + 1 && s@[p2] && #[trigger] nfa_edge(fa, p2, sym, x);
                        assert(p2 != p);
                        assert(0 <= p2 < p);
                    }
                    if step_upto(fa, s@, sym, p as int, x) {
                        let p2 = choose|p2: int| 0 <= p2 < p && s@[p2] && #[trigger] nfa_edge(fa, p2, sym, x);
                        assert(0 <= p2 < p + 1);
                    }
                }
            }
        }
        p = p + 1;
    }
    proof {
        assert forall|x: int| #[trigger] marked(r@).contains(x) == nfa_step(fa, marked(s@), sym).contains(x) by {
            if marked(r@).contains(x) {
                assert(step_upto(fa, s@, sym, n as int, x));
                let p2 = choose|p2: int| 0 <= p2 < n && s@[p2] && #[trigger] nfa_edge(fa, p2, sym, x);
                assert(marked(s@).contains(p2));
            }
            if nfa_step(fa, marked(s@), sym).contains(x) {
                let p2 = choose|p2: int| #[trigger] marked(s@).contains(p2) && nfa_edge(fa, p2, sym, x);
                let k2 = choose|k2: int| 0 <= k2 < fa.dests(p2, sym).len() && fa.dests(p2, sym)[k2] == x as usize;
                assert(fa.dests(p2, sym)[k2] < fa.q);
                assert(step_upto(fa, s@, sym, n as int, x));
            }
        }
        assert(marked(r@) =~= nfa_step(fa, marked(s@), sym));
    }
    r
}

/// The sets found so far: the first is `init`, all are bit strings over the `n` states,
/// and no two are equal.
spec fn subsets_ok(subs: Seq<Vec<bool>>, init: Seq<bool>, n: nat) -> bool {
    &&& subs.len() >= 1
    &&& subs[0]@ == init
    &&& forall|j: int| 0 <= j < subs.len() ==> #[trigger] subs[j]@.len() == n
    &&& forall|j1: int, j2: int|
        0 <= j1 < subs.len() && 0 <= j2 < subs.len() && j1 != j2 ==> #[trigger] subs[j1]@ != #[trigger] subs[j2]@
}

/// Row `j` of the subset automaton, for the symbols below `upto`: on each, the state of
/// the set the marked states of set `j` move to, present exactly when that set is not
/// empty.
spec fn subset_row_ok(fa: &Fa, subs: Seq<Vec<bool>>, row: Map<i32, Vec<usize>>, j: int, upto: int) -> bool {
    &&& forall|sym: i32|
        #[trigger] row.contains_key(sym) ==> 0 <= sym < upto && row[sym]@.len() == 1 && row[sym]@[0] < subs.len()
            && marked(subs[row[sym]@[0] as int]@) == nfa_step(fa, marked(subs[j]@), sym)
    &&& forall|sym: i32|
        0 <= sym < upto && !row.contains_key(sym) ==> #[trigger] nfa_step(fa, marked(subs[j]@), sym) == Set::<int>::empty()
}

/// Finding more sets keeps the rows built so far.
proof fn lemma_row_extend(fa: &Fa, s0: Seq<Vec<bool>>, s1: Seq<Vec<bool>>, row: Map<i32, Vec<usize>>, j: int, upto: int)
    requires
        subset_row_ok(fa, s0, row, j, upto),
        0 <= j < s0.len(),
        s0.len() <= s1.len(),
        forall|x: int| 0 <= x < s0.len() ==> #[trigger] s1[x] == s0[x],
    ensures
        subset_row_ok(fa, s1, row, j, upto),
{
    assert(s1[j] == s0[j]);
    assert forall|sym: i32| #[trigger] row.contains_key(sym) implies 0 <= sym < upto && row[sym]@.len() == 1 && row[sym]@[0]
        < s1.len() && marked(s1[row[sym]@[0] as int]@) == nfa_step(fa, marked(s1[j]@), sym) by {
        assert(s1[row[sym]@[0] as int] == s0[row[sym]@[0] as int]);
    }
}

/// A copy of a bit string.
fn copy_bits(s: &Vec<bool>) -> (r: Vec<bool>)
    ensures
        r@ == s@,
{
    let mut r: Vec<bool> = Vec::new();
    let mut i: usize = 0;
    while i < s.len()
        invariant
            i <= s@.len(),
            r@ == s@.subrange(0, i as int),
        decreases s@.len() - i,
    {
        r.push(s[i]);
        i = i + 1;
    }
    assert(r@ =~= s@);
    r
}

/// The subset automaton reads `w` into the set of states `fa` can be in after reading
/// `w` from the marked states of `init`; it stops exactly where that set is empty.
proof fn lemma_subset_run(fa: &Fa, r: &Fa, subs: Seq<Vec<bool>>, init: Seq<bool>, w: Seq<i32>)
    requires
        subs.len() >= 1,
        subs[0]@ == init,
        r.q == subs.len(),
        r.d@.len() == subs.len(),
        forall|j: int| 0 <= j < subs.len() ==> #[trigger] subset_row_ok(fa, subs, r.d@[j]@, j, fa.alphabet_size as int),
        over_alphabet(w, fa.alphabet_size as int),
    ensures
        run_from(r, 0, w) matches Some(j) ==> 0 <= j < subs.len() && marked(subs[j]@) == nfa_reach(fa, marked(init), w),
        run_from(r, 0, w) is None ==> nfa_reach(fa, marked(init), w) == Set::<int>::empty(),
    decreases w.len(),
{
    if w.len() > 0 {
        let w0 = w.drop_last();
        assert(over_alphabet(w0, fa.alphabet_size as int)) by {
            assert forall|i: int| 0 <= i < w0.len() implies 0 <= #[trigger] w0[i] < fa.alphabet_size by {
                assert(w0[i] == w[i]);
            }
        }
        lemma_subset_run(fa, r, subs, init, w0);
        let a = w.last();
        assert(0 <= w[w.len() - 1] < fa.alphabet_size);
        match run_from(r, 0, w0) {
            Some(j) => {
                assert(subset_row_ok(fa, subs, r.d@[j]@, j, fa.alphabet_size as int));
                assert(r.row(j) == r.d@[j]@);
                if r.row(j).contains_key(a) {
                } else {
                    assert(nfa_step(fa, marked(subs[j]@), a) == Set::<int>::empty());
                }
            },
            None => {
                assert(nfa_step(fa, Set::<int>::empty(), a) =~= Set::<int>::empty());
            },
        }
    }
}

/// The deterministic automaton of the sets of states that `fa` can be in, starting
/// from the marked states of `init`: state `0` is `init`, and each state moves on each
/// symbol of the alphabet to the set of successors, unless that set is empty. A state
/// accepts when it holds an accepting state. It accepts a word over the alphabet
/// exactly when `fa` can read it from a marked state into an accepting state.
pub fn determinize_from(fa: &Fa, init: Vec<bool>) -> (r: Fa)
    requires
        fa.wf(),
        init@.len() == fa.q,
        fa.alphabet_size <= i32::MAX,
    ensures
        crate::minimize::is_partial_dfa(&r),
        r.q0 == 0,
        r.q >= 1,
        r.q <= pow(2, fa.q as nat),
        r.alphabet_size == fa.alphabet_size,
        r.true_false is None,
        forall|w: Seq<i32>|
            over_alphabet(w, fa.alphabet_size as int) ==> (#[trigger] accepts(&r, w) <==> nfa_accepts(fa, marked(init@), w)),
{
    let n = fa.q;
    let k = fa.alphabet_size as i32;
    let ghost init0 = init@;
    let mut subs: Vec<Vec<bool>> = Vec::new();
    subs.push(init);
    let mut d: Vec<BTreeMap<i32, Vec<usize>>> = Vec::new();
    let mut o: Vec<i32> = Vec::new();
    proof {
        vstd::arithmetic::power::lemma_pow_positive(2, n as nat);
    }
    let mut i: usize = 0;
    while i < subs.len()
        invariant
            fa.wf(),
            n == fa.q,
            k == fa.alphabet_size,
            subsets_ok(subs@, init0, n as nat),
            subs@.len() <= pow(2, n as nat),
            i <= subs@.len(),
            d@.len() == i,
            o@.len() == i,
            forall|j: int| 0 <= j < i ==> #[trigger] subset_row_ok(fa, subs@, d@[j]@, j, k as int),
            forall|j: int|
                0 <= j < i ==> #[trigger] o@[j] == (if exists|x: int| #[trigger] marked(subs@[j]@).contains(x) && fa.accepting(x) {
                    1i32
                } else {
                    0i32
                }),
        decreases pow(2, n as nat) - i,
    {
        let cur = copy_bits(&subs[i]);
        let acc = any_accepting(fa, &cur);
        let ghost subs0 = subs@;
        let mut row: BTreeMap<i32, Vec<usize>> = BTreeMap::new();
        let mut sym: i32 = 0;
        while sym < k
            invariant
                fa.wf(),
                n == fa.q,
                k == fa.alphabet_size,
                0 <= sym <= k,
                subsets_ok(subs@, init0, n as nat),
                subs@.len() <= pow(2, n as nat),
                i < subs0.len(),
                subs0.len() <= subs@.len(),
                forall|x: int| 0 <= x < subs0.len() ==> #[trigger] subs@[x] == subs0[x],
                cur@ == subs0[i as int]@,
                subset_row_ok(fa, subs@, row@, i as int, sym as int),
            decreases k - sym,
        {
            let next = step_bits(fa, &cur, sym);
            let ghost sb = subs@;
            let ghost rb = row@;
            if !no_bits(&next) {
                let idx = match find_bits(&subs, &next) {
                    Some(j) => j,
                    None => {
                        proof {
                            let s2 = sb.push(next);
                            let views = s2.map_values(|v: Vec<bool>| v@);
                            assert forall|j: int| 0 <= j < views.len() implies #[trigger] views[j].len() == n by {
                                if j < sb.len() {
                                    assert(views[j] == sb[j]@);
                                }
                            }
                            assert forall|j1: int, j2: int|
                                0 <= j1 < views.len() && 0 <= j2 < views.len() && j1 != j2 implies #[trigger] views[j1]
                                != #[trigger] views[j2] by {
                                assert(views[j1] == s2[j1]@);
                                assert(views[j2] == s2[j2]@);
                                if j1 < sb.len() && j2 < sb.len() {
                                    assert(sb[j1]@ != sb[j2]@);
                                }
                            }
                            lemma_distinct_bits_bound(views, n as nat);
                        }
                        subs.push(next);
                        proof {
                            assert forall|j1: int, j2: int|
                                0 <= j1 < subs@.len() && 0 <= j2 < subs@.len() && j1 != j2 implies #[trigger] subs@[j1]@
                                != #[trigger] subs@[j2]@ by {
                                if j1 < sb.len() && j2 < sb.len() {
                                    assert(sb[j1]@ != sb[j2]@);
                                }
                            }
                        }
                        subs.len() - 1
                    },
                };
                let mut v: Vec<usize> = Vec::new();
                v.push(idx);
                row.insert(sym, v);
                proof {
                    assert(subs@[idx as int]@ == next@);
                    lemma_row_extend(fa, sb, subs@, rb, i as int, sym as int);
                    assert(subs@[i as int] == subs0[i as int]);
                    assert forall|s2: i32| #[trigger] row@.contains_key(s2) implies 0 <= s2 < sym + 1 && row@[s2]@.len() == 1
                        && row@[s2]@[0] < subs@.len() && marked(subs@[row@[s2]@[0] as int]@) == nfa_step(
                        fa,
                        marked(subs@[i as int]@),
                        s2,
                    ) by {
                        if s2 != sym {
                            assert(rb.contains_key(s2));
                        }
                    }
                }
            } else {
                proof {
                    assert(subs@[i as int] == subs0[i as int]);
                }
            }
            sym = sym + 1;
        }
        proof {
            assert forall|j: int| 0 <= j < i implies #[trigger] subset_row_ok(fa, subs@, d@[j]@, j, k as int) by {
                lemma_row_extend(fa, subs0, subs@, d@[j]@, j, k as int);
            }
        }
        let ghost d0 = d@;
        let ghost o0 = o@;
        d.push(row);
        let out: i32 = if acc {
            1
        } else {
            0
        };
        o.push(out);
        proof {
            assert forall|j: int| 0 <= j < i + 1 implies #[trigger] subset_row_ok(fa, subs@, d@[j]@, j, k as int) by {
                if j < i {
                    assert(d@[j] == d0[j]);
                }
            }
            assert forall|j: int|
                0 <= j < i + 1 implies #[trigger] o@[j] == (if exists|x: int| #[trigger] marked(subs@[j]@).contains(x)
                && fa.accepting(x) {
                1i32
            } else {
                0i32
            }) by {
                assert(subs@[j] == subs0[j]);
                if j < i {
                    assert(o@[j] == o0[j]);
                }
            }
        }
        i = i + 1;
    }
    let q = subs.len();
    let r = Fa::with_states(0, q, fa.alphabet_size, o, d);
    proof {
        assert forall|p: int, sym: i32, kk: int|
            #![trigger r.dests(p, sym)[kk]]
            0 <= p < r.q && r.row(p).contains_key(sym) && 0 <= kk < r.dests(p, sym).len() implies r.dests(p, sym)[kk] < r.q by {
            assert(subset_row_ok(fa, subs@, r.d@[p]@, p, k as int));
        }
        assert forall|p: int, sym: i32|
            0 <= p < r.q && #[trigger] r.row(p).contains_key(sym) implies r.dests(p, sym).len() == 1 by {
            assert(subset_row_ok(fa, subs@, r.d@[p]@, p, k as int));
        }
        assert forall|p: int| 0 <= p < r.q implies #[trigger] r.o@[p] == 0 || r.o@[p] == 1 by {
            assert(r.o@[p] == o@[p]);
        }
        assert forall|w: Seq<i32>|
            over_alphabet(w, fa.alphabet_size as int) implies (#[trigger] accepts(&r, w) <==> nfa_accepts(fa, marked(init0), w)) by {
            assert forall|j: int| 0 <= j < subs@.len() implies #[trigger] subset_row_ok(fa, subs@, r.d@[j]@, j, fa.alphabet_size as int) by {
                assert(subset_row_ok(fa, subs@, d@[j]@, j, k as int));
            }
            lemma_subset_run(fa, &r, subs@, init0, w);
            if let Some(j) = run_from(&r, 0, w) {
                assert(r.o@[j] == o@[j]);
            }
        }
    }
    r
}

/// Whether `x` is one of `ds`.
fn has_dest(ds: &Vec<usize>, x: usize) -> (r: bool)
    ensures
        r == ds@.contains(x),
{
    let mut i: usize = 0;
    while i < ds.len()
        invariant
            i <= ds@.len(),
            forall|j: int| 0 <= j < i ==> ds@[j] != x,
        decreases ds@.len() - i,
    {
        if ds[i] == x {
            return true;
        }
        i = i + 1;
    }
    false
}

/// The states `p` below `upto` that move to `x` on `sym`, in increasing order.
fn predecessors(fa: &Fa, x: usize, sym: i32) -> (preds: Vec<usize>)
    requires
        fa.wf(),
        x < fa.q,
    ensures
        forall|p: usize| #[trigger] preds@.contains(p) ==> nfa_edge(fa, p as int, sym, x as int),
        forall|p: usize| nfa_edge(fa, p as int, sym, x as int) ==> #[trigger] preds@.contains(p),
        forall|j: int| 0 <= j < preds@.len() ==> #[trigger] preds@[j] < fa.q,
{
    let n = fa.q;
    let mut preds: Vec<usize> = Vec::new();
    let mut p: usize = 0;
    while p < n
        invariant
            fa.wf(),
            n == fa.q,
            x < n,
            p <= n,
            forall|j: int| 0 <= j < preds@.len() ==> #[trigger] preds@[j] < p,
            forall|q: usize| #[trigger] preds@.contains(q) ==> nfa_edge(fa, q as int, sym, x as int),
            forall|q: usize| q < p && nfa_edge(fa, q as int, sym, x as int) ==> #[trigger] preds@.contains(q),
        decreases n - p,
    {
        let ghost pr = preds@;
        match fa.d[p].get(&sym) {
            Some(ds) => {
                if has_dest(ds, x) {
                    preds.push(p);
                    proof {
                        assert(preds@[pr.len() as int] == p);
                        assert forall|q: usize| #[trigger] preds@.contains(q) implies nfa_edge(fa, q as int, sym, x as int) by {
                            if q != p {
                                let j = choose|j: int| 0 <= j < preds@.len() && preds@[j] == q;
                                assert(j < pr.len());
                                assert(pr[j] == q);
                                assert(pr.contains(q));
                            }
                        }
                        assert forall|q: usize| q < p + 1 && nfa_edge(fa, q as int, sym, x as int) implies #[trigger] preds@.contains(q) by {
                            if q < p {
                                assert(pr.contains(q));
                                let j = choose|j: int| 0 <= j < pr.len() && pr[j] == q;
                                assert(preds@[j] == pr[j]);
                            }
                        }
                    }
                } else {
                    proof {
                        assert forall|q: usize| q < p + 1 && nfa_edge(fa, q as int, sym, x as int) implies #[trigger] preds@.contains(q) by {
                            if q == p {
                                assert(fa.dests(p as int, sym).contains(x));
                            }
                        }
                    }
                }
            },
            None => {},
        }
        p = p + 1;
    }
    preds
}

/// Row `row` lists `p` among the destinations on `sym`.
spec fn rev_entry(row: Map<i32, Vec<usize>>, sym: i32, p: usize) -> bool {
    row.contains_key(sym) && row[sym]@.contains(p)
}

/// `fa` with every transition on a symbol of the alphabet turned around, the other
/// transitions dropped, and the start state as the one accepting state (the start
/// state itself is kept).
pub fn reversed_fa(fa: &Fa) -> (r: Fa)
    requires
        fa.wf(),
        fa.alphabet_size <= i32::MAX,
    ensures
        r.wf(),
        r.q == fa.q,
        r.q0 == fa.q0,
        r.alphabet_size == fa.alphabet_size,
        r.true_false is None,
        forall|p: int| 0 <= p < r.q ==> #[trigger] r.o@[p] == (if p == fa.q0 { 1i32 } else { 0i32 }),
        forall|x: int, sym: i32, p: int|
            #[trigger] nfa_edge(&r, x, sym, p) <==> 0 <= sym < fa.alphabet_size && nfa_edge(fa, p, sym, x),
{
    let n = fa.q;
    let k = fa.alphabet_size as i32;
    let mut d: Vec<BTreeMap<i32, Vec<usize>>> = Vec::new();
    let mut x: usize = 0;
    while x < n
        invariant
            fa.wf(),
            n == fa.q,
            k == fa.alphabet_size,
            x <= n,
            d@.len() == x,
            forall|y: int, sym: i32, p: usize|
                0 <= y < x && p < n ==> (#[trigger] rev_entry(d@[y]@, sym, p) <==> 0 <= sym < k && nfa_edge(
                    fa,
                    p as int,
                    sym,
                    y,
                )),
            forall|y: int, sym: i32, j: int|
                0 <= y < x && d@[y]@.contains_key(sym) && 0 <= j < d@[y]@[sym]@.len() ==> #[trigger] d@[y]@[sym]@[j] < n,
        decreases n - x,
    {
        let mut row: BTreeMap<i32, Vec<usize>> = BTreeMap::new();
        let mut sym: i32 = 0;
        while sym < k
            invariant
                fa.wf(),
                n == fa.q,
                k == fa.alphabet_size,
                x < n,
                0 <= sym <= k,
                forall|s2: i32| #[trigger] row@.contains_key(s2) ==> 0 <= s2 < sym,
                forall|s2: i32, p: usize|
                    p < n ==> (#[trigger] rev_entry(row@, s2, p) <==> 0 <= s2 < sym && nfa_edge(fa, p as int, s2, x as int)),
                forall|s2: i32, j: int| row@.contains_key(s2) && 0 <= j < row@[s2]@.len() ==> #[trigger] row@[s2]@[j] < n,
            decreases k - sym,
        {
            let preds = predecessors(fa, x, sym);
            let ghost r0 = row@;
            if preds.len() > 0 {
                row.insert(sym, preds);
            }
            proof {
                assert forall|s2: i32, p: usize|
                    p < n implies (#[trigger] rev_entry(row@, s2, p) <==> 0 <= s2 < sym + 1 && nfa_edge(
                    fa,
                    p as int,
                    s2,
                    x as int,
                )) by {
                    if s2 == sym {
                        assert(!r0.contains_key(sym));
                        if preds@.len() > 0 {
                            assert(row@[sym] == preds);
                        } else if nfa_edge(fa, p as int, s2, x as int) {
                            assert(preds@.contains(p));
                        }
                    } else {
                        assert(rev_entry(row@, s2, p) == rev_entry(r0, s2, p));
                    }
                }
                assert forall|s2: i32, j: int| row@.contains_key(s2) && 0 <= j < row@[s2]@.len() implies #[trigger] row@[s2]@[j] < n by {
                    if s2 != sym {
                        assert(row@[s2] == r0[s2]);
                    }
                }
            }
            sym = sym + 1;
        }
        let ghost d0 = d@;
        d.push(row);
        proof {
            assert forall|y: int, s2: i32, p: usize|
                0 <= y < x + 1 && p < n implies (#[trigger] rev_entry(d@[y]@, s2, p) <==> 0 <= s2 < k && nfa_edge(
                fa,
                p as int,
                s2,
                y,
            )) by {
                if y < x {
                    assert(d@[y] == d0[y]);
                } else {
                    assert(d@[y] == row);
                    assert(rev_entry(row@, s2, p) <==> 0 <= s2 < sym && nfa_edge(fa, p as int, s2, x as int));
                }
            }
            assert forall|y: int, s2: i32, j: int|
                0 <= y < x + 1 && d@[y]@.contains_key(s2) && 0 <= j < d@[y]@[s2]@.len() implies #[trigger] d@[y]@[s2]@[j] < n by {
                if y < x {
                    assert(d@[y] == d0[y]);
                }
            }
        }
        x = x + 1;
    }
    let mut o: Vec<i32> = Vec::new();
    let mut p: usize = 0;
    while p < n
        invariant
            n == fa.q,
            p <= n,
            o@.len() == p,
            forall|j: int| 0 <= j < p ==> #[trigger] o@[j] == (if j == fa.q0 { 1i32 } else { 0i32 }),
        decreases n - p,
    {
        let v: i32 = if p == fa.q0 {
            1
        } else {
            0
        };
        o.push(v);
        p = p + 1;
    }
    let r = Fa::with_states(fa.q0, n, fa.alphabet_size, o, d);
    proof {
        assert forall|y: int, s2: i32, kk: int|
            #![trigger r.dests(y, s2)[kk]]
            0 <= y < r.q && r.row(y).contains_key(s2) && 0 <= kk < r.dests(y, s2).len() implies r.dests(y, s2)[kk] < r.q by {
            assert(d@[y]@.contains_key(s2));
        }
        assert forall|y: int, s2: i32, p2: int| #[trigger] nfa_edge(&r, y, s2, p2) <==> 0 <= s2 < fa.alphabet_size && nfa_edge(fa, p2, s2, y) by {
            if 0 <= y < n && 0 <= p2 < n {
                assert(r.row(y) == d@[y]@);
                assert(rev_entry(d@[y]@, s2, p2 as usize) <==> 0 <= s2 < k && nfa_edge(fa, p2, s2, y));
            }
        }
    }
    r
}

/// Reading `a` and then `v` from the states of `s`.
proof fn lemma_reach_prepend(fa: &Fa, s: Set<int>, a: i32, v: Seq<i32>)
    ensures
        nfa_reach(fa, s, seq![a] + v) == nfa_reach(fa, nfa_step(fa, s, a), v),
    decreases v.len(),
{
    if v.len() == 0 {
        assert(seq![a] + v =~= seq![a]);
        assert(seq![a].drop_last() =~= Seq::<i32>::empty());
        assert(nfa_reach(fa, s, Seq::<i32>::empty()) == s);
        assert(nfa_reach(fa, s, seq![a]) == nfa_step(fa, s, a));
        assert(nfa_reach(fa, nfa_step(fa, s, a), v) == nfa_step(fa, s, a));
    } else {
        lemma_reach_prepend(fa, s, a, v.drop_last());
        assert((seq![a] + v).drop_last() =~= seq![a] + v.drop_last());
        assert((seq![a] + v).last() == v.last());
    }
}

/// What is reached from a set of states is what is reached from one of them.
pub proof fn lemma_reach_from_one(fa: &Fa, s: Set<int>, w: Seq<i32>, t: int)
    ensures
        nfa_reach(fa, s, w).contains(t) <==> exists|x: int| #[trigger] s.contains(x) && nfa_reach(fa, set![x], w).contains(t),
    decreases w.len(),
{
    if w.len() == 0 {
        if s.contains(t) {
            assert(set![t].contains(t));
        }
    } else {
        let w0 = w.drop_last();
        let a = w.last();
        if nfa_reach(fa, s, w).contains(t) {
            let m = choose|m: int| #[trigger] nfa_reach(fa, s, w0).contains(m) && nfa_edge(fa, m, a, t);
            lemma_reach_from_one(fa, s, w0, m);
            let x = choose|x: int| #[trigger] s.contains(x) && nfa_reach(fa, set![x], w0).contains(m);
            assert(nfa_reach(fa, set![x], w).contains(t));
        }
        if exists|x: int| #[trigger] s.contains(x) && nfa_reach(fa, set![x], w).contains(t) {
            let x = choose|x: int| #[trigger] s.contains(x) && nfa_reach(fa, set![x], w).contains(t);
            let m = choose|m: int| #[trigger] nfa_reach(fa, set![x], w0).contains(m) && nfa_edge(fa, m, a, t);
            lemma_reach_from_one(fa, s, w0, m);
            assert(nfa_reach(fa, s, w0).contains(m));
        }
    }
}

/// In the automaton with every transition turned around, `t` is reached from `s` on
/// `w` exactly when `s` is reached from `t` on `w` read backwards.
proof fn lemma_reversed_reach(fa: &Fa, r: &Fa, s: int, t: int, w: Seq<i32>)
    requires
        forall|x: int, sym: i32, p: int| #[trigger] nfa_edge(r, x, sym, p) <==> 0 <= sym < fa.alphabet_size && nfa_edge(fa, p, sym, x),
        over_alphabet(w, fa.alphabet_size as int),
    ensures
        nfa_reach(r, set![s], w).contains(t) <==> nfa_reach(fa, set![t], w.reverse()).contains(s),
    decreases w.len(),
{
    if w.len() == 0 {
        assert(w.reverse() =~= Seq::<i32>::empty());
    } else {
        let w0 = w.drop_last();
        let a = w.last();
        assert(over_alphabet(w0, fa.alphabet_size as int)) by {
            assert forall|i: int| 0 <= i < w0.len() implies 0 <= #[trigger] w0[i] < fa.alphabet_size by {
                assert(w0[i] == w[i]);
            }
        }
        assert(0 <= w[w.len() - 1] < fa.alphabet_size);
        assert(w.reverse() =~= seq![a] + w0.reverse());
        lemma_reach_prepend(fa, set![t], a, w0.reverse());
        if nfa_reach(r, set![s], w).contains(t) {
            let m = choose|m: int| #[trigger] nfa_reach(r, set![s], w0).contains(m) && nfa_edge(r, m, a, t);
            lemma_reversed_reach(fa, r, s, m, w0);
            assert(nfa_edge(fa, t, a, m));
            assert(set![t].contains(t));
            assert(nfa_step(fa, set![t], a).contains(m));
            lemma_reach_from_one(fa, nfa_step(fa, set![t], a), w0.reverse(), s);
        }
        if nfa_reach(fa, set![t], w.reverse()).contains(s) {
            lemma_reach_from_one(fa, nfa_step(fa, set![t], a), w0.reverse(), s);
            let m = choose|m: int| #[trigger] nfa_step(fa, set![t], a).contains(m) && nfa_reach(fa, set![m], w0.reverse()).contains(s);
            lemma_reversed_reach(fa, r, s, m, w0);
            let t2 = choose|t2: int| #[trigger] set![t].contains(t2) && nfa_edge(fa, t2, a, m);
            assert(t2 == t);
            assert(nfa_edge(r, m, a, t));
        }
    }
}

/// For a deterministic automaton, reading from one state reaches at most the state that
/// its run reaches.
pub proof fn lemma_reach_deterministic(fa: &Fa, p: int, w: Seq<i32>)
    requires
        fa.wf(),
        fa.spec_deterministic(),
        0 <= p < fa.q,
    ensures
        nfa_reach(fa, set![p], w) == match run_from(fa, p, w) {
            Some(t) => set![t],
            None => Set::<int>::empty(),
        },
    decreases w.len(),
{
    if w.len() == 0 {
    } else {
        let w0 = w.drop_last();
        let a = w.last();
        lemma_reach_deterministic(fa, p, w0);
        match run_from(fa, p, w0) {
            Some(m) => {
                crate::fa::lemma_run_in_range(fa, p, w0);
                if fa.row(m).contains_key(a) && fa.dests(m, a).len() > 0 {
                    let t = fa.dests(m, a)[0] as int;
                    assert(fa.dests(m, a).len() == 1);
                    assert(t < fa.q);
                    assert forall|x: int| #[trigger] nfa_reach(fa, set![p], w).contains(x) == set![t].contains(x) by {
                        if x == t {
                            assert(set![m].contains(m));
                            assert(fa.dests(m, a).contains(t as usize));
                            assert(nfa_edge(fa, m, a, t));
                        }
                        if nfa_reach(fa, set![p], w).contains(x) {
                            let m2 = choose|m2: int| #[trigger] set![m].contains(m2) && nfa_edge(fa, m2, a, x);
                            assert(m2 == m);
                            let kk = choose|kk: int| 0 <= kk < fa.dests(m, a).len() && fa.dests(m, a)[kk] == x as usize;
                            assert(kk == 0);
                        }
                    }
                    assert(nfa_reach(fa, set![p], w) =~= set![t]);
                } else {
                    assert forall|x: int| !#[trigger] nfa_reach(fa, set![p], w).contains(x) by {
                        if nfa_reach(fa, set![p], w).contains(x) {
                            let m2 = choose|m2: int| #[trigger] set![m].contains(m2) && nfa_edge(fa, m2, a, x);
                            assert(m2 == m);
                        }
                    }
                    assert(nfa_reach(fa, set![p], w) =~= Set::<int>::empty());
                }
            },
            None => {
                assert(nfa_reach(fa, set![p], w) =~= Set::<int>::empty());
            },
        }
    }
}

/// The accepting states of `fa`.
pub open spec fn accepting_set(fa: &Fa) -> Set<int> {
    Set::new(|p: int| fa.accepting(p))
}

/// The automaton with its transitions turned around, read from the accepting states
/// into the start state, accepts exactly the words whose reversal `fa` can read from its
/// start state into an accepting state.
pub proof fn lemma_reversed_accepts(fa: &Fa, r: &Fa, w: Seq<i32>)
    requires
        fa.wf(),
        0 <= fa.q0 < fa.q,
        r.q == fa.q,
        r.o@.len() == r.q,
        forall|p: int| 0 <= p < r.q ==> #[trigger] r.o@[p] == (if p == fa.q0 { 1i32 } else { 0i32 }),
        forall|x: int, sym: i32, p: int| #[trigger] nfa_edge(r, x, sym, p) <==> 0 <= sym < fa.alphabet_size && nfa_edge(fa, p, sym, x),
        over_alphabet(w, fa.alphabet_size as int),
    ensures
        nfa_accepts(r, accepting_set(fa), w) <==> nfa_accepts(fa, set![fa.q0 as int], w.reverse()),
{
    let q0 = fa.q0 as int;
    lemma_reach_from_one(r, accepting_set(fa), w, q0);
    if nfa_accepts(r, accepting_set(fa), w) {
        let x = choose|x: int| #[trigger] nfa_reach(r, accepting_set(fa), w).contains(x) && r.accepting(x);
        assert(x == q0);
        let s = choose|s: int| #[trigger] accepting_set(fa).contains(s) && nfa_reach(r, set![s], w).contains(q0);
        lemma_reversed_reach(fa, r, s, q0, w);
        assert(nfa_reach(fa, set![q0], w.reverse()).contains(s) && fa.accepting(s));
    }
    if nfa_accepts(fa, set![q0], w.reverse()) {
        let s = choose|s: int| #[trigger] nfa_reach(fa, set![q0], w.reverse()).contains(s) && fa.accepting(s);
        lemma_reversed_reach(fa, r, s, q0, w);
        assert(accepting_set(fa).contains(s));
        assert(nfa_reach(r, accepting_set(fa), w).contains(q0));
        assert(r.accepting(q0));
    }
}

/// For a deterministic automaton, what can be read from the start state into an
/// accepting state is what it accepts.
pub proof fn lemma_nfa_accepts_deterministic(fa: &Fa, w: Seq<i32>)
    requires
        fa.wf(),
        fa.spec_deterministic(),
        0 <= fa.q0 < fa.q,
    ensures
        nfa_accepts(fa, set![fa.q0 as int], w) <==> accepts(fa, w),
{
    lemma_reach_deterministic(fa, fa.q0 as int, w);
    if accepts(fa, w) {
        let t = run_from(fa, fa.q0 as int, w)->Some_0;
        assert(nfa_reach(fa, set![fa.q0 as int], w).contains(t));
    }
}

} // verus!
